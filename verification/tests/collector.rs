use mark_sweep::GcPtr;
use mark_sweep::ObjType;
use mark_sweep::Pair;
use mark_sweep::Vm;

#[test]
fn test1() {
    println!("Test 1: Objects on stack are preserved.");
    let mut vm = Vm::new();
    vm.push_int(1);
    vm.push_int(2);

    vm.gc();
    assert!(vm.live_count() == 2, "Should have preserved objects.");
    vm.teardown();
    drop(vm);
}

#[test]
fn test2() {
    println!("Test 2: Unreached objects are collected.");
    let mut vm = Vm::new();
    vm.push_int(1);
    vm.push_int(2);
    vm.pop();
    vm.pop();

    vm.gc();
    assert!(vm.live_count() == 0, "Should have collected objects.");
    vm.teardown();
    drop(vm);
}

#[test]
fn test3() {
    println!("Test 3: Reach nested objects.");
    let mut vm = Vm::new();
    vm.push_int(1);
    vm.push_int(2);
    vm.push_pair();
    vm.push_int(3);
    vm.push_int(4);
    vm.push_pair();
    vm.push_pair();

    vm.gc();
    assert!(vm.live_count() == 7, "Should have reached objects.");
    vm.teardown();
    drop(vm);
}

#[test]
fn test4() {
    println!("Test 4: Handle cycles.");
    let mut vm = Vm::new();
    vm.push_int(1);
    vm.push_int(2);
    vm.push_pair();
    vm.push_int(3);
    vm.push_int(4);
    vm.push_pair();

    // Set up a cycle, and also make 2 and 4 unreachable and collectible.
    // The pairs sit in slots 2 and 5; each tail pointed at a scalar, and now
    // points at the other pair instead.
    vm.set_pair_tail(GcPtr(2), Some(GcPtr(5)));
    vm.set_pair_tail(GcPtr(5), Some(GcPtr(2)));

    vm.gc();
    assert!(vm.live_count() == 4, "Should have collected objects.");
    vm.teardown();
    drop(vm);
}

#[test]
fn perf_test() {
    println!("Performance Test.");
    let mut vm = Vm::new();

    for i in 0..1000 {
        for _j in 0..20 {
            vm.push_int(i);
        }

        for _k in 0..20 {
            vm.pop();
        }
    }
    vm.teardown();
    drop(vm);
}

#[test]
fn full() {
    test1();
    test2();
    test3();
    test4();
    perf_test();
}

#[test]
fn cycle_unreachable_reclaimed() {
    // Two pairs that reference each other and are popped off the stack: the
    // collection must terminate and reclaim the whole cycle.
    let mut vm = Vm::new();
    vm.push_int(1);
    vm.push_int(2);
    vm.push_pair();
    vm.push_int(3);
    vm.push_int(4);
    vm.push_pair();
    vm.set_pair_tail(GcPtr(2), Some(GcPtr(5)));
    vm.set_pair_tail(GcPtr(5), Some(GcPtr(2)));
    vm.pop();
    vm.pop();

    let (collected, remaining) = vm.gc();
    assert_eq!(collected, 6);
    assert_eq!(remaining, 0);
    assert_eq!(vm.live_count(), 0);
}

#[test]
fn self_cycle_reclaimed() {
    // A pair whose head points back at itself: still reclaimed once popped.
    let mut vm = Vm::new();
    vm.push_int(9);
    vm.push_int(8);
    vm.push_pair();
    vm.set_pair_head(GcPtr(2), Some(GcPtr(2)));
    vm.pop();

    let (collected, remaining) = vm.gc();
    assert_eq!(collected, 3);
    assert_eq!(remaining, 0);
}

#[test]
fn gc_on_empty_machine_resets_state() {
    let mut vm = Vm::new();
    let (collected, remaining) = vm.gc();
    assert_eq!(collected, 0);
    assert_eq!(remaining, 0);
    assert_eq!(vm.gc_threshold(), 8);
    assert_eq!(vm.live_count(), 0);
}

#[test]
fn pop_returns_newest_handle() {
    let mut vm = Vm::new();
    vm.push_int(10);
    vm.push_int(20);
    assert_eq!(vm.pop(), GcPtr(1));
    assert_eq!(vm.pop(), GcPtr(0));
    assert_eq!(vm.root_count(), 0);
    assert_eq!(vm.live_count(), 2);
}

#[test]
fn push_accepts_bare_payloads() {
    let mut vm = Vm::new();
    vm.push(ObjType::Int(41));
    vm.push(ObjType::Pair(Pair { head: None, tail: None }));
    vm.gc();
    assert_eq!(vm.live_count(), 2);
}

#[test]
fn mark_then_sweep_equals_gc() {
    // The two phases, called one after the other, reclaim exactly what a
    // whole cycle does.
    let mut vm = Vm::new();
    vm.push_int(1);
    vm.push_int(2);
    vm.pop();
    vm.mark_all();
    vm.sweep();
    assert_eq!(vm.live_count(), 1);
}

#[test]
fn threshold_doubles_on_survivors() {
    let mut vm = Vm::new();
    assert_eq!(vm.gc_threshold(), 8);
    vm.push_int(1);
    vm.push_int(2);
    vm.push_int(3);
    vm.gc();
    assert_eq!(vm.live_count(), 3);
    assert_eq!(vm.gc_threshold(), 6);
}

#[test]
fn threshold_resets_when_empty() {
    let mut vm = Vm::new();
    vm.push_int(1);
    vm.push_int(2);
    vm.push_int(3);
    vm.gc();
    assert_eq!(vm.gc_threshold(), 6);
    vm.pop();
    vm.pop();
    vm.pop();
    vm.gc();
    assert_eq!(vm.live_count(), 0);
    assert_eq!(vm.gc_threshold(), 8);
}

#[test]
fn trigger_waits_for_threshold() {
    // With K survivors the threshold is 2K: the next automatic collection is
    // not due until K further net allocations have happened.
    let mut vm = Vm::new();
    vm.push_int(1);
    vm.push_int(2);
    vm.push_int(3);
    vm.gc();
    assert_eq!(vm.gc_threshold(), 6);
    vm.push_int(4);
    vm.push_int(5);
    assert!(vm.collect_if_due().is_none());
    vm.push_int(6);
    let report = vm.collect_if_due();
    assert_eq!(report, Some((0, 6)));
}

#[test]
fn trigger_fires_at_initial_threshold() {
    let mut vm = Vm::new();
    for i in 0..8 {
        vm.push_int(i);
        vm.pop();
    }
    let report = vm.collect_if_due();
    assert_eq!(report, Some((8, 0)));
    assert_eq!(vm.live_count(), 0);
}

#[test]
fn repeated_gc_is_idempotent() {
    let mut vm = Vm::new();
    vm.push_int(1);
    vm.push_int(2);
    vm.push_pair();
    vm.push_int(3);
    vm.pop();

    let (_, remaining1) = vm.gc();
    let live1 = vm.live_count();
    let (collected2, remaining2) = vm.gc();
    assert_eq!(collected2, 0);
    assert_eq!(remaining2, remaining1);
    assert_eq!(vm.live_count(), live1);
}

#[test]
fn teardown_reclaims_everything() {
    let mut vm = Vm::new();
    vm.push_int(1);
    vm.push_int(2);
    vm.push_pair();
    vm.push_int(3);
    assert_eq!(vm.live_count(), 4);

    let (collected, remaining) = vm.teardown();
    assert_eq!(collected, 4);
    assert_eq!(remaining, 0);
    assert_eq!(vm.live_count(), 0);
    assert_eq!(vm.root_count(), 0);
}

#[test]
fn relinking_keeps_children_alive() {
    // Redirecting a head keeps the new target alive and lets the old one go.
    let mut vm = Vm::new();
    vm.push_int(1);
    vm.push_int(2);
    vm.push_pair();
    vm.push_int(3);
    let fresh = vm.pop();
    vm.set_pair_head(GcPtr(2), Some(fresh));

    vm.gc();
    // the pair, its tail (slot 0) and the fresh head survive; slot 1 does not
    assert_eq!(vm.live_count(), 3);
}
