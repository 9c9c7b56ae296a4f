//! A tracing mark-and-sweep collector for a small stack-machine runtime.
//!
//! Objects (scalars and two-child links) live in an arena owned by the
//! machine; handles are stable arena indices. Liveness is reachability from
//! the machine's root stack, recomputed by each collection cycle: the mark
//! phase traverses the object graph (cycle-safe, via the mark bit), the sweep
//! phase frees every unmarked slot, and the trigger threshold is recomputed
//! from the surviving population.

pub mod count;
pub mod obj;
pub mod reach;
pub mod vm;

pub use obj::GcPtr;
pub use obj::ObjType;
pub use obj::Object;
pub use obj::Pair;
pub use vm::Vm;
