//! A slot map with stable keys, reference-counted guards and a tagged free list.
pub mod alone;
pub mod chunks;
pub mod count;
pub mod crew;
pub mod discipline;
pub mod drops;
pub mod fuzz;
pub mod guard;
pub mod head;
pub mod history;
pub mod iter;
pub mod laws;
pub mod ledger;
pub mod linear;
pub mod location;
pub mod map;
pub mod memory;
pub mod owning_guard;
pub mod progress;
pub mod protocol;
pub mod replay;
pub mod runs;
pub mod session;
pub mod settled;
pub mod slot;
pub mod state;
pub mod steps;
pub mod strides;
pub mod threads;
pub mod turns;
pub mod util;
pub mod values;
pub mod vec;
pub mod workload;
pub mod world;

pub use guard::SlotGuard;
pub use head::{pack_free_head, unpack_free_head};
pub use iter::LossyIter;
pub use map::AtomicSlotMap;
pub use owning_guard::OwningSlotGuard;
pub use slot::Slot;
pub use util::{DefaultKey, Key, KeyData, KeyDataRead, KeyView};
pub use vec::{AtomicVec, DefaultIfLoom, DropInPlace};
