use vstd::prelude::*;

pub mod api;
pub mod deque;
pub mod ipc_item;
pub mod process;
pub mod slot_array;

pub use api::{
    map_add_entry, map_get_ntf_id, map_pop_ntf_id, pop, push, register_queue, set_pid, QueueArray,
};
pub use deque::{LockFreeDeque, SlotGuard};
pub use ipc_item::IPCItem;
pub use process::{PerProcess, SENTINEL_ANY};
pub use slot_array::{SlotArray, SlotRef};

verus! {

/// Number of messages a mailbox can hold at once.
pub const QUEUE_LEN: usize = 4096;

/// Number of cells in a mailbox deque: one cell is kept free as a sentinel.
pub const QUEUE_CAPACITY: usize = QUEUE_LEN + 1;

/// Number of cells in the root array of per-process records, and in each routing table.
pub const ARRAY_LEN: usize = 64;

} // verus!
