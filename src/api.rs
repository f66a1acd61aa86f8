use vstd::prelude::*;

use crate::deque::{pop_back_of, push_front_of};
use crate::ipc_item::IPCItem;
use crate::process::{add_route_of, lookup_of, pop_route_of, PerProcess, RouteCell};
use crate::slot_array::{count_in, first_free, value_in, SlotArray, SlotRef};
use crate::{ARRAY_LEN, QUEUE_CAPACITY};

verus! {

broadcast use crate::slot_array::lemma_view_len;

/// The root array: one cell per registered process.
pub type QueueArray = SlotArray<PerProcess, ARRAY_LEN>;

/// The record in cell `id` of the root array.
pub open spec fn record(root: QueueArray, id: int) -> PerProcess {
    value_in(root@[id])
}

/// The root array and every live record in it are well formed.
pub open spec fn queue_array_wf(root: QueueArray) -> bool {
    &&& root.wf()
    &&& forall|i: int| #[trigger] root.is_live(i) ==> record(root, i).wf()
}

/// Every cell but `id` is unchanged, and `id` stays live with the same count.
pub open spec fn only_record_changed(before: QueueArray, after: QueueArray, id: int) -> bool {
    &&& after.is_live(id)
    &&& count_in(after@[id]) == count_in(before@[id])
    &&& forall|j: int| 0 <= j < ARRAY_LEN && j != id ==> after@[j] == before@[j]
}

/// Changing one record, and keeping it well formed, keeps the root array well formed.
proof fn lemma_wf_after_change(before: QueueArray, after: QueueArray, id: int)
    requires
        queue_array_wf(before),
        after.wf(),
        only_record_changed(before, after, id),
        record(after, id).wf(),
    ensures
        queue_array_wf(after),
{
    assert forall|i: int| #[trigger] after.is_live(i) implies record(after, i).wf() by {
        if i != id {
            assert(before.is_live(i));
        }
    }
}

/// Mailbox of record `id`.
pub open spec fn mailbox_of(root: QueueArray, id: int) -> Seq<Option<IPCItem>> {
    record(root, id).mailbox_view()
}

/// Routing table of record `id`.
pub open spec fn routes_of(root: QueueArray, id: int) -> Seq<RouteCell> {
    record(root, id).routes_view()
}

/// Process id of record `id`.
pub open spec fn pid_of(root: QueueArray, id: int) -> u64 {
    record(root, id).pid_view()
}

/// Registers a new process: a fresh record (empty mailbox, pid 0, no routes) in the
/// lowest empty cell, with its first handle; `Err(())` when every cell is taken.
pub fn register_queue(root: &mut QueueArray) -> (r: Result<SlotRef, ()>)
    requires
        queue_array_wf(*old(root)),
    ensures
        queue_array_wf(*final(root)),
        match r {
            Ok(h) => {
                &&& h.id() == first_free(old(root)@)
                &&& 0 <= h.id() < ARRAY_LEN
                &&& final(root).is_live(h.id())
                &&& count_in(final(root)@[h.id()]) == 1
                &&& mailbox_of(*final(root), h.id()).len() == 0
                &&& pid_of(*final(root), h.id()) == 0
                &&& forall|k: int| 0 <= k < ARRAY_LEN ==> routes_of(*final(root), h.id())[k] is None
                &&& forall|j: int| 0 <= j < ARRAY_LEN && j != h.id() ==> final(root)@[j] == old(root)@[j]
            },
            Err(()) => {
                &&& first_free(old(root)@) == ARRAY_LEN
                &&& *final(root) == *old(root)
            },
        },
{
    let fresh = PerProcess::new();
    let r = root.push(fresh);
    proof {
        if let Ok(h) = &r {
            assert(record(*root, h.id()) == fresh);
            assert forall|i: int| #[trigger] root.is_live(i) implies record(*root, i).wf() by {
                if i != h.id() {
                    assert(old(root).is_live(i));
                }
            }
        }
    }
    r
}

/// Puts `item` into the mailbox of the process `queue_id`; the item comes back when
/// the mailbox is full.
pub fn push(root: &mut QueueArray, queue_id: usize, item: IPCItem) -> (r: Result<(), IPCItem>)
    requires
        queue_array_wf(*old(root)),
        old(root).is_live(queue_id as int),
    ensures
        queue_array_wf(*final(root)),
        only_record_changed(*old(root), *final(root), queue_id as int),
        (r, mailbox_of(*final(root), queue_id as int)) == push_front_of(
            mailbox_of(*old(root), queue_id as int),
            QUEUE_CAPACITY as int,
            item,
        ),
        pid_of(*final(root), queue_id as int) == pid_of(*old(root), queue_id as int),
        routes_of(*final(root), queue_id as int) == routes_of(*old(root), queue_id as int),
{
    // The id stands for a handle given up by its owner: take it back for the call,
    // then give it up again, so the count is untouched.
    let slot_ref = SlotRef::from_id(queue_id);
    let res = slot_ref.get_mut(root).push(item);
    let _ = slot_ref.into_id();
    proof {
        lemma_wf_after_change(*old(root), *root, queue_id as int);
    }
    res
}

/// Takes the oldest message out of the mailbox of the process `queue_id`.
pub fn pop(root: &mut QueueArray, queue_id: usize) -> (r: Option<IPCItem>)
    requires
        queue_array_wf(*old(root)),
        old(root).is_live(queue_id as int),
    ensures
        queue_array_wf(*final(root)),
        only_record_changed(*old(root), *final(root), queue_id as int),
        (r, mailbox_of(*final(root), queue_id as int)) == pop_back_of(
            mailbox_of(*old(root), queue_id as int),
        ),
        r is None <==> mailbox_of(*old(root), queue_id as int).len() == 0,
        pid_of(*final(root), queue_id as int) == pid_of(*old(root), queue_id as int),
        routes_of(*final(root), queue_id as int) == routes_of(*old(root), queue_id as int),
{
    let slot_ref = SlotRef::from_id(queue_id);
    let res = slot_ref.get_mut(root).pop();
    let _ = slot_ref.into_id();
    proof {
        lemma_wf_after_change(*old(root), *root, queue_id as int);
    }
    res
}

/// Records the process id of the process `queue_id`.
pub fn set_pid(root: &mut QueueArray, queue_id: usize, pid: u64)
    requires
        queue_array_wf(*old(root)),
        old(root).is_live(queue_id as int),
    ensures
        queue_array_wf(*final(root)),
        only_record_changed(*old(root), *final(root), queue_id as int),
        pid_of(*final(root), queue_id as int) == pid,
        mailbox_of(*final(root), queue_id as int) == mailbox_of(*old(root), queue_id as int),
        routes_of(*final(root), queue_id as int) == routes_of(*old(root), queue_id as int),
{
    let slot_ref = SlotRef::from_id(queue_id);
    slot_ref.get_mut(root).set_pid(pid);
    let _ = slot_ref.into_id();
    proof {
        lemma_wf_after_change(*old(root), *root, queue_id as int);
    }
}

/// Adds the route `msg_type -> ntf_id` to the process `queue_id`; `Err(())` when its
/// table is full.
pub fn map_add_entry(root: &mut QueueArray, queue_id: usize, msg_type: u64, ntf_id: u64) -> (r:
    Result<(), ()>)
    requires
        queue_array_wf(*old(root)),
        old(root).is_live(queue_id as int),
    ensures
        queue_array_wf(*final(root)),
        only_record_changed(*old(root), *final(root), queue_id as int),
        (r, routes_of(*final(root), queue_id as int)) == add_route_of(
            routes_of(*old(root), queue_id as int),
            msg_type,
            ntf_id,
        ),
        pid_of(*final(root), queue_id as int) == pid_of(*old(root), queue_id as int),
        mailbox_of(*final(root), queue_id as int) == mailbox_of(*old(root), queue_id as int),
{
    let slot_ref = SlotRef::from_id(queue_id);
    let res = slot_ref.get_mut(root).add_route(msg_type, ntf_id);
    let _ = slot_ref.into_id();
    proof {
        lemma_wf_after_change(*old(root), *root, queue_id as int);
    }
    res
}

/// Target of the first route of the process `queue_id`, in cell order, whose type is
/// `msg_type` or the wildcard.
pub fn map_get_ntf_id(root: &QueueArray, queue_id: usize, msg_type: u64) -> (r: Option<u64>)
    requires
        queue_array_wf(*root),
        root.is_live(queue_id as int),
    ensures
        r == lookup_of(routes_of(*root, queue_id as int), msg_type),
{
    let slot_ref = SlotRef::from_id(queue_id);
    let res = slot_ref.get(root).get_ntf(msg_type);
    let _ = slot_ref.into_id();
    res
}

/// Removes the first route of the process `queue_id` whose type is exactly
/// `msg_type`, and returns its target.
pub fn map_pop_ntf_id(root: &mut QueueArray, queue_id: usize, msg_type: u64) -> (r: Option<u64>)
    requires
        queue_array_wf(*old(root)),
        old(root).is_live(queue_id as int),
    ensures
        queue_array_wf(*final(root)),
        only_record_changed(*old(root), *final(root), queue_id as int),
        (r, routes_of(*final(root), queue_id as int)) == pop_route_of(
            routes_of(*old(root), queue_id as int),
            msg_type,
        ),
        pid_of(*final(root), queue_id as int) == pid_of(*old(root), queue_id as int),
        mailbox_of(*final(root), queue_id as int) == mailbox_of(*old(root), queue_id as int),
{
    let slot_ref = SlotRef::from_id(queue_id);
    let res = slot_ref.get_mut(root).pop_route(msg_type);
    let _ = slot_ref.into_id();
    proof {
        lemma_wf_after_change(*old(root), *root, queue_id as int);
    }
    res
}

} // verus!
