use vstd::prelude::*;

use crate::deque::{pop_back_of, push_front_of, LockFreeDeque};
use crate::ipc_item::IPCItem;
use crate::slot_array::{count_in, first_free, lemma_first_free_props, push_of, SlotArray, SlotRef};
use crate::{ARRAY_LEN, QUEUE_CAPACITY};

verus! {

broadcast use crate::slot_array::lemma_view_len;

/// A route whose message type is all ones matches every lookup.
pub const SENTINEL_ANY: u64 = 0xffff_ffff_ffff_ffff;

/// A cell of a routing table: `None`, or `((msg_type, ntf_id), count)`.
pub type RouteCell = Option<((u64, u64), nat)>;

/// Message type of a live route.
pub open spec fn route_type(e: RouteCell) -> u64 {
    match e {
        Some(((t, _), _)) => t,
        None => 0,
    }
}

/// Notification target of a live route.
pub open spec fn route_ntf(e: RouteCell) -> u64 {
    match e {
        Some(((_, n), _)) => n,
        None => 0,
    }
}

/// Whether the cell holds a route that answers a lookup of `q`: its own type is `q`,
/// or it is the wildcard.
pub open spec fn route_matches(e: RouteCell, q: u64) -> bool {
    e is Some && (route_type(e) == q || route_type(e) == SENTINEL_ANY)
}

/// Whether the cell holds a route for exactly the type `q`.
pub open spec fn route_exact(e: RouteCell, q: u64) -> bool {
    e is Some && route_type(e) == q
}

/// Lowest cell at or after `k` whose route answers `q`, or `s.len()`.
pub open spec fn first_match_from(s: Seq<RouteCell>, k: int, q: u64) -> int
    decreases s.len() - k,
{
    if k >= s.len() || k < 0 {
        s.len() as int
    } else if route_matches(s[k], q) {
        k
    } else {
        first_match_from(s, k + 1, q)
    }
}

/// Lowest cell at or after `k` whose route is for exactly `q`, or `s.len()`.
pub open spec fn first_exact_from(s: Seq<RouteCell>, k: int, q: u64) -> int
    decreases s.len() - k,
{
    if k >= s.len() || k < 0 {
        s.len() as int
    } else if route_exact(s[k], q) {
        k
    } else {
        first_exact_from(s, k + 1, q)
    }
}

/// Target found by a lookup of `q`: that of the first route, in cell order, that
/// answers `q`.
pub open spec fn lookup_of(s: Seq<RouteCell>, q: u64) -> Option<u64> {
    let i = first_match_from(s, 0, q);
    if i < s.len() {
        Some(route_ntf(s[i]))
    } else {
        None
    }
}

/// Result and table after adding the route `q -> ntf`: it takes the lowest empty cell.
pub open spec fn add_route_of(s: Seq<RouteCell>, q: u64, ntf: u64) -> (Result<(), ()>, Seq<RouteCell>) {
    let (r, t) = push_of(s, (q, ntf));
    (
        match r {
            Ok(_) => Ok(()),
            Err(()) => Err(()),
        },
        t,
    )
}

/// Result and table after removing the first route for exactly `q`.
pub open spec fn pop_route_of(s: Seq<RouteCell>, q: u64) -> (Option<u64>, Seq<RouteCell>) {
    let i = first_exact_from(s, 0, q);
    if i < s.len() {
        (Some(route_ntf(s[i])), s.update(i, None))
    } else {
        (None, s)
    }
}

/// The record each registered process owns: its mailbox, its process id, and the
/// table that routes message types to notification targets.
pub struct PerProcess {
    mailbox: LockFreeDeque<IPCItem, QUEUE_CAPACITY>,
    pid: u64,
    routes: SlotArray<(u64, u64), ARRAY_LEN>,
}

impl PerProcess {
    pub closed spec fn mailbox_view(self) -> Seq<Option<IPCItem>> {
        self.mailbox@
    }

    pub closed spec fn pid_view(self) -> u64 {
        self.pid
    }

    pub closed spec fn routes_view(self) -> Seq<RouteCell> {
        self.routes@
    }

    /// Both containers are well formed, the mailbox holds only published messages
    /// (no cell of it is ever reserved), and each route is held by exactly one
    /// forgotten handle.
    pub closed spec fn wf(self) -> bool {
        &&& self.mailbox.wf()
        &&& forall|k: int| 0 <= k < self.mailbox@.len() ==> #[trigger] self.mailbox@[k] is Some
        &&& self.routes.wf()
        &&& forall|i: int|
            0 <= i < ARRAY_LEN && #[trigger] self.routes@[i] is Some ==> count_in(
                self.routes@[i],
            ) == 1
    }

    /// A fresh record: empty mailbox, pid 0, no routes.
    pub fn new() -> (r: Self)
        ensures
            r.wf(),
            r.mailbox_view().len() == 0,
            r.pid_view() == 0,
            r.routes_view() == Seq::new(ARRAY_LEN as nat, |i: int| None::<((u64, u64), nat)>),
    {
        PerProcess { mailbox: LockFreeDeque::new(), pid: 0, routes: SlotArray::new() }
    }

    /// Puts a message into the mailbox; the message comes back when it is full.
    pub fn push(&mut self, item: IPCItem) -> (r: Result<(), IPCItem>)
        requires
            old(self).wf(),
        ensures
            final(self).wf(),
            (r, final(self).mailbox_view()) == push_front_of(
                old(self).mailbox_view(),
                QUEUE_CAPACITY as int,
                item,
            ),
            final(self).pid_view() == old(self).pid_view(),
            final(self).routes_view() == old(self).routes_view(),
    {
        self.mailbox.push_front(item)
    }

    /// Takes the oldest message out of the mailbox, if there is one.
    pub fn pop(&mut self) -> (r: Option<IPCItem>)
        requires
            old(self).wf(),
        ensures
            final(self).wf(),
            (r, final(self).mailbox_view()) == pop_back_of(old(self).mailbox_view()),
            r is None <==> old(self).mailbox_view().len() == 0,
            final(self).pid_view() == old(self).pid_view(),
            final(self).routes_view() == old(self).routes_view(),
    {
        self.mailbox.pop_back()
    }

    /// The recorded process id.
    pub fn pid(&self) -> (r: u64)
        ensures
            r == self.pid_view(),
    {
        self.pid
    }

    /// Records the process id.
    pub fn set_pid(&mut self, pid: u64)
        requires
            old(self).wf(),
        ensures
            final(self).wf(),
            final(self).pid_view() == pid,
            final(self).mailbox_view() == old(self).mailbox_view(),
            final(self).routes_view() == old(self).routes_view(),
    {
        self.pid = pid;
    }

    /// Adds the route `msg_type -> ntf_id` in the lowest empty cell of the table;
    /// `Err(())` when the table is full.
    pub fn add_route(&mut self, msg_type: u64, ntf_id: u64) -> (r: Result<(), ()>)
        requires
            old(self).wf(),
        ensures
            final(self).wf(),
            (r, final(self).routes_view()) == add_route_of(old(self).routes_view(), msg_type, ntf_id),
            final(self).pid_view() == old(self).pid_view(),
            final(self).mailbox_view() == old(self).mailbox_view(),
    {
        match self.routes.push((msg_type, ntf_id)) {
            Ok(h) => {
                // The handle is given up so that the route stays until `pop_route`.
                let _ = h.into_id();
                Ok(())
            },
            Err(()) => Err(()),
        }
    }

    /// Target of the first route, in cell order, whose type is `msg_type` or the
    /// wildcard.
    pub fn get_ntf(&self, msg_type: u64) -> (r: Option<u64>)
        requires
            self.wf(),
        ensures
            r == lookup_of(self.routes_view(), msg_type),
    {
        let mut i: usize = 0;
        while i < ARRAY_LEN
            invariant
                self.routes.wf(),
                i <= ARRAY_LEN,
                self.routes@.len() == ARRAY_LEN,
                first_match_from(self.routes@, 0, msg_type) == first_match_from(
                    self.routes@,
                    i as int,
                    msg_type,
                ),
            decreases ARRAY_LEN - i,
        {
            if let Some(e) = self.routes.get(i) {
                let (ty, ntf) = *e;
                if ty == msg_type || ty == SENTINEL_ANY {
                    return Some(ntf);
                }
            }
            i = i + 1;
        }
        None
    }

    /// Removes the first route, in cell order, whose type is exactly `msg_type`, and
    /// returns its target.
    pub fn pop_route(&mut self, msg_type: u64) -> (r: Option<u64>)
        requires
            old(self).wf(),
        ensures
            final(self).wf(),
            (r, final(self).routes_view()) == pop_route_of(old(self).routes_view(), msg_type),
            final(self).pid_view() == old(self).pid_view(),
            final(self).mailbox_view() == old(self).mailbox_view(),
    {
        let mut i: usize = 0;
        while i < ARRAY_LEN
            invariant
                *self == *old(self),
                self.wf(),
                i <= ARRAY_LEN,
                self.routes@.len() == ARRAY_LEN,
                first_exact_from(self.routes@, 0, msg_type) == first_exact_from(
                    self.routes@,
                    i as int,
                    msg_type,
                ),
            decreases ARRAY_LEN - i,
        {
            if let Some(e) = self.routes.get(i) {
                let (ty, ntf) = *e;
                if ty == msg_type {
                    // The route's only handle was given up by `add_route`: take it back
                    // and release it, which destroys the route in place.
                    let h = SlotRef::from_id(i);
                    h.release(&mut self.routes);
                    return Some(ntf);
                }
            }
            i = i + 1;
        }
        None
    }
}

/// The first route answering `q` is at `i` when no route before `i` answers it and
/// the one at `i` does.
proof fn lemma_first_match_is(s: Seq<RouteCell>, q: u64, k: int, i: int)
    requires
        0 <= k <= i < s.len(),
        route_matches(s[i], q),
        forall|j: int| k <= j < i ==> !route_matches(#[trigger] s[j], q),
    ensures
        first_match_from(s, k, q) == i,
    decreases i - k,
{
    if k < i {
        lemma_first_match_is(s, q, k + 1, i);
    }
}

/// The first route for exactly `q` is at `i` when no route before `i` is for `q` and
/// the one at `i` is.
proof fn lemma_first_exact_is(s: Seq<RouteCell>, q: u64, k: int, i: int)
    requires
        0 <= k <= i < s.len(),
        route_exact(s[i], q),
        forall|j: int| k <= j < i ==> !route_exact(#[trigger] s[j], q),
    ensures
        first_exact_from(s, k, q) == i,
    decreases i - k,
{
    if k < i {
        lemma_first_exact_is(s, q, k + 1, i);
    }
}

/// Adding a route for a type that has none yet and then removing the route for that
/// type gives back the target just added and the table as it was before the add.
pub proof fn lemma_add_then_pop(s: Seq<RouteCell>, q: u64, ntf: u64)
    requires
        forall|i: int| 0 <= i < s.len() ==> !route_exact(#[trigger] s[i], q),
        add_route_of(s, q, ntf).0 is Ok,
    ensures
        pop_route_of(add_route_of(s, q, ntf).1, q) == (Some(ntf), s),
{
    lemma_first_free_props(s);
    let i = first_free(s);
    let t = add_route_of(s, q, ntf).1;
    assert(t == s.update(i, Some(((q, ntf), 1nat))));
    lemma_first_exact_is(t, q, 0, i);
    assert(t.update(i, None) =~= s);
}

/// With a wildcard route at `w` and no other route answering `q`, a lookup of `q`
/// finds the wildcard's target.
pub proof fn lemma_wildcard_only(s: Seq<RouteCell>, q: u64, w: int)
    requires
        0 <= w < s.len(),
        s[w] is Some,
        route_type(s[w]) == SENTINEL_ANY,
        forall|i: int| 0 <= i < s.len() && i != w ==> !route_matches(#[trigger] s[i], q),
    ensures
        lookup_of(s, q) == Some(route_ntf(s[w])),
{
    lemma_first_match_is(s, q, 0, w);
}

/// With a wildcard route at `w`, a route for exactly `q` at `e`, and no other route
/// answering `q`, a lookup of `q` finds the target of whichever lies in the lower cell.
pub proof fn lemma_wildcard_and_specific(s: Seq<RouteCell>, q: u64, w: int, e: int)
    requires
        0 <= w < s.len(),
        0 <= e < s.len(),
        w != e,
        s[w] is Some,
        route_type(s[w]) == SENTINEL_ANY,
        route_exact(s[e], q),
        forall|i: int| 0 <= i < s.len() && i != w && i != e ==> !route_matches(#[trigger] s[i], q),
    ensures
        lookup_of(s, q) == Some(
            if w < e {
                route_ntf(s[w])
            } else {
                route_ntf(s[e])
            },
        ),
{
    if w < e {
        lemma_first_match_is(s, q, 0, w);
    } else {
        lemma_first_match_is(s, q, 0, e);
    }
}

} // verus!
