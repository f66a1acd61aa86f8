use vstd::prelude::*;

use crate::ARRAY_LEN;

verus! {

/// The cell holds no value.
pub const SLOT_EMPTY: u8 = 0;

/// The cell holds a live value with at least one handle on it.
pub const SLOT_READY: u8 = 1;

/// The cell is owned by one party while its value is built or destroyed.
pub const SLOT_PENDING: u8 = 2;

/// One cell of a `SlotArray`: state byte, reference count and storage.
struct Slot<T> {
    state: u8,
    rc: u8,
    value: Option<T>,
}

impl<T> Slot<T> {
    fn new() -> (r: Self)
        ensures
            r.state == SLOT_EMPTY,
            r.rc == 0,
            r.value is None,
    {
        Slot { state: SLOT_EMPTY, rc: 0, value: None }
    }
}

/// A fixed pool of `N` cells, each empty or holding one value with a reference count.
#[verifier::reject_recursive_types(T)]
pub struct SlotArray<T, const N: usize> {
    slots: Vec<Slot<T>>,
}

/// A handle on a cell of a `SlotArray`; it accounts for one unit of the cell's count.
///
/// A handle is shared with `share`, given up with `release`, and may be turned into
/// its bare index with `into_id` and back with `from_id`.
#[derive(Debug)]
pub struct SlotRef {
    index: usize,
}

/// The value held in a live cell.
pub open spec fn value_in<T>(e: Option<(T, nat)>) -> T {
    e.unwrap().0
}

/// The reference count of a live cell.
pub open spec fn count_in<T>(e: Option<(T, nat)>) -> nat {
    e.unwrap().1
}

/// Contents after one more handle is taken on the live cell `i`.
pub open spec fn share_of<T>(s: Seq<Option<(T, nat)>>, i: int) -> Seq<Option<(T, nat)>> {
    s.update(i, Some((value_in(s[i]), count_in(s[i]) + 1)))
}

/// Contents after a handle on the live cell `i` is given up: the cell is emptied when
/// that was the last handle.
pub open spec fn release_of<T>(s: Seq<Option<(T, nat)>>, i: int) -> Seq<Option<(T, nat)>> {
    if count_in(s[i]) == 1 {
        s.update(i, None)
    } else {
        s.update(i, Some((value_in(s[i]), (count_in(s[i]) - 1) as nat)))
    }
}

/// Lowest empty cell of `s` at or after `k`, or `s.len()` when there is none.
pub open spec fn first_free_from<T>(s: Seq<Option<(T, nat)>>, k: int) -> int
    decreases s.len() - k,
{
    if k >= s.len() || k < 0 {
        s.len() as int
    } else if s[k] is None {
        k
    } else {
        first_free_from(s, k + 1)
    }
}

/// Lowest empty cell of `s`, or `s.len()` when every cell is live.
pub open spec fn first_free<T>(s: Seq<Option<(T, nat)>>) -> int {
    first_free_from(s, 0)
}

/// Result and contents after storing `v` in the lowest empty cell of `s`: the index
/// of that cell, or `Err(())` when every cell is live.
pub open spec fn push_of<T>(s: Seq<Option<(T, nat)>>, v: T) -> (Result<int, ()>, Seq<Option<(T, nat)>>) {
    let i = first_free(s);
    if i < s.len() {
        (Ok(i), s.update(i, Some((v, 1nat))))
    } else {
        (Err(()), s)
    }
}

/// The handle whose bare index is `id`.
pub closed spec fn ref_of(id: usize) -> SlotRef {
    SlotRef { index: id }
}

/// The bare index of a handle.
pub closed spec fn id_of(r: SlotRef) -> usize {
    r.index
}

impl SlotRef {
    /// Index of the cell this handle refers to.
    pub open spec fn id(self) -> int {
        id_of(self) as int
    }

    /// Gives up the handle without touching the count, and returns its index.
    pub fn into_id(self) -> (r: usize)
        ensures
            r == id_of(self),
            r == self.id(),
    {
        self.index
    }

    /// Rebuilds the handle that `into_id` gave up, without touching the count.
    ///
    /// An id is an index into an array of at most `ARRAY_LEN` cells.
    pub fn from_id(id: usize) -> (r: SlotRef)
        requires
            id < ARRAY_LEN,
        ensures
            r == ref_of(id),
            r.id() == id,
    {
        SlotRef { index: id }
    }

    /// The value held in the cell of this handle.
    pub fn get<'a, T, const N: usize>(&self, array: &'a SlotArray<T, N>) -> (r: &'a T)
        requires
            array.wf(),
            array.is_live(self.id()),
        ensures
            *r == value_in(array@[self.id()]),
    {
        array.get(self.index).unwrap()
    }
}

impl<T, const N: usize> SlotArray<T, N> {
    /// Each cell: `None` when empty, else its value and its reference count.
    pub closed spec fn view(self) -> Seq<Option<(T, nat)>> {
        Seq::new(
            N as nat,
            |i: int|
                match self.slots@[i].value {
                    Some(v) => Some((v, self.slots@[i].rc as nat)),
                    None => None,
                },
        )
    }

    /// State byte of cell `i`.
    pub closed spec fn state_of(self, i: int) -> u8 {
        self.slots@[i].state
    }

    /// Reference count of cell `i`.
    pub closed spec fn rc_of(self, i: int) -> nat {
        self.slots@[i].rc as nat
    }

    /// Whether `i` is a cell of the array that holds a live value.
    pub open spec fn is_live(self, i: int) -> bool {
        0 <= i < N && self@[i] is Some
    }

    /// Cells at rest: EMPTY with a zero count and no value, or READY with a positive
    /// count and a value. PENDING only lasts within one operation.
    pub closed spec fn wf(self) -> bool {
        &&& self.slots@.len() == N
        &&& forall|i: int|
            0 <= i < N ==> {
                let s = #[trigger] self.slots@[i];
                (s.state == SLOT_EMPTY && s.rc == 0 && s.value is None) || (s.state == SLOT_READY
                    && s.rc >= 1 && s.value is Some)
            }
    }

    /// An array of `N` empty cells.
    pub fn new() -> (r: Self)
        ensures
            r.wf(),
            r@ == Seq::new(N as nat, |i: int| None::<(T, nat)>),
    {
        let mut slots: Vec<Slot<T>> = Vec::new();
        let mut i: usize = 0;
        while i < N
            invariant
                i <= N,
                slots@.len() == i,
                forall|j: int|
                    0 <= j < i ==> (#[trigger] slots@[j]).state == SLOT_EMPTY && slots@[j].rc == 0
                        && slots@[j].value is None,
            decreases N - i,
        {
            slots.push(Slot::new());
            i = i + 1;
        }
        let r = SlotArray { slots };
        assert(r@ =~= Seq::new(N as nat, |i: int| None::<(T, nat)>));
        r
    }

    /// Stores `value` in the lowest empty cell and returns the index of that cell.
    fn push_(&mut self, value: T) -> (r: Result<usize, ()>)
        requires
            old(self).wf(),
        ensures
            final(self).wf(),
            match r {
                Ok(i) => {
                    &&& i < N
                    &&& old(self)@[i as int] is None
                    &&& forall|j: int| 0 <= j < i ==> old(self)@[j] is Some
                    &&& final(self)@ == old(self)@.update(i as int, Some((value, 1nat)))
                },
                Err(()) => {
                    &&& forall|j: int| 0 <= j < N ==> old(self)@[j] is Some
                    &&& *final(self) == *old(self)
                },
            },
    {
        let mut i: usize = 0;
        while i < N
            invariant
                i <= N,
                *self == *old(self),
                self.wf(),
                forall|j: int| 0 <= j < i ==> old(self)@[j] is Some,
            decreases N - i,
        {
            proof {
                assert(self.slots@[i as int] == old(self).slots@[i as int]);
            }
            // Claim the cell: EMPTY -> PENDING.
            if self.slots[i].state == SLOT_EMPTY {
                self.slots[i].state = SLOT_PENDING;
                // Build the value in place, then publish it: PENDING -> READY.
                self.slots[i].value = Some(value);
                self.slots[i].state = SLOT_READY;
                // The new handle is the first one: the count goes from 0 to 1.
                self.slots[i].rc = self.slots[i].rc + 1;
                proof {
                    assert(self@ =~= old(self)@.update(i as int, Some((value, 1nat))));
                }
                return Ok(i);
            }
            i = i + 1;
        }
        Err(())
    }

    /// The value in cell `index`, if that cell is READY.
    pub fn get(&self, index: usize) -> (r: Option<&T>)
        requires
            self.wf(),
            index < N,
        ensures
            match self@[index as int] {
                Some(e) => r == Some(&e.0),
                None => r is None,
            },
    {
        if self.slots[index].state == SLOT_READY {
            match &self.slots[index].value {
                Some(v) => Some(v),
                None => None,
            }
        } else {
            None
        }
    }

    /// Destroys the value of cell `index`, owned through PENDING with a zero count,
    /// and leaves the cell EMPTY.
    fn delete(&mut self, index: usize)
        requires
            index < N,
            old(self).slots@.len() == N,
            old(self).slots@[index as int].state == SLOT_PENDING,
            old(self).slots@[index as int].rc == 0,
        ensures
            final(self).slots@ == old(self).slots@.update(index as int, Slot::<T> { state: SLOT_EMPTY, rc: 0, value: None }),
    {
        self.slots[index].state = SLOT_EMPTY;
        self.slots[index].value = None;
    }

    /// Stores `value` in the lowest empty cell and returns the first handle on it,
    /// or `Err(())` when every cell is taken.
    pub fn push(&mut self, value: T) -> (r: Result<SlotRef, ()>)
        requires
            old(self).wf(),
        ensures
            final(self).wf(),
            (match r {
                Ok(h) => Ok(h.id()),
                Err(()) => Err(()),
            }, final(self)@) == push_of(old(self)@, value),
            match r {
                Ok(h) => {
                    &&& 0 <= h.id() < N
                    &&& old(self)@[h.id()] is None
                    &&& forall|j: int| 0 <= j < h.id() ==> old(self)@[j] is Some
                    &&& final(self)@ == old(self)@.update(h.id(), Some((value, 1nat)))
                },
                Err(()) => {
                    &&& forall|j: int| 0 <= j < N ==> old(self)@[j] is Some
                    &&& first_free(old(self)@) == N
                    &&& *final(self) == *old(self)
                },
            },
    {
        let res = self.push_(value);
        if res.is_err() {
            proof {
                lemma_first_free_is(old(self)@, N as int);
            }
            return Err(());
        }
        let index = res.unwrap();
        proof {
            lemma_first_free_is(old(self)@, index as int);
        }
        Ok(SlotRef { index })
    }
}

/// A view has one entry per cell.
pub broadcast proof fn lemma_view_len<T, const N: usize>(a: SlotArray<T, N>)
    ensures
        #[trigger] a@.len() == N,
{
}

/// The lowest empty cell lies in `[0, s.len()]`; when it is a cell, that cell is
/// empty and every cell before it is live.
pub proof fn lemma_first_free_props<T>(s: Seq<Option<(T, nat)>>)
    ensures
        0 <= first_free(s) <= s.len(),
        first_free(s) < s.len() ==> s[first_free(s)] is None,
        forall|j: int| 0 <= j < first_free(s) ==> s[j] is Some,
{
    lemma_first_free_from_props(s, 0);
}

proof fn lemma_first_free_from_props<T>(s: Seq<Option<(T, nat)>>, k: int)
    requires
        0 <= k <= s.len(),
    ensures
        k <= first_free_from(s, k) <= s.len(),
        first_free_from(s, k) < s.len() ==> s[first_free_from(s, k)] is None,
        forall|j: int| k <= j < first_free_from(s, k) ==> s[j] is Some,
    decreases s.len() - k,
{
    if k < s.len() && s[k] is Some {
        lemma_first_free_from_props(s, k + 1);
    }
}

/// The lowest empty cell is `i` when every cell before it is live and `i` is empty
/// or past the end.
proof fn lemma_first_free_is<T>(s: Seq<Option<(T, nat)>>, i: int)
    requires
        0 <= i <= s.len(),
        i < s.len() ==> s[i] is None,
        forall|j: int| 0 <= j < i ==> s[j] is Some,
    ensures
        first_free(s) == i,
{
    lemma_first_free_from(s, 0, i);
}

proof fn lemma_first_free_from<T>(s: Seq<Option<(T, nat)>>, k: int, i: int)
    requires
        0 <= k <= i <= s.len(),
        i < s.len() ==> s[i] is None,
        forall|j: int| k <= j < i ==> s[j] is Some,
    ensures
        first_free_from(s, k) == i,
    decreases i - k,
{
    if k < i {
        lemma_first_free_from(s, k + 1, i);
    }
}

impl<T, const N: usize> Default for SlotArray<T, N> {
    /// An array of `N` empty cells, as `new`.
    fn default() -> (r: Self)
        ensures
            r.wf(),
            r@ == Seq::new(N as nat, |i: int| None::<(T, nat)>),
    {
        Self::new()
    }
}

impl SlotRef {
    /// Mutable access to the value in the cell of this handle; the count is untouched.
    pub fn get_mut<'a, T, const N: usize>(&self, array: &'a mut SlotArray<T, N>) -> (r: &'a mut T)
        requires
            old(array).wf(),
            old(array).is_live(self.id()),
        ensures
            *r == value_in(old(array)@[self.id()]),
            final(array).wf(),
            final(array)@ == old(array)@.update(
                self.id(),
                Some((*final(r), count_in(old(array)@[self.id()]))),
            ),
    {
        let i = self.index;
        proof {
            assert(array.slots@[i as int].value is Some);
        }
        array.slots[i].value.as_mut().unwrap()
    }

    /// Takes one more handle on the same cell; its count goes up by one.
    pub fn share<T, const N: usize>(&self, array: &mut SlotArray<T, N>) -> (r: SlotRef)
        requires
            old(array).wf(),
            old(array).is_live(self.id()),
            count_in(old(array)@[self.id()]) < u8::MAX,
        ensures
            final(array).wf(),
            r == *self,
            final(array)@ == share_of(old(array)@, self.id()),
    {
        let i = self.index;
        proof {
            assert(array.slots@[i as int].value is Some);
        }
        array.slots[i].rc = array.slots[i].rc + 1;
        proof {
            assert(array@ =~= share_of(old(array)@, i as int));
        }
        SlotRef { index: i }
    }

    /// Gives up this handle; the last one to go destroys the value and empties the cell.
    pub fn release<T, const N: usize>(self, array: &mut SlotArray<T, N>)
        requires
            old(array).wf(),
            old(array).is_live(self.id()),
        ensures
            final(array).wf(),
            final(array)@ == release_of(old(array)@, self.id()),
            count_in(old(array)@[self.id()]) == 1 ==> final(array).state_of(self.id()) == SLOT_EMPTY
                && final(array).rc_of(self.id()) == 0,
    {
        let i = self.index;
        proof {
            assert(array.slots@[i as int].value is Some);
        }
        let prev_rc = array.slots[i].rc;
        array.slots[i].rc = prev_rc - 1;
        if prev_rc == 1 {
            // Last handle: hide the dying value (READY -> PENDING), then destroy it.
            array.slots[i].state = SLOT_PENDING;
            array.delete(i);
        }
        proof {
            assert(array@ =~= release_of(old(array)@, i as int));
        }
    }
}

impl<T, const N: usize> SlotArray<T, N> {
    /// The cell invariant at rest: a cell has a positive count exactly when it is
    /// READY and holds a value, and a zero count exactly when it is EMPTY; no cell is
    /// left PENDING. The count in the view is the cell's count.
    pub proof fn lemma_cell_invariant(self, i: int)
        requires
            self.wf(),
            0 <= i < N,
        ensures
            self.rc_of(i) > 0 <==> self.state_of(i) == SLOT_READY,
            self.rc_of(i) == 0 <==> self.state_of(i) == SLOT_EMPTY,
            self.state_of(i) != SLOT_PENDING,
            self@[i] is Some <==> self.rc_of(i) > 0,
            self@[i] is Some ==> count_in(self@[i]) == self.rc_of(i),
    {
        assert(self.slots@[i] == self.slots@[i]);
    }
}

/// Turning a handle into its id and the id back into a handle gives the same handle,
/// and so the same cell and value; neither step touches an array.
pub proof fn lemma_id_round_trip(r: SlotRef)
    ensures
        ref_of(id_of(r)) == r,
        ref_of(id_of(r)).id() == r.id(),
{
}

/// Sharing a handle and then releasing one leaves every count as it was.
pub proof fn lemma_share_release<T>(s: Seq<Option<(T, nat)>>, i: int)
    requires
        0 <= i < s.len(),
        s[i] is Some,
        count_in(s[i]) >= 1,
    ensures
        release_of(share_of(s, i), i) == s,
{
    assert(release_of(share_of(s, i), i) =~= s);
}

/// When every cell is live, a push is refused and nothing changes.
pub proof fn lemma_push_all_live<T>(s: Seq<Option<(T, nat)>>, v: T)
    requires
        forall|j: int| 0 <= j < s.len() ==> s[j] is Some,
    ensures
        push_of(s, v) == (Err::<int, ()>(()), s),
{
    lemma_first_free_is(s, s.len() as int);
}

} // verus!
