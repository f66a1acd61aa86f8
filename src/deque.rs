use vstd::multiset::Multiset;
use vstd::prelude::*;

verus! {

/// The cell holds no value and is free for a producer.
pub const SLOT_EMPTY: u8 = 0;

/// A producer owns the cell and is writing its value.
pub const SLOT_WRITING: u8 = 1;

/// The cell holds a published value.
pub const SLOT_READY: u8 = 2;

/// A consumer owns the cell and is reading its value out.
pub const SLOT_READING: u8 = 3;

/// One cell of the ring: its storage and its state byte.
struct Slot<T> {
    data: Option<T>,
    state: u8,
}

impl<T> Slot<T> {
    fn new() -> (r: Self)
        ensures
            r.data is None,
            r.state == SLOT_EMPTY,
    {
        Slot { data: None, state: SLOT_EMPTY }
    }
}

/// A cell reserved at one end of a deque by `push_slot_front` or `push_slot_back`.
///
/// The cell stays in the WRITING state, invisible to consumers, until the guard is
/// handed back to `LockFreeDeque::commit` together with the value to publish.
pub struct SlotGuard {
    index: usize,
}

impl SlotGuard {
    /// The cell of the ring that this guard owns.
    pub closed spec fn cell(self) -> int {
        self.index as int
    }
}

/// A bounded double-ended queue over a ring of `CAPACITY` cells.
///
/// `head` is the cell of the first element, `tail` the cell one past the last.
/// One cell always stays free, so at most `CAPACITY - 1` elements are held.
#[verifier::reject_recursive_types(T)]
pub struct LockFreeDeque<T, const CAPACITY: usize> {
    buffer: Vec<Slot<T>>,
    head: usize,
    tail: usize,
}

/// Cell of the ring at logical position `k` counted from `head`.
pub open spec fn ring_index(head: int, k: int, cap: int) -> int {
    if head + k < cap {
        head + k
    } else {
        head + k - cap
    }
}

/// Number of cells from `head` up to `tail`, going forward round the ring.
pub open spec fn ring_len(head: int, tail: int, cap: int) -> int {
    if tail >= head {
        tail - head
    } else {
        cap - head + tail
    }
}

/// The cell before `i` in a ring of `cap` cells.
pub open spec fn prev_index(i: int, cap: int) -> int {
    if i == 0 {
        cap - 1
    } else {
        i - 1
    }
}

/// The cell after `i` in a ring of `cap` cells.
pub open spec fn next_index(i: int, cap: int) -> int {
    if i + 1 == cap {
        0
    } else {
        i + 1
    }
}

/// Stepping round the ring is arithmetic modulo the number of cells.
pub proof fn lemma_ring_steps(i: int, cap: int)
    requires
        0 <= i < cap,
    ensures
        prev_index(i, cap) == (i + cap - 1) % cap,
        next_index(i, cap) == (i + 1) % cap,
{
    if i == 0 {
        assert((cap - 1) % cap == cap - 1) by (nonlinear_arith)
            requires
                cap > 0,
        ;
    } else {
        assert((i + cap - 1) % cap == i - 1) by (nonlinear_arith)
            requires
                0 < i < cap,
        ;
    }
    if i + 1 == cap {
        assert(cap % cap == 0) by (nonlinear_arith)
            requires
                cap > 0,
        ;
    } else {
        assert((i + 1) % cap == i + 1) by (nonlinear_arith)
            requires
                0 <= i + 1 < cap,
        ;
    }
}

/// Result and contents after pushing `v` at the front of contents `s` in a ring of
/// `cap` cells: the value comes back when `s` already fills `cap - 1` cells.
pub open spec fn push_front_of<T>(s: Seq<Option<T>>, cap: int, v: T) -> (Result<(), T>, Seq<Option<T>>) {
    if s.len() + 1 >= cap {
        (Err(v), s)
    } else {
        (Ok(()), seq![Some(v)] + s)
    }
}

/// Result and contents after pushing `v` at the back of contents `s` in a ring of
/// `cap` cells: the value comes back when `s` already fills `cap - 1` cells.
pub open spec fn push_back_of<T>(s: Seq<Option<T>>, cap: int, v: T) -> (Result<(), T>, Seq<Option<T>>) {
    if s.len() + 1 >= cap {
        (Err(v), s)
    } else {
        (Ok(()), s.push(Some(v)))
    }
}

/// Result and contents after popping the front of `s`: nothing when `s` is empty or
/// its front cell is still reserved.
pub open spec fn pop_front_of<T>(s: Seq<Option<T>>) -> (Option<T>, Seq<Option<T>>) {
    if s.len() == 0 || s[0] is None {
        (None, s)
    } else {
        (s[0], s.drop_first())
    }
}

/// Result and contents after popping the back of `s`: nothing when `s` is empty or
/// its back cell is still reserved.
pub open spec fn pop_back_of<T>(s: Seq<Option<T>>) -> (Option<T>, Seq<Option<T>>) {
    if s.len() == 0 || s.last() is None {
        (None, s)
    } else {
        (s.last(), s.drop_last())
    }
}

impl<T, const CAPACITY: usize> LockFreeDeque<T, CAPACITY> {
    /// Number of cells in the ring.
    pub open spec fn cap() -> int {
        CAPACITY as int
    }

    /// Cell of the first element.
    pub closed spec fn head_index(self) -> int {
        self.head as int
    }

    /// Cell one past the last element.
    pub closed spec fn tail_index(self) -> int {
        self.tail as int
    }

    /// State byte of cell `i`.
    pub closed spec fn state_of(self, i: int) -> u8 {
        self.buffer@[i].state
    }

    /// Number of occupied cells (published or reserved).
    pub open spec fn spec_len(self) -> int {
        ring_len(self.head_index(), self.tail_index(), Self::cap())
    }

    /// The occupied cells from front to back: `Some(v)` for a published value,
    /// `None` for a cell reserved by a guard and not yet committed.
    pub closed spec fn view(self) -> Seq<Option<T>> {
        Seq::new(
            self.spec_len() as nat,
            |k: int| self.buffer@[ring_index(self.head as int, k, CAPACITY as int)].data,
        )
    }

    /// The per-cell state machine at rest: cells in `[head, tail)` are READY with a
    /// value, or WRITING (reserved by a guard) with none; all others are EMPTY.
    pub closed spec fn wf(self) -> bool {
        &&& CAPACITY >= 1
        &&& self.buffer@.len() == CAPACITY
        &&& self.head < CAPACITY
        &&& self.tail < CAPACITY
        &&& forall|k: int|
            0 <= k < CAPACITY ==> {
                let s = #[trigger] self.buffer@[ring_index(self.head as int, k, CAPACITY as int)];
                if k < self.spec_len() {
                    (s.state == SLOT_READY && s.data is Some) || (s.state == SLOT_WRITING
                        && s.data is None)
                } else {
                    s.state == SLOT_EMPTY && s.data is None
                }
            }
    }

    /// Creates an empty deque: every cell EMPTY, `head == tail == 0`.
    pub fn new() -> (r: Self)
        requires
            CAPACITY >= 1,
        ensures
            r.wf(),
            r@.len() == 0,
            r.head_index() == 0,
            r.tail_index() == 0,
    {
        let mut buffer: Vec<Slot<T>> = Vec::new();
        let mut i: usize = 0;
        while i < CAPACITY
            invariant
                i <= CAPACITY,
                buffer@.len() == i,
                forall|j: int| 0 <= j < i ==> buffer@[j].state == SLOT_EMPTY && (
                #[trigger] buffer@[j]).data is None,
            decreases CAPACITY - i,
        {
            buffer.push(Slot::new());
            i = i + 1;
        }
        let r = LockFreeDeque { buffer, head: 0, tail: 0 };
        assert(r@ =~= Seq::empty());
        r
    }

    /// Position, counted from the front, of the cell `i` of the ring.
    pub open spec fn position_of(self, i: int) -> int {
        ring_len(self.head_index(), i, Self::cap())
    }

    /// Pushes `item` at the front.
    ///
    /// The deque is full when it holds `CAPACITY - 1` cells; then the item is handed
    /// back untouched and nothing changes.
    pub fn push_front(&mut self, item: T) -> (r: Result<(), T>)
        requires
            old(self).wf(),
        ensures
            final(self).wf(),
            (r, final(self)@) == push_front_of(old(self)@, CAPACITY as int, item),
            r is Err ==> *final(self) == *old(self),
            r is Ok ==> final(self).head_index() == prev_index(old(self).head_index(), Self::cap())
                && final(self).state_of(final(self).head_index()) == SLOT_READY,
            final(self).tail_index() == old(self).tail_index(),
    {
        let head = self.head;
        let tail = self.tail;
        let new_head = if head == 0 {
            CAPACITY - 1
        } else {
            head - 1
        };
        if new_head == tail {
            return Err(item);
        }
        // Claim the cell before `head`: EMPTY -> WRITING.
        self.buffer[new_head].state = SLOT_WRITING;
        // Reserve it by moving `head` backward.
        self.head = new_head;
        // Write the value, then publish it: WRITING -> READY.
        self.buffer[new_head].data = Some(item);
        self.buffer[new_head].state = SLOT_READY;
        proof {
            assert forall|k: int| 0 <= k < CAPACITY implies #[trigger] ring_index(
                new_head as int,
                k,
                CAPACITY as int,
            ) == if k == 0 {
                new_head as int
            } else {
                ring_index(head as int, k - 1, CAPACITY as int)
            } by {}
            assert(self@ =~= seq![Some(item)] + old(self)@);
        }
        Ok(())
    }

    /// Pushes `item` at the back.
    ///
    /// The deque is full when it holds `CAPACITY - 1` cells; then the item is handed
    /// back untouched and nothing changes.
    pub fn push_back(&mut self, item: T) -> (r: Result<(), T>)
        requires
            old(self).wf(),
        ensures
            final(self).wf(),
            (r, final(self)@) == push_back_of(old(self)@, CAPACITY as int, item),
            r is Err ==> *final(self) == *old(self),
            r is Ok ==> final(self).tail_index() == next_index(old(self).tail_index(), Self::cap())
                && final(self).state_of(old(self).tail_index()) == SLOT_READY,
            final(self).head_index() == old(self).head_index(),
    {
        let tail = self.tail;
        let head = self.head;
        let new_tail = if tail + 1 == CAPACITY {
            0
        } else {
            tail + 1
        };
        if new_tail == head {
            return Err(item);
        }
        // Claim the cell at `tail`: EMPTY -> WRITING.
        self.buffer[tail].state = SLOT_WRITING;
        // Reserve it by moving `tail` forward.
        self.tail = new_tail;
        // Write the value, then publish it: WRITING -> READY.
        self.buffer[tail].data = Some(item);
        self.buffer[tail].state = SLOT_READY;
        proof {
            assert(self@ =~= old(self)@.push(Some(item)));
        }
        Ok(())
    }

    /// Reserves the cell before the front and hands back a guard that owns it.
    ///
    /// The cell stays WRITING, and so invisible to consumers, until `commit`.
    pub fn push_slot_front(&mut self) -> (r: Result<SlotGuard, ()>)
        requires
            old(self).wf(),
        ensures
            final(self).wf(),
            old(self)@.len() + 1 == CAPACITY <==> r is Err,
            r is Err ==> *final(self) == *old(self),
            r matches Ok(g) ==> {
                &&& final(self)@ == seq![None] + old(self)@
                &&& 0 <= g.cell() < CAPACITY
                &&& g.cell() == final(self).head_index()
                &&& final(self).head_index() == prev_index(old(self).head_index(), Self::cap())
                &&& final(self).position_of(g.cell()) == 0
                &&& final(self).state_of(g.cell()) == SLOT_WRITING
            },
            final(self).tail_index() == old(self).tail_index(),
    {
        let head = self.head;
        let tail = self.tail;
        let new_head = if head == 0 {
            CAPACITY - 1
        } else {
            head - 1
        };
        if new_head == tail {
            return Err(());
        }
        proof {
            let last = ring_index(head as int, CAPACITY - 1, CAPACITY as int);
            assert(last == new_head);
            assert(self.buffer@[last].data is None);
        }
        // Claim the cell before `head`: EMPTY -> WRITING.
        self.buffer[new_head].state = SLOT_WRITING;
        // Reserve it by moving `head` backward; the guard now owns the cell.
        self.head = new_head;
        proof {
            assert forall|k: int| 0 <= k < CAPACITY implies #[trigger] ring_index(
                new_head as int,
                k,
                CAPACITY as int,
            ) == if k == 0 {
                new_head as int
            } else {
                ring_index(head as int, k - 1, CAPACITY as int)
            } by {}
            assert(self@ =~= seq![None] + old(self)@);
        }
        Ok(SlotGuard { index: new_head })
    }

    /// Reserves the cell at the back and hands back a guard that owns it.
    ///
    /// The cell stays WRITING, and so invisible to consumers, until `commit`.
    pub fn push_slot_back(&mut self) -> (r: Result<SlotGuard, ()>)
        requires
            old(self).wf(),
        ensures
            final(self).wf(),
            old(self)@.len() + 1 == CAPACITY <==> r is Err,
            r is Err ==> *final(self) == *old(self),
            r matches Ok(g) ==> {
                &&& final(self)@ == old(self)@.push(None)
                &&& 0 <= g.cell() < CAPACITY
                &&& g.cell() == old(self).tail_index()
                &&& final(self).tail_index() == next_index(old(self).tail_index(), Self::cap())
                &&& final(self).position_of(g.cell()) == old(self)@.len()
                &&& final(self).state_of(g.cell()) == SLOT_WRITING
            },
            final(self).head_index() == old(self).head_index(),
    {
        let tail = self.tail;
        let head = self.head;
        let new_tail = if tail + 1 == CAPACITY {
            0
        } else {
            tail + 1
        };
        if new_tail == head {
            return Err(());
        }
        // Claim the cell at `tail`: EMPTY -> WRITING.
        self.buffer[tail].state = SLOT_WRITING;
        // Reserve it by moving `tail` forward; the guard now owns the cell.
        self.tail = new_tail;
        proof {
            assert(self@ =~= old(self)@.push(None));
        }
        Ok(SlotGuard { index: tail })
    }

    /// Releases a guard: writes `item` into its cell and publishes it (WRITING -> READY).
    pub fn commit(&mut self, guard: SlotGuard, item: T)
        requires
            old(self).wf(),
            0 <= guard.cell() < CAPACITY,
            old(self).state_of(guard.cell()) == SLOT_WRITING,
        ensures
            final(self).wf(),
            0 <= old(self).position_of(guard.cell()) < old(self)@.len(),
            old(self)@[old(self).position_of(guard.cell())] is None,
            final(self)@ == old(self)@.update(old(self).position_of(guard.cell()), Some(item)),
            final(self).head_index() == old(self).head_index(),
            final(self).tail_index() == old(self).tail_index(),
            final(self).state_of(guard.cell()) == SLOT_READY,
    {
        let i = guard.index;
        proof {
            let k = ring_len(self.head as int, i as int, CAPACITY as int);
            assert(ring_index(self.head as int, k, CAPACITY as int) == i);
            assert(self.buffer@[ring_index(self.head as int, k, CAPACITY as int)].state
                == SLOT_WRITING);
        }
        self.buffer[i].data = Some(item);
        self.buffer[i].state = SLOT_READY;
        proof {
            let k = ring_len(old(self).head as int, i as int, CAPACITY as int);
            assert(self@ =~= old(self)@.update(k, Some(item)));
        }
    }

    /// Removes and returns the value at the front.
    ///
    /// Returns `None`, changing nothing, when the deque is empty or when its front
    /// cell is reserved by a guard that has not been committed yet.
    pub fn pop_front(&mut self) -> (r: Option<T>)
        requires
            old(self).wf(),
        ensures
            final(self).wf(),
            (r, final(self)@) == pop_front_of(old(self)@),
            r is None ==> *final(self) == *old(self),
            r is Some ==> final(self).head_index() == next_index(old(self).head_index(), Self::cap())
                && final(self).state_of(old(self).head_index()) == SLOT_EMPTY,
            final(self).tail_index() == old(self).tail_index(),
    {
        let head = self.head;
        let tail = self.tail;
        if head == tail {
            return None;
        }
        proof {
            assert(self.buffer@[ring_index(head as int, 0, CAPACITY as int)] == self.buffer@[head as int]);
        }
        // Claim the cell at `head`: READY -> READING. A WRITING cell is not published yet.
        if self.buffer[head].state != SLOT_READY {
            return None;
        }
        self.buffer[head].state = SLOT_READING;
        // Release the cell from the logical range by moving `head` forward.
        let new_head = if head + 1 == CAPACITY {
            0
        } else {
            head + 1
        };
        self.head = new_head;
        // Read the value out, then free the cell: READING -> EMPTY.
        let item = self.buffer[head].data.take();
        self.buffer[head].state = SLOT_EMPTY;
        proof {
            assert forall|k: int| 0 <= k < CAPACITY implies #[trigger] ring_index(
                new_head as int,
                k,
                CAPACITY as int,
            ) == if k == CAPACITY - 1 {
                head as int
            } else {
                ring_index(head as int, k + 1, CAPACITY as int)
            } by {}
            assert(self@ =~= old(self)@.drop_first());
        }
        item
    }

    /// Removes and returns the value at the back.
    ///
    /// Returns `None`, changing nothing, when the deque is empty or when its back
    /// cell is reserved by a guard that has not been committed yet.
    pub fn pop_back(&mut self) -> (r: Option<T>)
        requires
            old(self).wf(),
        ensures
            final(self).wf(),
            (r, final(self)@) == pop_back_of(old(self)@),
            r is None ==> *final(self) == *old(self),
            r is Some ==> final(self).tail_index() == prev_index(old(self).tail_index(), Self::cap())
                && final(self).state_of(final(self).tail_index()) == SLOT_EMPTY,
            final(self).head_index() == old(self).head_index(),
    {
        let tail = self.tail;
        let head = self.head;
        if head == tail {
            return None;
        }
        let last_pos = if tail == 0 {
            CAPACITY - 1
        } else {
            tail - 1
        };
        proof {
            let n = self.spec_len() - 1;
            assert(ring_index(head as int, n, CAPACITY as int) == last_pos);
            assert(self.buffer@[ring_index(head as int, n, CAPACITY as int)] == self.buffer@[last_pos as int]);
        }
        // Claim the cell before `tail`: READY -> READING. A WRITING cell is not published yet.
        if self.buffer[last_pos].state != SLOT_READY {
            return None;
        }
        self.buffer[last_pos].state = SLOT_READING;
        // Release the cell from the logical range by moving `tail` backward.
        self.tail = last_pos;
        // Read the value out, then free the cell: READING -> EMPTY.
        let item = self.buffer[last_pos].data.take();
        self.buffer[last_pos].state = SLOT_EMPTY;
        proof {
            assert(self@ =~= old(self)@.drop_last());
        }
        item
    }

    /// Number of occupied cells, reserved ones included.
    pub fn len(&self) -> (r: usize)
        requires
            self.wf(),
        ensures
            r == self@.len(),
    {
        let head = self.head;
        let tail = self.tail;
        if tail >= head {
            tail - head
        } else {
            CAPACITY - head + tail
        }
    }

    /// Whether no cell is occupied (`head == tail`).
    pub fn is_empty(&self) -> (r: bool)
        requires
            self.wf(),
        ensures
            r == (self@.len() == 0),
    {
        self.head == self.tail
    }

    /// Number of cells in the ring; at most `CAPACITY - 1` of them hold values.
    pub fn capacity(&self) -> (r: usize)
        ensures
            r == CAPACITY,
    {
        CAPACITY
    }
}

/// Number of `i` in `[lo, hi)` for which `f(i)` holds.
pub open spec fn count_where(f: spec_fn(int) -> bool, lo: int, hi: int) -> nat
    decreases hi - lo,
{
    if hi <= lo {
        0
    } else {
        count_where(f, lo, hi - 1) + if f(hi - 1) {
            1nat
        } else {
            0nat
        }
    }
}

proof fn lemma_count_split(f: spec_fn(int) -> bool, lo: int, mid: int, hi: int)
    requires
        lo <= mid <= hi,
    ensures
        count_where(f, lo, hi) == count_where(f, lo, mid) + count_where(f, mid, hi),
    decreases hi - mid,
{
    if mid < hi {
        lemma_count_split(f, lo, mid, hi - 1);
    }
}

proof fn lemma_count_all(f: spec_fn(int) -> bool, lo: int, hi: int)
    requires
        lo <= hi,
        forall|i: int| lo <= i < hi ==> #[trigger] f(i),
    ensures
        count_where(f, lo, hi) == hi - lo,
    decreases hi - lo,
{
    if lo < hi {
        lemma_count_all(f, lo, hi - 1);
    }
}

proof fn lemma_count_none(f: spec_fn(int) -> bool, lo: int, hi: int)
    requires
        forall|i: int| lo <= i < hi ==> !#[trigger] f(i),
    ensures
        count_where(f, lo, hi) == 0,
    decreases hi - lo,
{
    if lo < hi {
        lemma_count_none(f, lo, hi - 1);
    }
}

impl<T, const CAPACITY: usize> LockFreeDeque<T, CAPACITY> {
    /// Number of cells of the ring that are not EMPTY.
    pub open spec fn occupied_count(self) -> nat {
        count_where(|i: int| self.state_of(i) != SLOT_EMPTY, 0, CAPACITY as int)
    }

    /// Number of cells of the ring that are READY.
    pub open spec fn ready_count(self) -> nat {
        count_where(|i: int| self.state_of(i) == SLOT_READY, 0, CAPACITY as int)
    }

    /// Whether some cell is reserved by a guard that has not been committed.
    pub open spec fn has_reserved(self) -> bool {
        exists|i: int| 0 <= i < CAPACITY && self.state_of(i) == SLOT_WRITING
    }

    /// The cells of `[head, tail)` follow the contents: the cell at position `k` is
    /// READY exactly when `self@[k]` holds a value, and WRITING exactly when it is a
    /// reserved `None`. A guard is outstanding exactly when the contents hold a `None`.
    pub proof fn lemma_cells_match_view(self)
        requires
            self.wf(),
        ensures
            forall|k: int|
                0 <= k < self@.len() ==> (self.state_of(
                    ring_index(self.head_index(), k, Self::cap()),
                ) == SLOT_READY <==> #[trigger] self@[k] is Some),
            forall|k: int|
                0 <= k < self@.len() ==> (self.state_of(
                    ring_index(self.head_index(), k, Self::cap()),
                ) == SLOT_WRITING <==> #[trigger] self@[k] is None),
            self.has_reserved() <==> exists|k: int| 0 <= k < self@.len() && #[trigger] self@[k] is None,
    {
        let c = CAPACITY as int;
        let h = self.head as int;
        let n = self.spec_len();
        assert forall|k: int| 0 <= k < self@.len() implies (self.state_of(ring_index(h, k, c))
            == SLOT_READY <==> #[trigger] self@[k] is Some) && (self.state_of(ring_index(h, k, c))
            == SLOT_WRITING <==> self@[k] is None) by {
            assert(self.buffer@[ring_index(h, k, c)] == self.buffer@[ring_index(h, k, c)]);
        }
        if self.has_reserved() {
            let i = choose|i: int| 0 <= i < c && self.state_of(i) == SLOT_WRITING;
            let k = self.position_of(i);
            assert(ring_index(h, k, c) == i);
            assert(self.buffer@[ring_index(h, k, c)] == self.buffer@[i]);
            assert(self@[k] is None);
        }
        if exists|k: int| 0 <= k < self@.len() && #[trigger] self@[k] is None {
            let k = choose|k: int| 0 <= k < self@.len() && #[trigger] self@[k] is None;
            assert(self.buffer@[ring_index(h, k, c)] == self.buffer@[ring_index(h, k, c)]);
            assert(self.state_of(ring_index(h, k, c)) == SLOT_WRITING);
        }
    }

    /// The ring invariant of a deque at rest: `head` and `tail` lie in `[0, CAPACITY)`;
    /// the cells outside `[head, tail)` are EMPTY; the cells inside number
    /// `(tail - head) mod CAPACITY`, and are all READY when no guard is outstanding.
    pub proof fn lemma_ring_invariant(self)
        requires
            self.wf(),
        ensures
            0 <= self.head_index() < CAPACITY,
            0 <= self.tail_index() < CAPACITY,
            self.spec_len() == (self.tail_index() - self.head_index()) % (CAPACITY as int),
            self@.len() == self.spec_len(),
            forall|i: int|
                0 <= i < CAPACITY && self.position_of(i) >= self.spec_len() ==> #[trigger] self.state_of(i)
                    == SLOT_EMPTY,
            self.occupied_count() == self.spec_len(),
            !self.has_reserved() ==> self.ready_count() == self.spec_len(),
            (forall|k: int| 0 <= k < self@.len() ==> #[trigger] self@[k] is Some) ==> self.ready_count()
                == self.spec_len(),
    {
        self.lemma_cells_match_view();
        let c = CAPACITY as int;
        let h = self.head as int;
        let t = self.tail as int;
        let n = self.spec_len();
        assert forall|i: int| 0 <= i < c implies {
            &&& (self.position_of(i) < n ==> #[trigger] self.state_of(i) == SLOT_READY
                || self.state_of(i) == SLOT_WRITING)
            &&& (self.position_of(i) >= n ==> self.state_of(i) == SLOT_EMPTY)
        } by {
            let k = self.position_of(i);
            assert(ring_index(h, k, c) == i);
            assert(self.buffer@[ring_index(h, k, c)] == self.buffer@[i]);
        }
        if t >= h {
            assert((t - h) % c == t - h) by (nonlinear_arith)
                requires
                    0 <= t - h < c,
            ;
        } else {
            assert((t - h) % c == c - h + t) by (nonlinear_arith)
                requires
                    0 < h - t < c,
                    c > 0,
            ;
        }
        let occ = |i: int| self.state_of(i) != SLOT_EMPTY;
        let rdy = |i: int| self.state_of(i) == SLOT_READY;
        // Occupied cells are `[head, tail)` without wrap, else `[0, tail)` and `[head, C)`.
        if t >= h {
            lemma_count_split(occ, 0, h, c);
            lemma_count_split(occ, h, t, c);
            lemma_count_none(occ, 0, h);
            lemma_count_all(occ, h, t);
            lemma_count_none(occ, t, c);
        } else {
            lemma_count_split(occ, 0, t, c);
            lemma_count_split(occ, t, h, c);
            lemma_count_all(occ, 0, t);
            lemma_count_none(occ, t, h);
            lemma_count_all(occ, h, c);
        }
        if !self.has_reserved() {
            if t >= h {
                lemma_count_split(rdy, 0, h, c);
                lemma_count_split(rdy, h, t, c);
                lemma_count_none(rdy, 0, h);
                lemma_count_all(rdy, h, t);
                lemma_count_none(rdy, t, c);
            } else {
                lemma_count_split(rdy, 0, t, c);
                lemma_count_split(rdy, t, h, c);
                lemma_count_all(rdy, 0, t);
                lemma_count_none(rdy, t, h);
                lemma_count_all(rdy, h, c);
            }
        }
    }
}

/// The published values of `s`, with their multiplicities.
pub open spec fn resident<T>(s: Seq<Option<T>>) -> Multiset<T>
    decreases s.len(),
{
    if s.len() == 0 {
        Multiset::empty()
    } else {
        resident(s.drop_last()).add(held(s.last()))
    }
}

/// The value in a cell, as a multiset of zero or one element.
pub open spec fn held<T>(c: Option<T>) -> Multiset<T> {
    match c {
        Some(v) => Multiset::singleton(v),
        None => Multiset::empty(),
    }
}

/// One operation on a deque. `ReserveFront` and `ReserveBack` take a guard on a
/// cell at that end; `Commit(k, v)` releases the guard on the cell at position `k`
/// with the value `v`.
pub enum DequeOp<T> {
    PushFront(T),
    PushBack(T),
    PopFront,
    PopBack,
    ReserveFront,
    ReserveBack,
    Commit(usize, T),
}

/// Contents after `op` on contents `s` in a ring of `cap` cells, with what the
/// operation put in (an accepted push) and what it took out (a successful pop).
pub open spec fn step_of<T>(s: Seq<Option<T>>, cap: int, op: DequeOp<T>) -> (Seq<Option<T>>, Multiset<T>, Multiset<T>) {
    match op {
        DequeOp::PushFront(v) => {
            let (r, t) = push_front_of(s, cap, v);
            (t, if r is Ok { Multiset::singleton(v) } else { Multiset::empty() }, Multiset::empty())
        },
        DequeOp::PushBack(v) => {
            let (r, t) = push_back_of(s, cap, v);
            (t, if r is Ok { Multiset::singleton(v) } else { Multiset::empty() }, Multiset::empty())
        },
        DequeOp::PopFront => {
            let (r, t) = pop_front_of(s);
            (t, Multiset::empty(), held(r))
        },
        DequeOp::PopBack => {
            let (r, t) = pop_back_of(s);
            (t, Multiset::empty(), held(r))
        },
        DequeOp::ReserveFront => {
            if s.len() + 1 >= cap {
                (s, Multiset::empty(), Multiset::empty())
            } else {
                (seq![None] + s, Multiset::empty(), Multiset::empty())
            }
        },
        DequeOp::ReserveBack => {
            if s.len() + 1 >= cap {
                (s, Multiset::empty(), Multiset::empty())
            } else {
                (s.push(None), Multiset::empty(), Multiset::empty())
            }
        },
        DequeOp::Commit(k, v) => {
            if k < s.len() && s[k as int] is None {
                (s.update(k as int, Some(v)), Multiset::singleton(v), Multiset::empty())
            } else {
                (s, Multiset::empty(), Multiset::empty())
            }
        },
    }
}

/// Contents after the operations `ops` in order, with all that was pushed and all
/// that was popped on the way.
pub open spec fn run_of<T>(s: Seq<Option<T>>, cap: int, ops: Seq<DequeOp<T>>) -> (Seq<Option<T>>, Multiset<T>, Multiset<T>)
    decreases ops.len(),
{
    if ops.len() == 0 {
        (s, Multiset::empty(), Multiset::empty())
    } else {
        let (t, pushed, popped) = run_of(s, cap, ops.drop_last());
        let (u, pu, po) = step_of(t, cap, ops.last());
        (u, pushed.add(pu), popped.add(po))
    }
}

proof fn lemma_resident_front<T>(x: Option<T>, s: Seq<Option<T>>)
    ensures
        resident(seq![x] + s) == held(x).add(resident(s)),
    decreases s.len(),
{
    broadcast use vstd::multiset::group_multiset_axioms;

    let xs = seq![x] + s;
    if s.len() == 0 {
        assert(xs.drop_last() =~= s);
        assert(xs.last() == x);
        assert(resident(s) == Multiset::<T>::empty());
        assert(resident(xs) == resident(s).add(held(x)));
        assert(resident(xs) =~= held(x).add(resident(s)));
    } else {
        assert((seq![x] + s).drop_last() =~= seq![x] + s.drop_last());
        lemma_resident_front(x, s.drop_last());
        assert(resident(seq![x] + s) =~= held(x).add(resident(s)));
    }
}

proof fn lemma_resident_commit<T>(s: Seq<Option<T>>, k: int, v: T)
    requires
        0 <= k < s.len(),
        s[k] is None,
    ensures
        resident(s.update(k, Some(v))) == resident(s).add(Multiset::singleton(v)),
    decreases s.len(),
{
    broadcast use vstd::multiset::group_multiset_axioms;

    let t = s.update(k, Some(v));
    if k == s.len() - 1 {
        assert(t.drop_last() =~= s.drop_last());
        assert(resident(t) =~= resident(s).add(Multiset::singleton(v)));
    } else {
        assert(t.drop_last() =~= s.drop_last().update(k, Some(v)));
        lemma_resident_commit(s.drop_last(), k, v);
        assert(resident(t) =~= resident(s).add(Multiset::singleton(v)));
    }
}

/// Nothing is lost or made up: whatever runs of pushes, pops, reservations and
/// commits at either end are applied, what was pushed (a value counts once it is
/// published) equals what was popped plus what is still held.
pub proof fn lemma_conservation<T>(s: Seq<Option<T>>, cap: int, ops: Seq<DequeOp<T>>)
    ensures
        ({
            let (t, pushed, popped) = run_of(s, cap, ops);
            resident(t).add(popped) == resident(s).add(pushed)
        }),
    decreases ops.len(),
{
    broadcast use vstd::multiset::group_multiset_axioms;

    if ops.len() > 0 {
        lemma_conservation(s, cap, ops.drop_last());
        let (t, pushed, popped) = run_of(s, cap, ops.drop_last());
        let (u, pu, po) = step_of(t, cap, ops.last());
        match ops.last() {
            DequeOp::PushFront(v) => {
                if t.len() + 1 < cap {
                    lemma_resident_front(Some(v), t);
                }
                assert(resident(u).add(po) =~= resident(t).add(pu));
            },
            DequeOp::PushBack(v) => {
                if t.len() + 1 < cap {
                    assert(u.drop_last() =~= t);
                    assert(u.last() == Some(v));
                }
                assert(resident(u).add(po) =~= resident(t).add(pu));
            },
            DequeOp::PopFront => {
                if t.len() > 0 && t[0] is Some {
                    assert(t =~= seq![t[0]] + t.drop_first());
                    lemma_resident_front(t[0], t.drop_first());
                }
                assert(resident(u).add(po) =~= resident(t).add(pu));
            },
            DequeOp::PopBack => {
                assert(resident(u).add(po) =~= resident(t).add(pu));
            },
            DequeOp::ReserveFront => {
                if t.len() + 1 < cap {
                    lemma_resident_front(None, t);
                }
                assert(resident(u).add(po) =~= resident(t).add(pu));
            },
            DequeOp::ReserveBack => {
                if t.len() + 1 < cap {
                    assert(u.drop_last() =~= t);
                }
                assert(resident(u).add(po) =~= resident(t).add(pu));
            },
            DequeOp::Commit(k, v) => {
                if k < t.len() && t[k as int] is None {
                    lemma_resident_commit(t, k as int, v);
                }
                assert(resident(u).add(po) =~= resident(t).add(pu));
            },
        }
        assert forall|v: T|
            #[trigger] resident(u).add(popped.add(po)).count(v) == resident(s).add(
                pushed.add(pu),
            ).count(v) by {
            assert(resident(t).add(popped).count(v) == resident(s).add(pushed).count(v));
            assert(resident(u).add(po).count(v) == resident(t).add(pu).count(v));
        }
        assert(resident(u).add(popped.add(po)) =~= resident(s).add(pushed.add(pu)));
    }
}

/// Popping an empty deque, at either end, yields nothing and changes nothing, as
/// often as it is done.
pub proof fn lemma_pop_empty<T>(s: Seq<Option<T>>)
    requires
        s.len() == 0,
    ensures
        pop_front_of(s) == (None::<T>, s),
        pop_back_of(s) == (None::<T>, s),
        pop_front_of(pop_front_of(s).1) == (None::<T>, s),
        pop_back_of(pop_back_of(s).1) == (None::<T>, s),
{
}

/// Popping the front again and again hands out the published values in order, one
/// per call, and once they are all out the next pop yields nothing: after `i` pops
/// the contents are `s.skip(i)`.
pub proof fn lemma_drain_front<T>(s: Seq<Option<T>>)
    requires
        forall|k: int| 0 <= k < s.len() ==> #[trigger] s[k] is Some,
    ensures
        forall|i: int|
            0 <= i < s.len() ==> #[trigger] pop_front_of(s.skip(i)) == (s[i], s.skip(i + 1)),
        pop_front_of(s.skip(s.len() as int)) == (None::<T>, Seq::<Option<T>>::empty()),
{
    assert forall|i: int| 0 <= i < s.len() implies #[trigger] pop_front_of(s.skip(i)) == (
        s[i],
        s.skip(i + 1),
    ) by {
        assert(s.skip(i)[0] == s[i]);
        assert(s.skip(i).drop_first() =~= s.skip(i + 1));
    }
    assert(s.skip(s.len() as int) =~= Seq::<Option<T>>::empty());
}

/// Popping the back again and again hands out the published values from the last
/// one backward, and once they are all out the next pop yields nothing: after `j`
/// pops the contents are `s.take(s.len() - j)`.
pub proof fn lemma_drain_back<T>(s: Seq<Option<T>>)
    requires
        forall|k: int| 0 <= k < s.len() ==> #[trigger] s[k] is Some,
    ensures
        forall|i: int|
            0 < i <= s.len() ==> #[trigger] pop_back_of(s.take(i)) == (s[i - 1], s.take(i - 1)),
        pop_back_of(s.take(0)) == (None::<T>, Seq::<Option<T>>::empty()),
{
    assert forall|i: int| 0 < i <= s.len() implies #[trigger] pop_back_of(s.take(i)) == (
        s[i - 1],
        s.take(i - 1),
    ) by {
        assert(s.take(i).last() == s[i - 1]);
        assert(s.take(i).drop_last() =~= s.take(i - 1));
    }
    assert(s.take(0) =~= Seq::<Option<T>>::empty());
}

/// A push on a deque that holds `cap - 1` cells, at either end, is refused with
/// the payload handed back and nothing changed.
pub proof fn lemma_push_full<T>(s: Seq<Option<T>>, cap: int, v: T)
    requires
        s.len() + 1 == cap,
    ensures
        push_front_of(s, cap, v) == (Err::<(), T>(v), s),
        push_back_of(s, cap, v) == (Err::<(), T>(v), s),
{
}

} // verus!
