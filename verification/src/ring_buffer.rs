use vstd::prelude::*;
use vstd::seq_lib::lemma_seq_union_to_multiset_commutative;
use vstd::slice::slice_subrange;
use vstd::arithmetic::div_mod::{lemma_small_mod, lemma_mod_self_0, lemma_add_mod_noop_right, lemma_mod_pos_bound, lemma_mod_equivalence};

verus! {

/// The contents of a ring buffer of capacity `size` holding `s` after `v`
/// is pushed: `v` is appended, and once `size` values are held the oldest
/// one is dropped.
pub open spec fn pushed<T>(s: Seq<T>, size: nat, v: T) -> Seq<T> {
    if s.len() < size {
        s.push(v)
    } else {
        s.drop_first().push(v)
    }
}

/// The contents of a ring buffer of capacity `size` holding `start` after
/// each value of `s` is pushed in turn.
pub open spec fn pushed_all<T>(start: Seq<T>, size: nat, s: Seq<T>) -> Seq<T>
    decreases s.len(),
{
    if s.len() == 0 {
        start
    } else {
        pushed(pushed_all(start, size, s.drop_last()), size, s.last())
    }
}

/// The last `n` values of `s`, or all of them if there are fewer.
pub open spec fn latest<T>(s: Seq<T>, n: nat) -> Seq<T> {
    if s.len() <= n {
        s
    } else {
        s.subrange(s.len() - n, s.len() as int)
    }
}

/// Whether `j` is the position, in the sequence of all values pushed, of
/// one of the last `size` values among `n` pushed.
pub open spec fn in_window(n: int, size: int, j: int) -> bool {
    n - size <= j < n && 0 <= j
}

/// The slots of a buffer holding `v` (oldest first) whose next slot is
/// `next`: in order until it has been filled once; afterwards the slots from
/// `next` on hold the oldest values.
pub open spec fn slot_order<T>(v: Seq<T>, size: int, next: int, full: bool) -> Seq<T> {
    if full {
        v.subrange(size - next, size) + v.subrange(0, size - next)
    } else {
        v
    }
}

/// A buffer of at most `SIZE` values that, once full, overwrites its oldest
/// value with each new one. Its `SIZE` slots are stored inline, so the
/// buffer can live on the stack. Its view is the values it holds, oldest
/// first.
pub struct RingBuffer<T, const SIZE: usize> {
    data: [T; SIZE],
    index: usize,
    filled: bool,
    history: Ghost<Seq<T>>,
}

impl<T, const SIZE: usize> RingBuffer<T, SIZE> {
    /// Value `j` of those pushed sits in slot `j % SIZE` while it is among
    /// the last `SIZE`; the next slot is the count pushed modulo `SIZE`; the
    /// buffer is full once `SIZE` values have been pushed; until then the
    /// values held are those of the slots before the next one.
    pub closed spec fn well_formed(&self) -> bool {
        let h = self.history@;
        if SIZE == 0 {
            self.index == 0 && !self.filled && h.len() == 0
        } else {
            &&& self.index < SIZE
            &&& self.index == (h.len() as int) % (SIZE as int)
            &&& self.filled == (h.len() >= SIZE)
            &&& self@ == latest(h, SIZE as nat)
            &&& forall|j: int|
                in_window(h.len() as int, SIZE as int, j) ==> #[trigger] self.data@[j % (
                SIZE as int)] == h[j]
        }
    }

    /// Whether all `SIZE` slots have been written.
    pub closed spec fn is_full(&self) -> bool {
        self.filled
    }

    /// Position of the slot the next value goes into.
    pub closed spec fn next_slot(&self) -> int {
        self.index as int
    }

    /// Every value pushed so far, in order.
    pub closed spec fn pushed_values(&self) -> Seq<T> {
        self.history@
    }

    /// All `SIZE` slots, in slot order, written or not.
    pub closed spec fn slots(&self) -> Seq<T> {
        self.data@
    }
}

impl<T, const SIZE: usize> View for RingBuffer<T, SIZE> {
    type V = Seq<T>;

    closed spec fn view(&self) -> Seq<T> {
        if self.filled {
            self.data@.subrange(self.index as int, SIZE as int) + self.data@.subrange(
                0,
                self.index as int,
            )
        } else {
            self.data@.subrange(0, self.index as int)
        }
    }
}

proof fn lemma_next_mod(a: int, m: int)
    requires
        0 <= a,
        0 < m,
    ensures
        (a % m + 1) % m == (a + 1) % m,
        a < m ==> a % m == a,
        a % m + 1 == m <==> (a + 1) % m == 0,
{
    lemma_add_mod_noop_right(1, a, m);
    lemma_mod_pos_bound(a, m);
    lemma_mod_pos_bound(a + 1, m);
    if a < m {
        lemma_small_mod(a as nat, m as nat);
    }
    if a % m + 1 < m {
        lemma_small_mod((a % m + 1) as nat, m as nat);
    } else {
        lemma_mod_self_0(m);
    }
}

proof fn lemma_mod_distinct(j: int, n: int, m: int)
    requires
        0 <= j < n < j + m,
    ensures
        j % m != n % m,
{
    lemma_mod_equivalence(n, j, m);
    lemma_small_mod((n - j) as nat, m as nat);
}

impl<T: Default + Copy, const SIZE: usize> RingBuffer<T, SIZE> {
    /// An empty buffer whose `SIZE` slots all hold the value `T::default()`
    /// returns. None of them counts as a value held until it is written.
    pub fn new() -> (r: Self)
        ensures
            r.well_formed(),
            r@ == Seq::<T>::empty(),
            r.pushed_values() == Seq::<T>::empty(),
            !r.is_full(),
            r.next_slot() == 0,
            r.slots().len() == SIZE,
            forall|k: int| 0 <= k < SIZE ==> call_ensures(T::default, (), #[trigger] r.slots()[k]),
            forall|k: int| 0 <= k < SIZE ==> #[trigger] r.slots()[k] == r.slots()[0],
    {
        let d = T::default();
        let r = RingBuffer { data: [d; SIZE], index: 0, filled: false, history: Ghost(Seq::empty()) };
        proof {
            if SIZE > 0 {
                lemma_small_mod(0, SIZE as nat);
            }
            assert(r@ =~= Seq::<T>::empty());
            assert(r@ =~= latest(Seq::<T>::empty(), SIZE as nat));
        }
        r
    }
}

impl<T, const SIZE: usize> RingBuffer<T, SIZE> {
    /// Writes `val` into the next slot, overwriting the oldest value once
    /// the buffer is full.
    pub fn push(&mut self, val: T)
        requires
            SIZE > 0,
            old(self).well_formed(),
        ensures
            final(self).well_formed(),
            final(self)@ == pushed(old(self)@, SIZE as nat, val),
            final(self).pushed_values() == old(self).pushed_values().push(val),
            final(self).slots() == old(self).slots().update(old(self).next_slot(), val),
            final(self).is_full() == (old(self).is_full() || old(self).next_slot() + 1 == SIZE),
            final(self).next_slot() == (old(self).next_slot() + 1) % (SIZE as int),
    {
        let ghost before = self@;
        let ghost old_data = self.data@;
        let ghost h = self.history@;
        self.data[self.index] = val;
        let idx = self.index + 1;
        self.index = idx % SIZE;

        if !self.filled && idx == SIZE {
            self.filled = true;
        }
        self.history = Ghost(h.push(val));
        proof {
            let n = SIZE as int;
            let i = idx - 1;
            let m = h.len() as int;
            lemma_next_mod(m, n);
            lemma_next_mod(i as int, n);
            assert(self.data@ == old_data.update(i, val));
            if idx < SIZE {
                lemma_small_mod(idx as nat, n as nat);
                assert(self.index == i + 1);
            } else {
                lemma_mod_self_0(n);
                assert(self.index == 0);
            }
            if old(self).filled {
                assert(before == old_data.subrange(i, n) + old_data.subrange(0, i));
                assert(self@ =~= before.drop_first().push(val));
            } else {
                assert(before == old_data.subrange(0, i));
                assert(self@ =~= before.push(val));
            }
            lemma_pushed_latest(h, SIZE as nat, val);
            let h2 = h.push(val);
            assert forall|j: int| in_window(h2.len() as int, n, j) implies #[trigger] self.data@[j
                % n] == h2[j] by {
                lemma_mod_pos_bound(j, n);
                if j < m {
                    lemma_mod_distinct(j, m, n);
                    assert(old_data[j % n] == h[j]);
                }
            }
        }
    }

    /// The values held, in slot order: every slot once the buffer has been
    /// filled, before that the slots before the next one (oldest value
    /// first).
    pub fn contents(&self) -> (r: &[T])
        requires
            self.well_formed(),
        ensures
            r@ == (if self.is_full() {
                self.slots()
            } else {
                self.slots().take(self.next_slot())
            }),
            r@ == slot_order(self@, SIZE as int, self.next_slot(), self.is_full()),
            r@.len() == (if self.is_full() {
                SIZE as int
            } else {
                self.next_slot()
            }),
            r@.to_multiset() == self@.to_multiset(),
    {
        proof {
            let d = self.data@;
            let i = self.index as int;
            if self.filled {
                let a = d.subrange(i, SIZE as int);
                let b = d.subrange(0, i);
                assert(self@ == a + b);
                assert(d =~= b + a);
                assert((a + b).subrange(SIZE - i, SIZE as int) =~= b);
                assert((a + b).subrange(0, SIZE - i) =~= a);
                lemma_seq_union_to_multiset_commutative(a, b);
            } else {
                assert(d.take(i) =~= d.subrange(0, i));
            }
        }
        if self.filled {
            self.data.as_slice()
        } else {
            slice_subrange(self.data.as_slice(), 0, self.index)
        }
    }

    /// Whether every slot has been written at least once.
    pub fn filled(&self) -> (r: bool)
        requires
            self.well_formed(),
        ensures
            r == self.is_full(),
            SIZE > 0 ==> (r == (self@.len() == SIZE)),
    {
        self.filled
    }

    /// Position of the slot the next value goes into.
    pub fn index(&self) -> (r: usize)
        ensures
            r == self.next_slot(),
    {
        self.index
    }
}

/// A buffer with room for at least one value never holds more than `SIZE`
/// values, and it is full exactly when it holds `SIZE` of them.
pub proof fn lemma_ring_buffer_size<T, const SIZE: usize>(b: RingBuffer<T, SIZE>)
    requires
        SIZE > 0,
        b.well_formed(),
    ensures
        b@.len() <= SIZE,
        b.is_full() <==> b@.len() == SIZE,
        !b.is_full() ==> b@.len() == b.next_slot(),
{
}

/// Where the values of a buffer that started empty sit: after `n` pushes
/// the next slot is `n % SIZE`, the buffer is full once `n >= SIZE`, it
/// holds the last `SIZE` values pushed (oldest first), and value `j` of
/// those pushed, while it is among the last `SIZE`, sits in slot `j % SIZE`.
pub proof fn lemma_ring_buffer_layout<T, const SIZE: usize>(b: RingBuffer<T, SIZE>)
    requires
        SIZE > 0,
        b.well_formed(),
    ensures
        b.next_slot() == (b.pushed_values().len() as int) % (SIZE as int),
        b.is_full() == (b.pushed_values().len() >= SIZE),
        b@ == latest(b.pushed_values(), SIZE as nat),
        b.slots().len() == SIZE,
        (if b.is_full() {
            b.slots()
        } else {
            b.slots().take(b.next_slot())
        }) == slot_order(b@, SIZE as int, b.next_slot(), b.is_full()),
        forall|j: int|
            in_window(b.pushed_values().len() as int, SIZE as int, j) ==> #[trigger] b.slots()[j
                % (SIZE as int)] == b.pushed_values()[j],
{
    let d = b.data@;
    let i = b.index as int;
    if b.filled {
        let a = d.subrange(i, SIZE as int);
        let c = d.subrange(0, i);
        assert(b@ == a + c);
        assert(d =~= c + a);
        assert((a + c).subrange(SIZE - i, SIZE as int) =~= c);
        assert((a + c).subrange(0, SIZE - i) =~= a);
    } else {
        assert(d.take(i) =~= d.subrange(0, i));
    }
}

/// Pushing onto the last `size` values of `s` gives the last `size` values
/// of `s` followed by the new value.
pub proof fn lemma_pushed_latest<T>(s: Seq<T>, size: nat, v: T)
    requires
        size > 0,
    ensures
        pushed(latest(s, size), size, v) == latest(s.push(v), size),
{
    assert(pushed(latest(s, size), size, v) =~= latest(s.push(v), size));
}

/// A buffer of capacity `size` that starts empty holds, after any sequence
/// of pushes, exactly the last `size` values pushed, oldest first.
pub proof fn lemma_holds_latest<T>(size: nat, s: Seq<T>)
    requires
        size > 0,
    ensures
        pushed_all(Seq::<T>::empty(), size, s) == latest(s, size),
    decreases s.len(),
{
    if s.len() == 0 {
        assert(latest(s, size) =~= Seq::<T>::empty());
    } else {
        lemma_holds_latest(size, s.drop_last());
        lemma_pushed_latest(s.drop_last(), size, s.last());
        assert(s.drop_last().push(s.last()) =~= s);
    }
}

} // verus!
