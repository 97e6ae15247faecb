//! Fixed-capacity ring buffer for streaming token IDs.
//!
//! After [`TokenRingBuffer::new`], [`TokenRingBuffer::push`] never allocates: it writes
//! into storage sized once at construction and overwrites the oldest entry when full.
//!
//! The abstract value of a buffer is the sequence of `(token, position)` pairs it holds,
//! oldest first. Its length never exceeds the fixed capacity.

use vstd::prelude::*;
use vstd::std_specs::iter::IteratorSpec;

verus! {

/// Default capacity used by the guardrails streaming path (tokens).
pub const DEFAULT_CAPACITY: usize = 4096;

/// The window kept by a buffer of capacity `cap` after appending `item` to the window `w`:
/// the item goes last, and when the window was already full its oldest entry leaves.
pub open spec fn push_window(w: Seq<(u32, usize)>, item: (u32, usize), cap: nat) -> Seq<(u32, usize)> {
    if w.len() < cap {
        w.push(item)
    } else {
        w.push(item).drop_first()
    }
}

/// The most recent `cap` entries of `history` (all of it when it is shorter), oldest first.
pub open spec fn window_of(history: Seq<(u32, usize)>, cap: nat) -> Seq<(u32, usize)> {
    if history.len() <= cap {
        history
    } else {
        history.skip(history.len() - cap)
    }
}

/// The last `n` entries of `w` (all of `w` when `n` exceeds its length), oldest first.
pub open spec fn tail_of(w: Seq<(u32, usize)>, n: int) -> Seq<(u32, usize)> {
    if n >= w.len() {
        w
    } else {
        w.skip(w.len() - n)
    }
}

/// A window never grows past its capacity: pushing onto a window that fits leaves one that fits.
pub proof fn lemma_push_window_bounded(w: Seq<(u32, usize)>, item: (u32, usize), cap: nat)
    requires
        cap > 0,
        w.len() <= cap,
    ensures
        push_window(w, item, cap).len() <= cap,
        push_window(w, item, cap).last() == item,
{
}

/// A buffer holds exactly the most recent `cap` entries pushed since it was created or
/// cleared: pushing onto the window of a history gives the window of the longer history.
pub proof fn lemma_push_tracks_history(history: Seq<(u32, usize)>, item: (u32, usize), cap: nat)
    requires
        cap > 0,
    ensures
        push_window(window_of(history, cap), item, cap) == window_of(history.push(item), cap),
        window_of(Seq::<(u32, usize)>::empty(), cap) == Seq::<(u32, usize)>::empty(),
{
    let w = window_of(history, cap);
    let h2 = history.push(item);
    if history.len() < cap {
        assert(push_window(w, item, cap) =~= window_of(h2, cap));
    } else {
        assert(push_window(w, item, cap) =~= window_of(h2, cap));
    }
}

/// The last `n` entries of a buffer's window are the last `min(n, cap)` entries of its history.
pub proof fn lemma_tail_of_window(history: Seq<(u32, usize)>, cap: nat, n: nat)
    ensures
        tail_of(window_of(history, cap), n as int) == tail_of(
            history,
            if n < cap { n as int } else { cap as int },
        ),
{
    let w = window_of(history, cap);
    let m: int = if n < cap { n as int } else { cap as int };
    assert(tail_of(w, n as int) =~= tail_of(history, m));
}

/// Zero-growth ring buffer for streaming tokens.
///
/// Capacity is fixed at construction. On overflow the oldest entries are overwritten.
#[derive(Debug)]
pub struct TokenRingBuffer {
    tokens: Vec<u32>,
    positions: Vec<usize>,
    /// Next write index.
    head: usize,
    /// Number of valid entries (`<= capacity`).
    len: usize,
    capacity: usize,
}

impl View for TokenRingBuffer {
    type V = Seq<(u32, usize)>;

    /// Stored entries, oldest first.
    closed spec fn view(&self) -> Seq<(u32, usize)> {
        Seq::new(
            self.len as nat,
            |i: int| (self.tokens@[self.slot(i)], self.positions@[self.slot(i)]),
        )
    }
}

impl Clone for TokenRingBuffer {
    /// An independent buffer with the same entries and capacity.
    fn clone(&self) -> (c: Self)
        ensures
            c@ == self@,
            c.window_capacity() == self.window_capacity(),
    {
        proof {
            use_type_invariant(self);
        }
        let c = TokenRingBuffer {
            tokens: self.tokens.clone(),
            positions: self.positions.clone(),
            head: self.head,
            len: self.len,
            capacity: self.capacity,
        };
        assert(c@ =~= self@);
        c
    }
}

impl TokenRingBuffer {
    #[verifier::type_invariant]
    spec fn well_formed(&self) -> bool {
        &&& self.capacity > 0
        &&& self.tokens@.len() == self.capacity
        &&& self.positions@.len() == self.capacity
        &&& self.head < self.capacity
        &&& self.len <= self.capacity
    }

    /// Physical slot of the `i`-th stored entry (0 is the oldest).
    spec fn slot(&self, i: int) -> int {
        let k = self.head + self.capacity - self.len + i;
        if k < self.capacity {
            k
        } else {
            k - self.capacity
        }
    }

    /// The fixed capacity of the buffer.
    pub closed spec fn window_capacity(&self) -> nat {
        self.capacity as nat
    }

    /// Create a buffer with the given capacity. Allocates once.
    ///
    /// The capacity must be positive.
    pub fn new(capacity: usize) -> (buf: Self)
        requires
            capacity > 0,
        ensures
            buf@ == Seq::<(u32, usize)>::empty(),
            buf.window_capacity() == capacity,
    {
        let buf = TokenRingBuffer {
            tokens: vec![0; capacity],
            positions: vec![0; capacity],
            head: 0,
            len: 0,
            capacity,
        };
        assert(buf@ =~= Seq::<(u32, usize)>::empty());
        buf
    }

    /// Create a buffer with [`DEFAULT_CAPACITY`] (4096).
    pub fn with_default_capacity() -> (buf: Self)
        ensures
            buf@ == Seq::<(u32, usize)>::empty(),
            buf.window_capacity() == DEFAULT_CAPACITY,
    {
        Self::new(DEFAULT_CAPACITY)
    }

    /// Append a token. `O(1)`. Overwrites the oldest entry when full.
    pub fn push(&mut self, token_id: u32, position: usize)
        ensures
            final(self)@ == push_window(old(self)@, (token_id, position), old(self).window_capacity()),
            final(self).window_capacity() == old(self).window_capacity(),
            final(self)@.len() <= final(self).window_capacity(),
    {
        proof {
            use_type_invariant(&*self);
        }
        let ghost w = self@;
        let idx = self.head;
        self.tokens[idx] = token_id;
        self.positions[idx] = position;
        self.head = if self.head + 1 == self.capacity {
            0
        } else {
            self.head + 1
        };
        if self.len < self.capacity {
            self.len = self.len + 1;
        }
        assert(self@ =~= push_window(w, (token_id, position), self.capacity as nat));
    }

    /// The `i`-th of the last `n` tokens (0 is the oldest of that window), read in place
    /// without allocating. `i` must be below `min(n, len)`.
    pub fn last_n_at(&self, n: usize, i: usize) -> (entry: (u32, usize))
        requires
            i < tail_of(self@, n as int).len(),
        ensures
            entry == tail_of(self@, n as int)[i as int],
    {
        proof {
            use_type_invariant(self);
        }
        let n = if n < self.len {
            n
        } else {
            self.len
        };
        let idx = self.index_of_last_n(n, i);
        (self.tokens[idx], self.positions[idx])
    }

    /// The last `n` tokens in chronological order (oldest of the window first), collected
    /// into an owned iterator; [`Self::last_n_at`] reads them one at a time in place.
    ///
    /// If `n` exceeds the number of stored tokens, returns all of them.
    pub fn last_n(&self, n: usize) -> (it: std::vec::IntoIter<(u32, usize)>)
        ensures
            it.remaining() == tail_of(self@, n as int),
    {
        proof {
            use_type_invariant(self);
        }
        let n = if n < self.len {
            n
        } else {
            self.len
        };
        let mut out: Vec<(u32, usize)> = Vec::new();
        let mut i: usize = 0;
        while i < n
            invariant
                n <= self.len,
                i <= n,
                self.well_formed(),
                out@ =~= self@.subrange(self.len - n, self.len - n + i),
            decreases n - i,
        {
            out.push(self.last_n_at(n, i));
            i = i + 1;
        }
        assert(out@ =~= tail_of(self@, n as int));
        out.into_iter()
    }

    /// Number of stored tokens.
    pub fn len(&self) -> (r: usize)
        ensures
            r == self@.len(),
            r <= self.window_capacity(),
    {
        proof {
            use_type_invariant(self);
        }
        self.len
    }

    /// Whether the buffer is empty.
    pub fn is_empty(&self) -> (r: bool)
        ensures
            r == (self@.len() == 0),
    {
        self.len == 0
    }

    /// Fixed capacity.
    pub fn capacity(&self) -> (r: usize)
        ensures
            r == self.window_capacity(),
            r > 0,
    {
        proof {
            use_type_invariant(self);
        }
        self.capacity
    }

    /// Drop all entries without releasing the backing storage.
    pub fn clear(&mut self)
        ensures
            final(self)@ == Seq::<(u32, usize)>::empty(),
            final(self).window_capacity() == old(self).window_capacity(),
    {
        proof {
            use_type_invariant(&*self);
        }
        self.head = 0;
        self.len = 0;
        assert(self@ =~= Seq::<(u32, usize)>::empty());
    }

    /// Physical index of the `i`-th element within the last-`n` window (`i` in `0..n`).
    fn index_of_last_n(&self, n: usize, i: usize) -> (idx: usize)
        requires
            self.well_formed(),
            n <= self.len,
            i < n,
        ensures
            idx == self.slot(self.len - n + i),
            idx < self.capacity,
    {
        // The oldest of the last n sits at head - n + i (mod capacity).
        let back = n - i;
        if self.head >= back {
            self.head - back
        } else {
            self.head + (self.capacity - back)
        }
    }
}

/// What a call does to a buffer's contents: `Some(item)` is `push(item)`, `None` is
/// `clear()`.
pub open spec fn apply_op(
    w: Seq<(u32, usize)>,
    op: Option<(u32, usize)>,
    cap: nat,
) -> Seq<(u32, usize)> {
    match op {
        Some(item) => push_window(w, item, cap),
        None => Seq::<(u32, usize)>::empty(),
    }
}

/// The entries pushed by `ops` since its last `clear` (all of them when there is none).
pub open spec fn pushed_since_clear(ops: Seq<Option<(u32, usize)>>) -> Seq<(u32, usize)>
    decreases ops.len(),
{
    if ops.len() == 0 {
        Seq::<(u32, usize)>::empty()
    } else {
        match ops.last() {
            Some(item) => pushed_since_clear(ops.drop_last()).push(item),
            None => Seq::<(u32, usize)>::empty(),
        }
    }
}

/// `after` is what the call `op` leaves of `before`, as the contracts of `push` and `clear`
/// state it.
pub open spec fn op_step(
    before: TokenRingBuffer,
    after: TokenRingBuffer,
    op: Option<(u32, usize)>,
) -> bool {
    &&& after@ == apply_op(before@, op, before.window_capacity())
    &&& after.window_capacity() == before.window_capacity()
}

/// The state after `i` calls of a call sequence starting from an empty buffer.
proof fn lemma_call_prefix(
    states: Seq<TokenRingBuffer>,
    ops: Seq<Option<(u32, usize)>>,
    c: nat,
    i: int,
)
    requires
        c > 0,
        states.len() == ops.len() + 1,
        states[0]@ == Seq::<(u32, usize)>::empty(),
        states[0].window_capacity() == c,
        forall|j: int| #![trigger ops[j]] 0 <= j < ops.len() ==> op_step(states[j], states[j + 1], ops[j]),
        0 <= i <= ops.len(),
    ensures
        states[i].window_capacity() == c,
        states[i]@ == window_of(pushed_since_clear(ops.take(i)), c),
    decreases i,
{
    if i == 0 {
        assert(ops.take(0) =~= Seq::<Option<(u32, usize)>>::empty());
    } else {
        lemma_call_prefix(states, ops, c, i - 1);
        assert(op_step(states[i - 1], states[i], ops[i - 1]));
        assert(ops.take(i).drop_last() =~= ops.take(i - 1));
        let h = pushed_since_clear(ops.take(i - 1));
        match ops[i - 1] {
            Some(item) => {
                lemma_push_tracks_history(h, item, c);
            },
            None => {},
        }
    }
}

/// Without `clear`, the entries pushed since the start are all the pushed items.
proof fn lemma_pushed_without_clear(ops: Seq<Option<(u32, usize)>>)
    requires
        forall|j: int| 0 <= j < ops.len() ==> (#[trigger] ops[j]) is Some,
    ensures
        pushed_since_clear(ops) == ops.map_values(|o: Option<(u32, usize)>| o->0),
    decreases ops.len(),
{
    if ops.len() > 0 {
        let rest = ops.drop_last();
        assert forall|j: int| 0 <= j < rest.len() implies (#[trigger] rest[j]) is Some by {
            assert(rest[j] == ops[j]);
        }
        lemma_pushed_without_clear(rest);
        assert(ops.map_values(|o: Option<(u32, usize)>| o->0) =~= rest.map_values(
            |o: Option<(u32, usize)>| o->0,
        ).push(ops.last()->0));
    }
}

/// Over any sequence of `push` and `clear` calls on a buffer created with capacity `c`:
/// the capacity stays `c`; after each call the buffer holds the most recent `c` entries
/// pushed since the last `clear`, so never more than `c`. Without `clear`, after `k` pushes
/// it holds `min(k, c)` entries, the last ones pushed, oldest first, and `last_n(n)` gives
/// the last `min(n, k, c)` of them.
pub proof fn lemma_call_sequence(
    states: Seq<TokenRingBuffer>,
    ops: Seq<Option<(u32, usize)>>,
    c: nat,
)
    requires
        c > 0,
        states.len() == ops.len() + 1,
        states[0]@ == Seq::<(u32, usize)>::empty(),
        states[0].window_capacity() == c,
        forall|j: int| #![trigger ops[j]] 0 <= j < ops.len() ==> op_step(states[j], states[j + 1], ops[j]),
    ensures
        forall|i: int|
            0 <= i <= ops.len() ==> {
                &&& (#[trigger] states[i]).window_capacity() == c
                &&& states[i]@ == window_of(pushed_since_clear(ops.take(i)), c)
                &&& states[i]@.len() <= c
            },
        (forall|j: int| 0 <= j < ops.len() ==> (#[trigger] ops[j]) is Some) ==> {
            let log = ops.map_values(|o: Option<(u32, usize)>| o->0);
            let last = states[ops.len() as int];
            &&& last@ == window_of(log, c)
            &&& last@.len() == if ops.len() < c {
                ops.len()
            } else {
                c
            }
            &&& forall|n: nat|
                #![trigger tail_of(last@, n as int)]
                tail_of(last@, n as int) == tail_of(log, if n < c { n as int } else { c as int })
        },
{
    assert forall|i: int| 0 <= i <= ops.len() implies {
        &&& (#[trigger] states[i]).window_capacity() == c
        &&& states[i]@ == window_of(pushed_since_clear(ops.take(i)), c)
        &&& states[i]@.len() <= c
    } by {
        lemma_call_prefix(states, ops, c, i);
    }
    if forall|j: int| 0 <= j < ops.len() ==> (#[trigger] ops[j]) is Some {
        let log = ops.map_values(|o: Option<(u32, usize)>| o->0);
        lemma_call_prefix(states, ops, c, ops.len() as int);
        assert(ops.take(ops.len() as int) =~= ops);
        lemma_pushed_without_clear(ops);
        assert forall|n: nat|
            #![trigger tail_of(states[ops.len() as int]@, n as int)]
            tail_of(states[ops.len() as int]@, n as int) == tail_of(
                log,
                if n < c { n as int } else { c as int },
            ) by {
            lemma_tail_of_window(log, c, n);
        }
    }
}

} // verus!
