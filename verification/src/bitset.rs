use vstd::prelude::*;

verus! {

/// Whether bit `i` of `bits` is set.
pub open spec fn bit_set(bits: usize, i: usize) -> bool {
    (bits >> i) & 1usize == 1usize
}

/// The indices below `n` whose bit is set, in increasing order.
pub open spec fn set_bits_below(bits: usize, n: nat) -> Seq<usize>
    decreases n,
{
    if n == 0 {
        Seq::empty()
    } else {
        let prev = set_bits_below(bits, (n - 1) as nat);
        if bit_set(bits, (n - 1) as usize) {
            prev.push((n - 1) as usize)
        } else {
            prev
        }
    }
}

proof fn lemma_bit_insert(bits: usize, i: usize, j: usize)
    by (bit_vector)
    requires
        i < usize::BITS,
        j < usize::BITS,
    ensures
        ((bits | (1usize << i)) >> j) & 1usize == 1usize <==> (j == i || (bits >> j) & 1usize
            == 1usize),
{
}

proof fn lemma_bit_remove(bits: usize, i: usize, j: usize)
    by (bit_vector)
    requires
        i < usize::BITS,
        j < usize::BITS,
    ensures
        ((bits & !(1usize << i)) >> j) & 1usize == 1usize <==> (j != i && (bits >> j) & 1usize
            == 1usize),
{
}

proof fn lemma_bit_toggle(bits: usize, i: usize, j: usize)
    by (bit_vector)
    requires
        i < usize::BITS,
        j < usize::BITS,
    ensures
        ((bits ^ (1usize << i)) >> j) & 1usize == 1usize <==> (if j == i {
            (bits >> j) & 1usize != 1usize
        } else {
            (bits >> j) & 1usize == 1usize
        }),
        (bits & (1usize << i) != 0usize) <==> ((bits >> i) & 1usize == 1usize),
{
}

proof fn lemma_zero_has_no_bits(j: usize)
    by (bit_vector)
    requires
        j < usize::BITS,
    ensures
        (0usize >> j) & 1usize != 1usize,
{
}

proof fn lemma_shift_step(x: usize, k: usize)
    by (bit_vector)
    requires
        k < usize::BITS,
        (x >> k) != 0usize,
        (x >> k) & 1usize != 1usize,
    ensures
        k + 1 < usize::BITS,
        (x >> ((k + 1) as usize)) != 0usize,
{
}

proof fn lemma_nonzero_has_bit_from(x: usize, k: usize)
    requires
        k < usize::BITS,
        (x >> k) != 0usize,
    ensures
        exists|i: usize| k <= i < usize::BITS && #[trigger] bit_set(x, i),
    decreases usize::BITS - k,
{
    if (x >> k) & 1usize == 1usize {
        assert(bit_set(x, k));
    } else {
        lemma_shift_step(x, k);
        lemma_nonzero_has_bit_from(x, (k + 1) as usize);
    }
}

proof fn lemma_shift_zero(x: usize)
    by (bit_vector)
    ensures
        (x >> 0usize) == x,
{
}

/// `s` with the membership of `i` flipped.
pub open spec fn toggled(s: Set<usize>, i: usize) -> Set<usize> {
    if s.contains(i) {
        s.remove(i)
    } else {
        s.insert(i)
    }
}

/// A set of small indices (below `usize::BITS`), packed into one machine word.
///
/// The application shares such sets between event handlers behind a lock;
/// here a set is a plain value and updates take `&mut self`.
#[derive(Clone, Copy, Debug, PartialEq, Eq, Structural)]
pub struct AtomicBitSet {
    pub bits: usize,
}

impl View for AtomicBitSet {
    type V = Set<usize>;

    open spec fn view(&self) -> Set<usize> {
        self.set_view()
    }
}

impl AtomicBitSet {
    /// Membership of index `i`.
    pub open spec fn has(self, i: usize) -> bool {
        i < usize::BITS && bit_set(self.bits, i)
    }

    /// The members, in increasing order.
    pub open spec fn members(self) -> Seq<usize> {
        set_bits_below(self.bits, usize::BITS as nat)
    }

    pub open spec fn set_view(self) -> Set<usize> {
        Set::new(|i: usize| self.has(i))
    }

    pub fn new() -> (s: Self)
        ensures
            s.set_view() == Set::<usize>::empty(),
            s.bits == 0,
    {
        proof {
            assert forall|i: usize| !(#[trigger] bit_set(0usize, i)) || i >= usize::BITS by {
                if i < usize::BITS {
                    lemma_zero_has_no_bits(i);
                }
            }
        }
        let s = AtomicBitSet { bits: 0 };
        assert(s.set_view() =~= Set::<usize>::empty());
        s
    }

    pub fn is_empty(&self) -> (r: bool)
        ensures
            r <==> self.set_view() == Set::<usize>::empty(),
    {
        let r = self.bits == 0;
        proof {
            if r {
                assert forall|i: usize| !self.has(i) by {
                    if i < usize::BITS {
                        lemma_zero_has_no_bits(i);
                    }
                }
                assert(self.set_view() =~= Set::<usize>::empty());
            } else {
                lemma_shift_zero(self.bits);
                lemma_nonzero_has_bit_from(self.bits, 0);
                let i = choose|i: usize| 0 <= i < usize::BITS && #[trigger] bit_set(self.bits, i);
                assert(self.set_view().contains(i));
            }
        }
        r
    }

    pub fn insert(&mut self, i: usize)
        requires
            i < usize::BITS,
        ensures
            final(self).set_view() == old(self).set_view().insert(i),
    {
        self.bits = self.bits | (1usize << i);
        proof {
            assert forall|j: usize| #[trigger] self.has(j) == (j == i || old(self).has(j)) by {
                if j < usize::BITS {
                    lemma_bit_insert(old(self).bits, i, j);
                }
            }
            assert(self.set_view() =~= old(self).set_view().insert(i));
        }
    }

    pub fn remove(&mut self, i: usize)
        requires
            i < usize::BITS,
        ensures
            final(self).set_view() == old(self).set_view().remove(i),
    {
        self.bits = self.bits & !(1usize << i);
        proof {
            assert forall|j: usize| #[trigger] self.has(j) == (j != i && old(self).has(j)) by {
                if j < usize::BITS {
                    lemma_bit_remove(old(self).bits, i, j);
                }
            }
            assert(self.set_view() =~= old(self).set_view().remove(i));
        }
    }

    /// Flips the membership of `i`; returns whether `i` was a member before.
    pub fn toggle(&mut self, i: usize) -> (was: bool)
        requires
            i < usize::BITS,
        ensures
            was == old(self).has(i),
            final(self).set_view() == toggled(old(self).set_view(), i),
    {
        let mask = 1usize << i;
        let was = self.bits & mask != 0;
        self.bits = self.bits ^ mask;
        proof {
            lemma_bit_toggle(old(self).bits, i, i);
            assert forall|j: usize| #[trigger] self.has(j) == (if j == i {
                !old(self).has(j)
            } else {
                old(self).has(j)
            }) by {
                if j < usize::BITS {
                    lemma_bit_toggle(old(self).bits, i, j);
                }
            }
            if was {
                assert(self.set_view() =~= old(self).set_view().remove(i));
            } else {
                assert(self.set_view() =~= old(self).set_view().insert(i));
            }
        }
        was
    }

    /// An iterator over the members, in increasing order, reading the word
    /// once.
    pub fn iter(&self) -> (it: BitSetIter)
        ensures
            it == iter_start(self.bits),
            it.bits == self.bits,
            it.offset == (if self.bits == 0 {
                usize::MAX
            } else {
                0
            }),
    {
        let bits = self.bits;
        BitSetIter { bits, offset: if bits == 0 { usize::MAX } else { 0 } }
    }

    /// The members in increasing order, read from one snapshot of the word.
    pub fn to_vec(&self) -> (v: Vec<usize>)
        ensures
            v@ == self.members(),
    {
        let mut it = self.iter();
        let mut v: Vec<usize> = Vec::new();
        if it.offset != 0 {
            proof {
                lemma_members_of_zero(usize::BITS as nat);
            }
        }
        loop
            invariant
                it.bits == self.bits,
                it.offset == usize::MAX || it.offset <= usize::BITS,
                it.offset == usize::MAX ==> self.bits == 0,
                v@ == set_bits_below(self.bits, (if it.offset > usize::BITS {
                    usize::BITS as nat
                } else {
                    it.offset as nat
                })),
            ensures
                v@ == self.members(),
            decreases (if it.offset > usize::BITS { 0 } else { usize::BITS - it.offset + 1 }),
        {
            let ghost from = it.offset;
            match it.next() {
                Some(j) => {
                    proof {
                        lemma_no_bits_between(self.bits, from as nat, j as nat);
                    }
                    v.push(j);
                },
                None => {
                    proof {
                        if from <= usize::BITS {
                            lemma_no_bits_between(self.bits, from as nat, usize::BITS as nat);
                        }
                    }
                    return v;
                },
            }
        }
    }
}

/// The first set bit at or after `o`, if any.
pub open spec fn first_set_from(bits: usize, o: nat) -> Option<usize>
    decreases usize::BITS - o,
{
    if o >= usize::BITS {
        None
    } else if bit_set(bits, o as usize) {
        Some(o as usize)
    } else {
        first_set_from(bits, o + 1)
    }
}

/// The set bits at or after `o`, in increasing order.
pub open spec fn set_bits_from(bits: usize, o: nat) -> Seq<usize>
    decreases usize::BITS - o,
{
    if o >= usize::BITS {
        Seq::empty()
    } else {
        let rest = set_bits_from(bits, o + 1);
        if bit_set(bits, o as usize) {
            seq![o as usize] + rest
        } else {
            rest
        }
    }
}

/// The iterator that `iter` returns for a word: at 0, or past the end at
/// once when the word is 0.
pub open spec fn iter_start(bits: usize) -> BitSetIter {
    BitSetIter { bits, offset: if bits == 0 { usize::MAX } else { 0 } }
}

/// One call of `next`: the cursor after it and what it returns.
pub open spec fn next_step(it: BitSetIter) -> (BitSetIter, Option<usize>) {
    match first_set_from(it.bits, it.offset as nat) {
        Some(j) => (BitSetIter { bits: it.bits, offset: (j + 1) as usize }, Some(j)),
        None => (
            BitSetIter {
                bits: it.bits,
                offset: if it.offset < usize::BITS {
                    usize::BITS as usize
                } else {
                    it.offset
                },
            },
            None,
        ),
    }
}

/// What `n` successive calls of `next` return.
pub open spec fn iter_outputs(it: BitSetIter, n: nat) -> Seq<Option<usize>>
    decreases n,
{
    if n == 0 {
        Seq::empty()
    } else {
        let (next_it, r) = next_step(it);
        seq![r] + iter_outputs(next_it, (n - 1) as nat)
    }
}

/// A cursor over the members of a bit set: the next member looked at is
/// the first set bit at or after `offset`.
#[derive(Clone, Copy, Debug, PartialEq, Eq, Structural)]
pub struct BitSetIter {
    pub bits: usize,
    pub offset: usize,
}

impl BitSetIter {
    /// The next member at or after the cursor, moving the cursor past it;
    /// `None` once no set bit is left.
    pub fn next(&mut self) -> (r: Option<usize>)
        ensures
            (*final(self), r) == next_step(*old(self)),
            final(self).bits == old(self).bits,
            match r {
                Some(j) => {
                    &&& old(self).offset <= j < usize::BITS
                    &&& bit_set(old(self).bits, j)
                    &&& forall|m: usize| old(self).offset <= m < j ==> !bit_set(old(self).bits, m)
                    &&& final(self).offset == j + 1
                },
                None => {
                    &&& forall|m: usize|
                        old(self).offset <= m < usize::BITS ==> !bit_set(old(self).bits, m)
                    &&& final(self).offset == (if old(self).offset < usize::BITS {
                        usize::BITS as usize
                    } else {
                        old(self).offset
                    })
                },
            },
    {
        while self.offset < usize::BITS as usize
            invariant
                self.bits == old(self).bits,
                old(self).offset <= self.offset,
                self.offset <= usize::BITS || self.offset == old(self).offset,
                forall|m: usize| old(self).offset <= m < self.offset ==> !bit_set(self.bits, m),
                first_set_from(self.bits, old(self).offset as nat) == first_set_from(
                    self.bits,
                    self.offset as nat,
                ),
            decreases usize::BITS - self.offset,
        {
            let set_bit = if (self.bits & (1usize << self.offset)) != 0 {
                Some(self.offset)
            } else {
                None
            };
            proof {
                lemma_bit_toggle(self.bits, self.offset, self.offset);
            }
            self.offset = self.offset + 1;
            if set_bit.is_some() {
                return set_bit;
            }
        }
        None
    }
}

/// With no set bit in `[a, b)`, the members below `b` are those below `a`;
/// with one set bit at `b` itself, it comes next.
proof fn lemma_no_bits_between(bits: usize, a: nat, b: nat)
    requires
        a <= b <= usize::BITS,
        forall|m: usize| a <= m < b ==> !bit_set(bits, m),
    ensures
        set_bits_below(bits, b) == set_bits_below(bits, a),
        b < usize::BITS && bit_set(bits, b as usize) ==> set_bits_below(bits, b + 1) == set_bits_below(
            bits,
            a,
        ).push(b as usize),
    decreases b - a,
{
    if a < b {
        lemma_no_bits_between(bits, a, (b - 1) as nat);
        assert(!bit_set(bits, (b - 1) as usize));
    }
}

/// Each element of the members sequence is a member.
pub proof fn lemma_members_are_members(s: AtomicBitSet, k: int)
    requires
        0 <= k < s.members().len(),
    ensures
        s.has(s.members()[k]),
{
    lemma_set_bits_below_members(s.bits, usize::BITS as nat);
}

proof fn lemma_set_bits_below_members(bits: usize, n: nat)
    requires
        n <= usize::BITS,
    ensures
        forall|k: int|
            0 <= k < set_bits_below(bits, n).len() ==> {
                let i = #[trigger] set_bits_below(bits, n)[k];
                i < n && bit_set(bits, i)
            },
    decreases n,
{
    if n > 0 {
        lemma_set_bits_below_members(bits, (n - 1) as nat);
        let prev = set_bits_below(bits, (n - 1) as nat);
        let cur = set_bits_below(bits, n);
        assert forall|k: int| 0 <= k < cur.len() implies ({
            let i = #[trigger] cur[k];
            i < n && bit_set(bits, i)
        }) by {
            if k < prev.len() {
                assert(cur[k] == prev[k]);
            }
        }
    }
}

/// The set whose word is 0 has no member.
pub proof fn lemma_zero_word_is_empty()
    ensures
        (AtomicBitSet { bits: 0 })@ == Set::<usize>::empty(),
{
    assert forall|i: usize| !(AtomicBitSet { bits: 0 }).has(i) by {
        if i < usize::BITS {
            lemma_zero_has_no_bits(i);
        }
    }
    assert((AtomicBitSet { bits: 0 })@ =~= Set::<usize>::empty());
}

/// The word 0 has no member below `n`.
pub proof fn lemma_members_of_zero(n: nat)
    requires
        n <= usize::BITS,
    ensures
        set_bits_below(0usize, n) == Seq::<usize>::empty(),
    decreases n,
{
    if n > 0 {
        lemma_members_of_zero((n - 1) as nat);
        lemma_zero_has_no_bits((n - 1) as usize);
    }
}

} // verus!
