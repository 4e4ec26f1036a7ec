//! Dense bitset over `usize` indices, used for terminal sets.
//!
//! The view of a `BitSet` is a `Seq<bool>` whose length is the capacity
//! (a multiple of the 64-bit block size). `union_with` reports whether any
//! bit was newly set, which the fixpoint loops use as their change signal.
use vstd::prelude::*;

verus! {

pub const BLOCK_NBITS: usize = 64;

/// True iff bit `i` (with `0 <= i < 64`) of the block `w` is set.
pub open spec fn block_bit(w: u64, i: u64) -> bool {
    (w >> i) & 1u64 == 1u64
}

/// The sequence of bits stored by a sequence of 64-bit blocks.
pub open spec fn blocks_bits(s: Seq<u64>) -> Seq<bool> {
    Seq::new(s.len() * 64, |i: int| block_bit(s[i / 64], (i % 64) as u64))
}

pub struct BitSet {
    blocks: Vec<u64>,
}

proof fn lemma_or_bit(a: u64, b: u64, i: u64)
    by (bit_vector)
    requires
        i < 64,
    ensures
        block_bit(a | b, i) == (block_bit(a, i) || block_bit(b, i)),
{
}

proof fn lemma_shl_bit(j: u64, i: u64)
    by (bit_vector)
    requires
        i < 64,
        j < 64,
    ensures
        block_bit(1u64 << j, i) == (i == j),
{
}

proof fn lemma_zero_bit(i: u64)
    by (bit_vector)
    requires
        i < 64,
    ensures
        !block_bit(0u64, i),
{
}

/// Division/modulus facts that connect a bit index to its block.
proof fn lemma_bit_index(bit: int, len: int)
    by (nonlinear_arith)
    requires
        0 <= bit < len * 64,
        0 <= len,
    ensures
        0 <= bit / 64 < len,
        0 <= bit % 64 < 64,
        bit == (bit / 64) * 64 + bit % 64,
{
}

/// Two bit indices in the same block at the same offset are equal.
proof fn lemma_bit_index_inverse(i: int, j: int)
    by (nonlinear_arith)
    requires
        0 <= i,
        0 <= j,
        i / 64 == j / 64,
        i % 64 == j % 64,
    ensures
        i == j,
{
}

/// Reads one bit out of a block vector.
#[verifier::loop_isolation(false)]
fn block_vec_get(v: &Vec<u64>, bit: usize) -> (r: bool)
    requires
        bit < blocks_bits(v@).len(),
    ensures
        r == blocks_bits(v@)[bit as int],
{
    proof {
        lemma_bit_index(bit as int, v@.len() as int);
    }
    (v[bit / BLOCK_NBITS] >> ((bit % BLOCK_NBITS) as u64)) & 1u64 == 1u64
}

/// Merges two equal-length block vectors bitwise, and reports whether the
/// merge sets any bit that the first vector did not have.
#[verifier::loop_isolation(false)]
fn union_blocks(a: &Vec<u64>, b: &Vec<u64>) -> (r: (Vec<u64>, bool))
    requires
        a@.len() == b@.len(),
        a@.len() * 64 <= usize::MAX,
    ensures
        r.0@.len() == a@.len(),
        forall|i: int| 0 <= i < blocks_bits(a@).len()
            ==> blocks_bits(r.0@)[i] == (blocks_bits(a@)[i] || blocks_bits(b@)[i]),
        r.1 == exists|i: int| 0 <= i < blocks_bits(a@).len()
            && !blocks_bits(a@)[i] && blocks_bits(b@)[i],
{
    let n: usize = a.len();

    // First pass (read-only): is any bit of `b` missing from `a`?
    let mut changed = false;
    let mut k: usize = 0;
    while k / BLOCK_NBITS < n
        invariant
            k <= n * 64,
            changed == exists|j: int| 0 <= j < k && !blocks_bits(a@)[j] && blocks_bits(b@)[j],
        decreases n * 64 - k,
    {
        proof {
            assert(k < n * 64) by (nonlinear_arith)
                requires k / 64 < n, n >= 0, k >= 0;
        }
        if block_vec_get(b, k) && !block_vec_get(a, k) {
            changed = true;
        }
        k = k + 1;
    }
    proof {
        assert(k >= n * 64) by (nonlinear_arith)
            requires k / 64 >= n, k >= 0;
    }

    // Second pass: merge block by block into a fresh vector.
    let mut out: Vec<u64> = Vec::new();
    let mut t: usize = 0;
    while t < n
        invariant
            out@.len() == t,
            t <= n,
            forall|j: int| 0 <= j < t ==> out@[j] == (a@[j] | b@[j]),
        decreases n - t,
    {
        let w: u64 = a[t] | b[t];
        out.push(w);
        t = t + 1;
    }
    proof {
        assert forall|i: int| 0 <= i < blocks_bits(a@).len() implies
            blocks_bits(out@)[i] == (blocks_bits(a@)[i] || blocks_bits(b@)[i]) by {
            lemma_bit_index(i, n as int);
            lemma_or_bit(a@[i / 64], b@[i / 64], (i % 64) as u64);
        }
    }
    (out, changed)
}

impl View for BitSet {
    type V = Seq<bool>;

    closed spec fn view(&self) -> Seq<bool> {
        blocks_bits(self.blocks@)
    }
}

impl BitSet {
    /// Capacity in bits; every stored bit index is below this.
    pub open spec fn capacity(&self) -> int {
        self@.len() as int
    }

    /// Creates an empty set able to hold bits `0 .. num_bits` (rounded up to
    /// a whole number of blocks).
    #[verifier::loop_isolation(false)]
    pub fn new(num_bits: usize) -> (r: Self)
        requires
            num_bits <= usize::MAX - 63,
        ensures
            r.capacity() >= num_bits,
            r.capacity() == ((num_bits + 63) / 64) * 64,
            forall|i: int| 0 <= i < r.capacity() ==> !r@[i],
    {
        let len: usize = (num_bits + (BLOCK_NBITS - 1)) / BLOCK_NBITS;
        let mut blocks: Vec<u64> = Vec::new();
        let mut k: usize = 0;
        while k < len
            invariant
                k <= len,
                blocks@.len() == k,
                forall|j: int| 0 <= j < k ==> blocks@[j] == 0u64,
            decreases len - k,
        {
            blocks.push(0u64);
            k = k + 1;
        }
        let r = BitSet { blocks };
        proof {
            assert forall|i: int| 0 <= i < r.capacity() implies !r@[i] by {
                lemma_bit_index(i, r.blocks@.len() as int);
                lemma_zero_bit((i % 64) as u64);
            }
            assert(r.capacity() == len * 64);
            assert(((num_bits + 63) / 64) * 64 >= num_bits) by (nonlinear_arith);
        }
        r
    }

    /// Creates a set holding exactly the bit `bit`.
    pub fn from_bit(num_bits: usize, bit: usize) -> (r: Self)
        requires
            num_bits <= usize::MAX - 63,
            bit < ((num_bits + 63) / 64) * 64,
        ensures
            r.capacity() == ((num_bits + 63) / 64) * 64,
            forall|i: int| 0 <= i < r.capacity() ==> r@[i] == (i == bit),
    {
        let mut s = Self::new(num_bits);
        s.insert(bit);
        s
    }

    /// Resets every bit to false; the capacity is unchanged.
    #[verifier::loop_isolation(false)]
    pub fn clear(&mut self)
        ensures
            final(self).capacity() == old(self).capacity(),
            forall|i: int| 0 <= i < final(self).capacity() ==> !final(self)@[i],
    {
        let n: usize = self.blocks.len();
        let mut k: usize = 0;
        while k < n
            invariant
                k <= n,
                self.blocks@.len() == n,
                forall|j: int| 0 <= j < k ==> self.blocks@[j] == 0u64,
            decreases n - k,
        {
            self.blocks.set(k, 0u64);
            k = k + 1;
        }
        proof {
            assert forall|i: int| 0 <= i < self.capacity() implies !self@[i] by {
                lemma_bit_index(i, self.blocks@.len() as int);
                lemma_zero_bit((i % 64) as u64);
            }
        }
    }

    /// Sets bit `bit` to true; all other bits keep their value.
    pub fn insert(&mut self, bit: usize)
        requires
            bit < old(self).capacity(),
        ensures
            final(self).capacity() == old(self).capacity(),
            forall|i: int| 0 <= i < final(self).capacity()
                ==> final(self)@[i] == (old(self)@[i] || i == bit),
    {
        proof {
            lemma_bit_index(bit as int, self.blocks@.len() as int);
        }
        let block_ix: usize = bit / BLOCK_NBITS;
        let w: u64 = self.blocks[block_ix];
        self.blocks.set(block_ix, w | (1u64 << ((bit % BLOCK_NBITS) as u64)));
        proof {
            let ghost len = self.blocks@.len() as int;
            assert forall|i: int| 0 <= i < self.capacity() implies
                self@[i] == (old(self)@[i] || i == bit) by {
                lemma_bit_index(i, len);
                lemma_bit_index(bit as int, len);
                if i / 64 == bit as int / 64 {
                    lemma_or_bit(old(self).blocks@[i / 64], 1u64 << ((bit % 64) as u64),
                        (i % 64) as u64);
                    lemma_shl_bit((bit % 64) as u64, (i % 64) as u64);
                    if i % 64 == bit as int % 64 {
                        lemma_bit_index_inverse(i, bit as int);
                    }
                } else {
                    assert(i != bit);
                }
            }
        }
    }

    /// True iff bit `bit` is set.
    pub fn get(&self, bit: usize) -> (r: bool)
        requires
            bit < self.capacity(),
        ensures
            r == self@[bit as int],
    {
        proof {
            lemma_bit_index(bit as int, self.blocks@.len() as int);
        }
        (self.blocks[bit / BLOCK_NBITS] >> ((bit % BLOCK_NBITS) as u64)) & 1u64 == 1u64
    }

    /// Unions `other` into `self`, bit by bit. Returns whether any bit of
    /// `self` was newly set, so fixpoint loops can detect a change.
    #[verifier::loop_isolation(false)]
    pub fn union_with(&mut self, other: &BitSet) -> (changed: bool)
        requires
            other.capacity() == old(self).capacity(),
            old(self).capacity() <= usize::MAX,
        ensures
            final(self).capacity() == old(self).capacity(),
            forall|i: int| 0 <= i < final(self).capacity()
                ==> final(self)@[i] == (old(self)@[i] || other@[i]),
            changed == exists|i: int| 0 <= i < old(self).capacity() && !old(self)@[i] && other@[i],
    {
        proof {
            assert(other.blocks@.len() == old(self).blocks@.len());
        }
        let (merged, changed) = union_blocks(&self.blocks, &other.blocks);
        *self = BitSet { blocks: merged };
        changed
    }

    /// The union of two equal-capacity sets, as a fresh set, with the same
    /// change report as `union_with`.
    pub fn union(&self, other: &BitSet) -> (r: (BitSet, bool))
        requires
            other.capacity() == self.capacity(),
            self.capacity() <= usize::MAX,
        ensures
            r.0.capacity() == self.capacity(),
            forall|i: int| 0 <= i < self.capacity() ==> r.0@[i] == (self@[i] || other@[i]),
            r.1 == exists|i: int| 0 <= i < self.capacity() && !self@[i] && other@[i],
    {
        proof {
            assert(other.blocks@.len() == self.blocks@.len());
        }
        let (merged, changed) = union_blocks(&self.blocks, &other.blocks);
        (BitSet { blocks: merged }, changed)
    }

    /// Ascending iterator over the set bits.
    pub fn iter<'a>(&'a self) -> (r: Iter<'a>)
        ensures
            r.set == self,
            r.pos == 0,
    {
        Iter { set: self, pos: 0 }
    }
}

/// Iterator state: all set bits at indices `>= pos` are still to be yielded.
pub struct Iter<'a> {
    pub set: &'a BitSet,
    pub pos: usize,
}

impl<'a> Iter<'a> {
    /// Yields the smallest set bit at index `>= pos`, if any, and advances
    /// just past it.
    #[verifier::loop_isolation(false)]
    pub fn next(&mut self) -> (r: Option<usize>)
        requires
            old(self).pos <= old(self).set.capacity(),
            old(self).set.capacity() <= usize::MAX,
        ensures
            final(self).set == old(self).set,
            match r {
                Some(b) => {
                    &&& old(self).pos <= b < old(self).set.capacity()
                    &&& old(self).set@[b as int]
                    &&& forall|j: int| old(self).pos <= j < b ==> !old(self).set@[j]
                    &&& final(self).pos == b + 1
                },
                None => {
                    &&& forall|j: int| old(self).pos <= j < old(self).set.capacity()
                        ==> !old(self).set@[j]
                    &&& final(self).pos == old(self).set.capacity()
                },
            },
    {
        let n: usize = self.set.blocks.len();
        proof {
            assert(self.set.capacity() == n * 64);
        }
        while self.pos / BLOCK_NBITS < n
            invariant
                self.set == old(self).set,
                n == self.set.blocks@.len(),
                self.set.capacity() == n * 64,
                old(self).pos <= self.pos,
                self.pos <= self.set.capacity(),
                forall|j: int| old(self).pos <= j < self.pos ==> !self.set@[j],
            decreases self.set.capacity() - self.pos,
        {
            proof {
                assert(self.pos < n * 64) by (nonlinear_arith)
                    requires self.pos / 64 < n, n >= 0;
            }
            if self.set.get(self.pos) {
                let b: usize = self.pos;
                self.pos = b + 1;
                return Some(b);
            }
            self.pos = self.pos + 1;
        }
        proof {
            assert(self.pos >= n * 64) by (nonlinear_arith)
                requires self.pos / 64 >= n, self.pos >= 0;
        }
        None
    }
}

} // verus!
