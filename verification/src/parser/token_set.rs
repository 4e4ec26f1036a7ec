//! Dense bitset over `u32` token ids: the lookahead-set representation.
//!
//! The view is a `Seq<bool>` of length equal to the capacity (a multiple of
//! the 64-bit block size); entry `t` says whether token `t` is in the set.
use vstd::prelude::*;

verus! {

pub const TOKEN_BLOCK_NBITS: usize = 64;

/// True iff bit `i` (with `0 <= i < 64`) of the block `w` is set.
pub open spec fn token_block_bit(w: u64, i: u64) -> bool {
    (w >> i) & 1u64 == 1u64
}

/// The sequence of bits stored by a sequence of 64-bit blocks.
pub open spec fn token_blocks_bits(s: Seq<u64>) -> Seq<bool> {
    Seq::new(s.len() * 64, |i: int| token_block_bit(s[i / 64], (i % 64) as u64))
}

pub struct TokenSet {
    blocks: Vec<u64>,
}

proof fn lemma_or_bit(a: u64, b: u64, i: u64)
    by (bit_vector)
    requires
        i < 64,
    ensures
        token_block_bit(a | b, i) == (token_block_bit(a, i) || token_block_bit(b, i)),
{
}

proof fn lemma_shl_bit(j: u64, i: u64)
    by (bit_vector)
    requires
        i < 64,
        j < 64,
    ensures
        token_block_bit(1u64 << j, i) == (i == j),
{
}

proof fn lemma_zero_bit(i: u64)
    by (bit_vector)
    requires
        i < 64,
    ensures
        !token_block_bit(0u64, i),
{
}

/// Division/modulus facts that connect a bit index to its block.
proof fn lemma_bit_index(bit: int, len: int)
    by (nonlinear_arith)
    requires
        0 <= bit < len * 64,
        0 <= len,
    ensures
        0 <= bit / 64 < len,
        0 <= bit % 64 < 64,
        bit == (bit / 64) * 64 + bit % 64,
{
}

/// Two bit indices in the same block at the same offset are equal.
proof fn lemma_bit_index_inverse(i: int, j: int)
    by (nonlinear_arith)
    requires
        0 <= i,
        0 <= j,
        i / 64 == j / 64,
        i % 64 == j % 64,
    ensures
        i == j,
{
}

/// Reads one bit out of a block vector.
#[verifier::loop_isolation(false)]
fn block_vec_get(v: &Vec<u64>, bit: usize) -> (r: bool)
    requires
        bit < token_blocks_bits(v@).len(),
    ensures
        r == token_blocks_bits(v@)[bit as int],
{
    proof {
        lemma_bit_index(bit as int, v@.len() as int);
    }
    (v[bit / TOKEN_BLOCK_NBITS] >> ((bit % TOKEN_BLOCK_NBITS) as u64)) & 1u64 == 1u64
}

/// Merges two equal-length block vectors bitwise, and reports whether the
/// merge sets any bit that the first vector did not have.
#[verifier::loop_isolation(false)]
fn union_blocks(a: &Vec<u64>, b: &Vec<u64>) -> (r: (Vec<u64>, bool))
    requires
        a@.len() == b@.len(),
        a@.len() * 64 <= usize::MAX,
    ensures
        r.0@.len() == a@.len(),
        forall|i: int| 0 <= i < token_blocks_bits(a@).len()
            ==> token_blocks_bits(r.0@)[i]
                == (token_blocks_bits(a@)[i] || token_blocks_bits(b@)[i]),
        r.1 == exists|i: int| 0 <= i < token_blocks_bits(a@).len()
            && !token_blocks_bits(a@)[i] && token_blocks_bits(b@)[i],
{
    let n: usize = a.len();

    // First pass (read-only): is any bit of `b` missing from `a`?
    let mut changed = false;
    let mut k: usize = 0;
    while k / TOKEN_BLOCK_NBITS < n
        invariant
            k <= n * 64,
            changed == exists|j: int| 0 <= j < k
                && !token_blocks_bits(a@)[j] && token_blocks_bits(b@)[j],
        decreases n * 64 - k,
    {
        proof {
            assert(k < n * 64) by (nonlinear_arith)
                requires k / 64 < n, n >= 0, k >= 0;
        }
        if block_vec_get(b, k) && !block_vec_get(a, k) {
            changed = true;
        }
        k = k + 1;
    }
    proof {
        assert(k >= n * 64) by (nonlinear_arith)
            requires k / 64 >= n, k >= 0;
    }

    // Second pass: merge block by block into a fresh vector.
    let mut out: Vec<u64> = Vec::new();
    let mut t: usize = 0;
    while t < n
        invariant
            out@.len() == t,
            t <= n,
            forall|j: int| 0 <= j < t ==> out@[j] == (a@[j] | b@[j]),
        decreases n - t,
    {
        let w: u64 = a[t] | b[t];
        out.push(w);
        t = t + 1;
    }
    proof {
        assert forall|i: int| 0 <= i < token_blocks_bits(a@).len() implies
            token_blocks_bits(out@)[i]
                == (token_blocks_bits(a@)[i] || token_blocks_bits(b@)[i]) by {
            lemma_bit_index(i, n as int);
            lemma_or_bit(a@[i / 64], b@[i / 64], (i % 64) as u64);
        }
    }
    (out, changed)
}

impl View for TokenSet {
    type V = Seq<bool>;

    closed spec fn view(&self) -> Seq<bool> {
        token_blocks_bits(self.blocks@)
    }
}

impl TokenSet {
    /// Capacity in bits; every stored token id is below this.
    pub open spec fn capacity(&self) -> int {
        self@.len() as int
    }

    /// Creates an empty set able to hold tokens `0 .. num_tokens` (rounded up
    /// to a whole number of blocks).
    #[verifier::loop_isolation(false)]
    pub fn new(num_tokens: usize) -> (r: Self)
        requires
            num_tokens <= usize::MAX - 63,
        ensures
            r.capacity() >= num_tokens,
            r.capacity() == ((num_tokens + 63) / 64) * 64,
            forall|i: int| 0 <= i < r.capacity() ==> !r@[i],
    {
        let len: usize = (num_tokens + (TOKEN_BLOCK_NBITS - 1)) / TOKEN_BLOCK_NBITS;
        let mut blocks: Vec<u64> = Vec::new();
        let mut k: usize = 0;
        while k < len
            invariant
                k <= len,
                blocks@.len() == k,
                forall|j: int| 0 <= j < k ==> blocks@[j] == 0u64,
            decreases len - k,
        {
            blocks.push(0u64);
            k = k + 1;
        }
        let r = TokenSet { blocks };
        proof {
            assert forall|i: int| 0 <= i < r.capacity() implies !r@[i] by {
                lemma_bit_index(i, r.blocks@.len() as int);
                lemma_zero_bit((i % 64) as u64);
            }
            assert(r.capacity() == len * 64);
            assert(((num_tokens + 63) / 64) * 64 >= num_tokens) by (nonlinear_arith);
        }
        r
    }

    /// Creates a set holding exactly the token `token`.
    pub fn from_token(num_tokens: usize, token: u32) -> (r: Self)
        requires
            num_tokens <= usize::MAX - 63,
            token < ((num_tokens + 63) / 64) * 64,
        ensures
            r.capacity() == ((num_tokens + 63) / 64) * 64,
            forall|i: int| 0 <= i < r.capacity() ==> r@[i] == (i == token),
    {
        let mut s = Self::new(num_tokens);
        s.insert(token);
        s
    }

    /// Resets every bit to false; the capacity is unchanged.
    #[verifier::loop_isolation(false)]
    pub fn clear(&mut self)
        ensures
            final(self).capacity() == old(self).capacity(),
            forall|i: int| 0 <= i < final(self).capacity() ==> !final(self)@[i],
    {
        let n: usize = self.blocks.len();
        let mut k: usize = 0;
        while k < n
            invariant
                k <= n,
                self.blocks@.len() == n,
                forall|j: int| 0 <= j < k ==> self.blocks@[j] == 0u64,
            decreases n - k,
        {
            self.blocks.set(k, 0u64);
            k = k + 1;
        }
        proof {
            assert forall|i: int| 0 <= i < self.capacity() implies !self@[i] by {
                lemma_bit_index(i, self.blocks@.len() as int);
                lemma_zero_bit((i % 64) as u64);
            }
        }
    }

    /// Sets the bit for `token` to true; all other bits keep their value.
    pub fn insert(&mut self, token: u32)
        requires
            token < old(self).capacity(),
        ensures
            final(self).capacity() == old(self).capacity(),
            forall|i: int| 0 <= i < final(self).capacity()
                ==> final(self)@[i] == (old(self)@[i] || i == token),
    {
        proof {
            lemma_bit_index(token as int, self.blocks@.len() as int);
        }
        let bit: usize = token as usize;
        let block_ix: usize = bit / TOKEN_BLOCK_NBITS;
        let w: u64 = self.blocks[block_ix];
        self.blocks.set(block_ix, w | (1u64 << ((bit % TOKEN_BLOCK_NBITS) as u64)));
        proof {
            let ghost len = self.blocks@.len() as int;
            assert forall|i: int| 0 <= i < self.capacity() implies
                self@[i] == (old(self)@[i] || i == token) by {
                lemma_bit_index(i, len);
                lemma_bit_index(token as int, len);
                if i / 64 == token as int / 64 {
                    lemma_or_bit(old(self).blocks@[i / 64], 1u64 << ((token as u64) % 64),
                        (i % 64) as u64);
                    lemma_shl_bit((token as u64) % 64, (i % 64) as u64);
                    if i % 64 == token as int % 64 {
                        lemma_bit_index_inverse(i, token as int);
                    }
                } else {
                    assert(i != token);
                }
            }
        }
    }

    /// True iff `token` is in the set.
    pub fn get(&self, token: u32) -> (r: bool)
        requires
            token < self.capacity(),
        ensures
            r == self@[token as int],
    {
        proof {
            lemma_bit_index(token as int, self.blocks@.len() as int);
        }
        let bit: usize = token as usize;
        (self.blocks[bit / TOKEN_BLOCK_NBITS] >> ((bit % TOKEN_BLOCK_NBITS) as u64)) & 1u64
            == 1u64
    }

    /// Unions `other` into `self`, bit by bit. Returns whether any bit of
    /// `self` was newly set, so fixpoint loops can detect a change.
    pub fn union_with(&mut self, other: &TokenSet) -> (changed: bool)
        requires
            other.capacity() == old(self).capacity(),
            old(self).capacity() <= usize::MAX,
        ensures
            final(self).capacity() == old(self).capacity(),
            forall|i: int| 0 <= i < final(self).capacity()
                ==> final(self)@[i] == (old(self)@[i] || other@[i]),
            changed == exists|i: int| 0 <= i < old(self).capacity() && !old(self)@[i] && other@[i],
    {
        proof {
            assert(other.blocks@.len() == old(self).blocks@.len());
        }
        let (merged, changed) = union_blocks(&self.blocks, &other.blocks);
        *self = TokenSet { blocks: merged };
        changed
    }

    /// Ascending iterator over the tokens in the set.
    pub fn iter<'a>(&'a self) -> (r: Iter<'a>)
        ensures
            r.set == self,
            r.pos == 0,
    {
        Iter { set: self, pos: 0 }
    }
}

/// Iterator state: all set tokens with id `>= pos` are still to be yielded.
pub struct Iter<'a> {
    pub set: &'a TokenSet,
    pub pos: usize,
}

impl<'a> Iter<'a> {
    /// Yields the smallest set token with id `>= pos`, if any, and advances
    /// just past it.
    #[verifier::loop_isolation(false)]
    pub fn next(&mut self) -> (r: Option<u32>)
        requires
            old(self).pos <= old(self).set.capacity(),
            old(self).set.capacity() <= u32::MAX,
        ensures
            final(self).set == old(self).set,
            match r {
                Some(b) => {
                    &&& old(self).pos <= b < old(self).set.capacity()
                    &&& old(self).set@[b as int]
                    &&& forall|j: int| old(self).pos <= j < b ==> !old(self).set@[j]
                    &&& final(self).pos == b + 1
                },
                None => {
                    &&& forall|j: int| old(self).pos <= j < old(self).set.capacity()
                        ==> !old(self).set@[j]
                    &&& final(self).pos == old(self).set.capacity()
                },
            },
    {
        let n: usize = self.set.blocks.len();
        proof {
            assert(self.set.capacity() == n * 64);
        }
        while self.pos / TOKEN_BLOCK_NBITS < n
            invariant
                self.set == old(self).set,
                n == self.set.blocks@.len(),
                self.set.capacity() == n * 64,
                old(self).pos <= self.pos,
                self.pos <= self.set.capacity(),
                forall|j: int| old(self).pos <= j < self.pos ==> !self.set@[j],
            decreases self.set.capacity() - self.pos,
        {
            proof {
                assert(self.pos < n * 64) by (nonlinear_arith)
                    requires self.pos / 64 < n, n >= 0;
            }
            if block_vec_get(&self.set.blocks, self.pos) {
                let b: usize = self.pos;
                self.pos = b + 1;
                return Some(b as u32);
            }
            self.pos = self.pos + 1;
        }
        proof {
            assert(self.pos >= n * 64) by (nonlinear_arith)
                requires self.pos / 64 >= n, self.pos >= 0;
        }
        None
    }
}

} // verus!
