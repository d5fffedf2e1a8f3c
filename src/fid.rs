//! A fully indexable bit-vector: constant-time access and rank, select by
//! binary search over per-block population counts.
use vstd::prelude::*;
use vstd::string::StringSliceAdditionalSpecFns;

verus! {

/// Number of bits covered by one entry of the block index.
pub const BLOCK: usize = 64;

/// Number of positions `j < n` with `s[j] == b`.
pub open spec fn count(s: Seq<bool>, n: int, b: bool) -> nat
    decreases n,
{
    if n <= 0 {
        0
    } else {
        count(s, n - 1, b) + if s[n - 1] == b { 1nat } else { 0nat }
    }
}

/// Number of set bits in `s[0..n)`.
pub open spec fn ones(s: Seq<bool>, n: int) -> nat {
    count(s, n, true)
}

/// Number of unset bits in `s[0..n)`.
pub open spec fn zeros(s: Seq<bool>, n: int) -> nat {
    count(s, n, false)
}

/// Position `p` holds the `k`-th bit equal to `b` (1-based `k`).
pub open spec fn is_kth(s: Seq<bool>, b: bool, k: int, p: int) -> bool {
    0 <= p < s.len() && s[p] == b && count(s, p + 1, b) == k
}

/// What `select` over bits equal to `b` answers for `k`: position 0 for
/// `k == 0`, the position of the `k`-th such bit if there is one, else none.
pub open spec fn select_spec(s: Seq<bool>, b: bool, k: int, r: Option<u64>) -> bool {
    if k == 0 {
        r == Some(0u64)
    } else if k <= count(s, s.len() as int, b) {
        r.is_some() && is_kth(s, b, k, r.unwrap() as int)
    } else {
        r.is_none()
    }
}

pub proof fn lemma_count_bounded(s: Seq<bool>, n: int, b: bool)
    requires
        0 <= n,
    ensures
        count(s, n, b) <= n,
    decreases n,
{
    if n > 0 {
        lemma_count_bounded(s, n - 1, b);
    }
}

/// Appending a bit leaves the counts of existing prefixes unchanged.
pub proof fn lemma_count_push(s: Seq<bool>, x: bool, n: int, b: bool)
    requires
        0 <= n <= s.len(),
    ensures
        count(s.push(x), n, b) == count(s, n, b),
    decreases n,
{
    if n > 0 {
        lemma_count_push(s, x, n - 1, b);
    }
}

pub proof fn lemma_count_mono(s: Seq<bool>, a: int, n: int, b: bool)
    requires
        0 <= a <= n,
    ensures
        count(s, a, b) <= count(s, n, b),
        count(s, n, b) <= count(s, a, b) + (n - a),
    decreases n,
{
    if a < n {
        lemma_count_mono(s, a, n - 1, b);
    }
}

/// Every position holds either a set or an unset bit.
pub proof fn lemma_count_split(s: Seq<bool>, n: int)
    requires
        0 <= n,
    ensures
        ones(s, n) + zeros(s, n) == n,
    decreases n,
{
    if n > 0 {
        lemma_count_split(s, n - 1);
    }
}

/// Between two positions with the same count no bit equal to `b` lies.
pub proof fn lemma_count_flat(s: Seq<bool>, a: int, n: int, j: int, b: bool)
    requires
        0 <= a <= j < n <= s.len(),
        count(s, a, b) == count(s, n, b),
    ensures
        s[j] != b,
{
    lemma_count_mono(s, a, j, b);
    lemma_count_mono(s, j + 1, n, b);
}

/// A bit-vector with a block index of cumulative population counts.
#[derive(Clone, Debug)]
pub struct Fid {
    bits: Vec<bool>,
    /// `block_ones[k]` is the number of set bits in `bits[0 .. k * BLOCK)`.
    block_ones: Vec<u64>,
}

impl View for Fid {
    type V = Seq<bool>;

    closed spec fn view(&self) -> Seq<bool> {
        self.bits@
    }
}

impl Fid {
    /// The block index agrees with the bits.
    pub closed spec fn wf(&self) -> bool {
        &&& self.bits@.len() <= usize::MAX
        &&& self.block_ones@.len() == self.bits@.len() as int / (BLOCK as int) + 1
        &&& forall|k: int|
            0 <= k < self.block_ones@.len() ==> #[trigger] self.block_ones@[k] == ones(
                self.bits@,
                k * BLOCK,
            )
    }

    /// A well-formed bit-vector's length fits in a `usize`.
    pub proof fn lemma_len_bound(&self)
        requires
            self.wf(),
        ensures
            self@.len() <= usize::MAX,
    {
    }

    /// Builds the bit-vector and its block index from a sequence of bits.
    pub fn from_bools(bits: &[bool]) -> (r: Fid)
        ensures
            r.wf(),
            r@ == bits@,
    {
        let n = bits.len();
        let mut v: Vec<bool> = Vec::new();
        let mut blocks: Vec<u64> = Vec::new();
        let mut cnt: u64 = 0;
        let mut i: usize = 0;
        while i < n
            invariant
                n == bits@.len(),
                n <= usize::MAX,
                i <= n,
                v@ == bits@.subrange(0, i as int),
                cnt == ones(bits@, i as int),
                blocks@.len() == (i + BLOCK - 1) / (BLOCK as int),
                forall|k: int|
                    0 <= k < blocks@.len() ==> #[trigger] blocks@[k] == ones(bits@, k * BLOCK),
            decreases n - i,
        {
            if i % BLOCK == 0 {
                blocks.push(cnt);
            }
            proof {
                lemma_count_bounded(bits@, i as int, true);
            }
            if bits[i] {
                cnt = cnt + 1;
            }
            v.push(bits[i]);
            i = i + 1;
        }
        if n % BLOCK == 0 {
            blocks.push(cnt);
        }
        assert(v@ =~= bits@);
        Fid { bits: v, block_ones: blocks }
    }

    /// Number of bits.
    pub fn len(&self) -> (r: u64)
        requires
            self.wf(),
        ensures
            r == self@.len(),
    {
        self.bits.len() as u64
    }

    /// The bit at position `i`.
    pub fn access(&self, i: u64) -> (r: bool)
        requires
            self.wf(),
            i < self@.len(),
        ensures
            r == self@[i as int],
    {
        proof {
            self.lemma_len_bound();
        }
        self.bits[i as usize]
    }

    /// Builds the bit-vector from a text of `'0'` and `'1'` characters.
    pub fn from_bit_str(s: &str) -> (r: Fid)
        requires
            forall|j: int|
                0 <= j < s.spec_bytes().len() ==> #[trigger] s.spec_bytes()[j] == 48u8
                    || s.spec_bytes()[j] == 49u8,
        ensures
            r.wf(),
            r@ == s.spec_bytes().map_values(|c: u8| c == 49u8),
    {
        let bytes = s.as_bytes();
        let mut v: Vec<bool> = Vec::new();
        let mut i: usize = 0;
        while i < bytes.len()
            invariant
                bytes@ == s.spec_bytes(),
                i <= bytes@.len(),
                v@ == bytes@.subrange(0, i as int).map_values(|c: u8| c == 49u8),
            decreases bytes@.len() - i,
        {
            v.push(bytes[i] == 49u8);
            i = i + 1;
            assert(v@ =~= bytes@.subrange(0, i as int).map_values(|c: u8| c == 49u8));
        }
        assert(bytes@.subrange(0, i as int) =~= bytes@);
        Fid::from_bools(v.as_slice())
    }

    /// Number of bits equal to `b` before block `k`.
    fn block_count(&self, k: usize, b: bool) -> (r: u64)
        requires
            self.wf(),
            k < self.block_ones@.len(),
        ensures
            r == count(self@, k * BLOCK, b),
            k * BLOCK <= self@.len(),
    {
        let o = self.block_ones[k];
        proof {
            let n = self.bits@.len() as int;
            assert(k * BLOCK <= n) by (nonlinear_arith)
                requires
                    k <= n / (BLOCK as int),
                    BLOCK == 64,
            ;
            lemma_count_split(self.bits@, k * BLOCK);
        }
        if b {
            o
        } else {
            (k as u64) * (BLOCK as u64) - o
        }
    }

    /// Number of bits equal to `b` in positions `[0, i]`.
    fn rank_bit(&self, i: u64, b: bool) -> (r: u64)
        requires
            self.wf(),
            i < self@.len(),
        ensures
            r == count(self@, i + 1, b),
    {
        let n = self.bits.len();
        let iu = i as usize;
        let k = iu / BLOCK;
        let mut cnt = self.block_count(k, b);
        let mut j: usize = k * BLOCK;
        while j <= iu
            invariant
                self.wf(),
                iu < n == self.bits@.len(),
                j <= iu + 1,
                cnt == count(self.bits@, j as int, b),
            decreases iu + 1 - j,
        {
            proof {
                lemma_count_bounded(self.bits@, j as int, b);
            }
            if self.bits[j] == b {
                cnt = cnt + 1;
            }
            j = j + 1;
        }
        cnt
    }

    /// Position of the `k`-th bit equal to `b`: binary search over the block
    /// index, then a scan inside one block.
    fn select_bit(&self, k: u64, b: bool) -> (r: Option<u64>)
        requires
            self.wf(),
        ensures
            select_spec(self@, b, k as int, r),
    {
        if k == 0 {
            return Some(0);
        }
        let n = self.bits.len();
        let nb = self.block_ones.len();
        let mut lo: usize = 0;
        let mut hi: usize = nb;
        assert(count(self.bits@, 0 * BLOCK, b) == 0);
        while hi - lo > 1
            invariant
                self.wf(),
                nb == self.block_ones@.len(),
                lo < hi <= nb,
                count(self.bits@, lo * BLOCK, b) < k,
            decreases hi - lo,
        {
            let mid = lo + (hi - lo) / 2;
            if self.block_count(mid, b) < k {
                lo = mid;
            } else {
                hi = mid;
            }
        }
        let mut cnt = self.block_count(lo, b);
        let mut j: usize = lo * BLOCK;
        while j < n
            invariant
                self.wf(),
                n == self.bits@.len(),
                j <= n,
                cnt == count(self.bits@, j as int, b),
                cnt < k,
            decreases n - j,
        {
            if self.bits[j] == b {
                cnt = cnt + 1;
                if cnt == k {
                    proof {
                        lemma_count_mono(self.bits@, j + 1, n as int, b);
                    }
                    return Some(j as u64);
                }
            }
            j = j + 1;
        }
        None
    }

    /// Number of set bits in positions `[0, i]`.
    pub fn rank(&self, i: u64) -> (r: u64)
        requires
            self.wf(),
            i < self@.len(),
        ensures
            r == ones(self@, i + 1),
    {
        self.rank_bit(i, true)
    }

    /// Number of unset bits in positions `[0, i]`.
    pub fn rank0(&self, i: u64) -> (r: u64)
        requires
            self.wf(),
            i < self@.len(),
        ensures
            r == zeros(self@, i + 1),
    {
        self.rank_bit(i, false)
    }

    /// Position of the `k`-th set bit (`Some(0)` for `k == 0`), or `None`
    /// when fewer than `k` bits are set.
    pub fn select(&self, k: u64) -> (r: Option<u64>)
        requires
            self.wf(),
        ensures
            select_spec(self@, true, k as int, r),
    {
        self.select_bit(k, true)
    }

    /// Position of the `k`-th unset bit (`Some(0)` for `k == 0`), or `None`
    /// when fewer than `k` bits are unset.
    pub fn select0(&self, k: u64) -> (r: Option<u64>)
        requires
            self.wf(),
        ensures
            select_spec(self@, false, k as int, r),
    {
        self.select_bit(k, false)
    }
}

} // verus!
