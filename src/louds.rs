//! LOUDS: an ordered tree stored as a bit string, navigated by rank and select.
//!
//! The bit string starts with `10` for the root; then, for each node in
//! breadth-first order, one `1` per child and a terminating `0`. Node numbers
//! are 1-based ordinals of the `1` bits; a node's index is the position of
//! its `1` bit.
use vstd::prelude::*;
use vstd::string::StringSliceAdditionalSpecFns;
use crate::fid::{count, is_kth, lemma_count_flat, lemma_count_split, lemma_count_mono, ones, zeros, Fid};

verus! {

/// Position of a node's `1` bit in the LOUDS bit string.
#[derive(Clone, Copy, Debug, PartialEq, Eq, Structural)]
pub struct LoudsIndex(pub u64);

/// 1-based ordinal of a node among the `1` bits of the LOUDS bit string.
#[derive(Clone, Copy, Debug, PartialEq, Eq, Structural)]
pub struct LoudsNodeNum(pub u64);

/// A well-formed LOUDS bit string: it starts with `10`, every proper prefix
/// holds no more `0` than `1` bits, and the whole string holds one `0` more.
pub open spec fn is_lbs(s: Seq<bool>) -> bool {
    &&& s.len() >= 2
    &&& s[0]
    &&& !s[1]
    &&& zeros(s, s.len() as int) == ones(s, s.len() as int) + 1
    &&& forall|m: int| 0 <= m < s.len() ==> #[trigger] zeros(s, m) <= ones(s, m)
}

/// Number of nodes of the tree that `s` encodes.
pub open spec fn num_nodes(s: Seq<bool>) -> nat {
    ones(s, s.len() as int)
}

/// Index of node `n`: the position of the `n`-th `1` bit.
pub open spec fn node_num_to_index_spec(s: Seq<bool>, n: int) -> int {
    choose|p: int| is_kth(s, true, n, p)
}

/// Node number of the node at index `i`.
pub open spec fn index_to_node_num_spec(s: Seq<bool>, i: int) -> int {
    ones(s, i + 1) as int
}

/// Node number of the parent of the node at index `i`.
pub open spec fn child_to_parent_spec(s: Seq<bool>, i: int) -> int {
    zeros(s, i + 1) as int
}

/// Position of the `k`-th `0` bit.
pub open spec fn zero_pos(s: Seq<bool>, k: int) -> int {
    choose|p: int| is_kth(s, false, k, p)
}

/// First index of the children of node `n`.
pub open spec fn children_start(s: Seq<bool>, n: int) -> int {
    zero_pos(s, n) + 1
}

/// One past the last index of the children of node `n`.
pub open spec fn children_end(s: Seq<bool>, n: int) -> int {
    zero_pos(s, n + 1)
}

/// The `k`-th bit equal to `b` is at one position only.
pub proof fn lemma_kth_unique(s: Seq<bool>, b: bool, k: int, p: int, q: int)
    requires
        is_kth(s, b, k, p),
        is_kth(s, b, k, q),
    ensures
        p == q,
{
    if p < q {
        lemma_count_mono(s, p + 1, q, b);
    } else if q < p {
        lemma_count_mono(s, q + 1, p, b);
    }
}

/// For `1 <= k <= count`, the `k`-th bit equal to `b` exists.
pub proof fn lemma_kth_exists(s: Seq<bool>, b: bool, k: int, n: int)
    requires
        1 <= k <= count(s, n, b),
        n <= s.len(),
    ensures
        exists|p: int| is_kth(s, b, k, p),
    decreases n,
{
    if count(s, n - 1, b) >= k {
        lemma_kth_exists(s, b, k, n - 1);
    } else {
        assert(is_kth(s, b, k, n - 1));
    }
}

/// Node `n`'s index has node number `n`.
pub proof fn lemma_node_num_round_trip(s: Seq<bool>, n: int)
    requires
        is_lbs(s),
        1 <= n <= num_nodes(s),
    ensures
        0 <= node_num_to_index_spec(s, n) < s.len(),
        s[node_num_to_index_spec(s, n)],
        index_to_node_num_spec(s, node_num_to_index_spec(s, n)) == n,
{
    lemma_kth_exists(s, true, n, s.len() as int);
}

/// Every child index of node `n` addresses a `1` bit whose parent is `n`.
pub proof fn lemma_children_parent(s: Seq<bool>, n: int, c: int)
    requires
        is_lbs(s),
        1 <= n <= num_nodes(s),
        children_start(s, n) <= c < children_end(s, n),
    ensures
        0 <= c < s.len(),
        s[c],
        child_to_parent_spec(s, c) == n,
{
    lemma_kth_exists(s, false, n, s.len() as int);
    lemma_kth_exists(s, false, n + 1, s.len() as int);
    let z0 = zero_pos(s, n);
    let z1 = zero_pos(s, n + 1);
    lemma_count_mono(s, z0 + 1, c + 1, false);
    lemma_count_mono(s, c + 1, z1, false);
    lemma_count_flat(s, z0 + 1, z1, c, false);
}

/// A tree navigated over a LOUDS bit string.
#[derive(Clone, Debug)]
pub struct Louds {
    lbs: Fid,
}

impl View for Louds {
    type V = Seq<bool>;

    closed spec fn view(&self) -> Seq<bool> {
        self.lbs@
    }
}

impl Louds {
    pub closed spec fn wf(&self) -> bool {
        self.lbs.wf() && is_lbs(self.lbs@)
    }

    /// Wraps a well-formed LOUDS bit string.
    pub fn from_bools(bits: &[bool]) -> (r: Louds)
        requires
            is_lbs(bits@),
        ensures
            r.wf(),
            r@ == bits@,
    {
        Louds { lbs: Fid::from_bools(bits) }
    }

    /// Wraps a well-formed LOUDS bit string written as `'0'` and `'1'`.
    pub fn from_bit_str(s: &str) -> (r: Louds)
        requires
            forall|j: int|
                0 <= j < s.spec_bytes().len() ==> #[trigger] s.spec_bytes()[j] == 48u8
                    || s.spec_bytes()[j] == 49u8,
            is_lbs(s.spec_bytes().map_values(|c: u8| c == 49u8)),
        ensures
            r.wf(),
            r@ == s.spec_bytes().map_values(|c: u8| c == 49u8),
    {
        Louds { lbs: Fid::from_bit_str(s) }
    }

    /// Number of nodes.
    pub fn num_nodes(&self) -> (r: u64)
        requires
            self.wf(),
        ensures
            r == num_nodes(self@),
    {
        self.lbs.rank(self.lbs.len() - 1)
    }

    /// Index of node `n`.
    pub fn node_num_to_index(&self, n: LoudsNodeNum) -> (r: LoudsIndex)
        requires
            self.wf(),
            1 <= n.0 <= num_nodes(self@),
        ensures
            r.0 == node_num_to_index_spec(self@, n.0 as int),
    {
        proof {
            lemma_kth_exists(self@, true, n.0 as int, self@.len() as int);
        }
        let p = self.lbs.select(n.0).unwrap();
        proof {
            lemma_kth_unique(self@, true, n.0 as int, p as int, node_num_to_index_spec(self@, n.0 as int));
        }
        LoudsIndex(p)
    }

    /// Node number of the node at index `i`.
    pub fn index_to_node_num(&self, i: LoudsIndex) -> (r: LoudsNodeNum)
        requires
            self.wf(),
            i.0 < self@.len(),
            self@[i.0 as int],
        ensures
            r.0 == index_to_node_num_spec(self@, i.0 as int),
    {
        LoudsNodeNum(self.lbs.rank(i.0))
    }

    /// Node number of the parent of the node at index `i`.
    pub fn child_to_parent(&self, i: LoudsIndex) -> (r: LoudsNodeNum)
        requires
            self.wf(),
            i.0 < self@.len(),
            self@[i.0 as int],
        ensures
            r.0 == child_to_parent_spec(self@, i.0 as int),
    {
        LoudsNodeNum(self.lbs.rank0(i.0))
    }

    /// Indices of the children of node `n`, in order.
    pub fn parent_to_children(&self, n: LoudsNodeNum) -> (r: Vec<LoudsIndex>)
        requires
            self.wf(),
            1 <= n.0 <= num_nodes(self@),
        ensures
            r@.len() == children_end(self@, n.0 as int) - children_start(self@, n.0 as int),
            forall|j: int|
                0 <= j < r@.len() ==> #[trigger] r@[j].0 == children_start(self@, n.0 as int) + j,
    {
        let (start, end) = self.children_range(n);
        let mut v: Vec<LoudsIndex> = Vec::new();
        let mut i: u64 = start;
        while i < end
            invariant
                start <= i <= end,
                v@.len() == i - start,
                forall|j: int| 0 <= j < v@.len() ==> #[trigger] v@[j].0 == start + j,
            decreases end - i,
        {
            v.push(LoudsIndex(i));
            i = i + 1;
        }
        v
    }

    /// The half-open range of indices of the children of node `n`.
    pub fn children_range(&self, n: LoudsNodeNum) -> (r: (u64, u64))
        requires
            self.wf(),
            1 <= n.0 <= num_nodes(self@),
        ensures
            r.0 == children_start(self@, n.0 as int),
            r.1 == children_end(self@, n.0 as int),
            r.0 <= r.1 <= self@.len(),
    {
        let s = Ghost(self@);
        let k = n.0;
        proof {
            lemma_kth_exists(s@, false, k as int, s@.len() as int);
            lemma_kth_exists(s@, false, k + 1, s@.len() as int);
            lemma_count_split(s@, s@.len() as int);
            self.lbs.lemma_len_bound();
        }
        let z0 = self.lbs.select0(k).unwrap();
        let z1 = self.lbs.select0(k + 1).unwrap();
        proof {
            lemma_kth_unique(s@, false, k as int, z0 as int, zero_pos(s@, k as int));
            lemma_kth_unique(s@, false, k + 1, z1 as int, zero_pos(s@, k + 1));
            if z1 < z0 + 1 {
                lemma_count_mono(s@, z1 + 1, z0 + 1, false);
            }
        }
        (z0 + 1, z1)
    }
}

} // verus!
