//! The compact labeled trie over a LOUDS tree, and the builder that fills a
//! staging trie and compacts it.
use vstd::prelude::*;
use crate::fid::{lemma_count_bounded, lemma_count_mono, lemma_count_push, ones, zeros};
use crate::fid::is_kth;
use crate::louds::{children_end, children_start, lemma_children_parent, lemma_kth_unique, zero_pos, LoudsIndex, LoudsNodeNum};
use crate::louds::{is_lbs, num_nodes, Louds};
use crate::naive_trie::{height, lemma_child_height, naive_accepts, naive_wf, NaiveTrie};

verus! {

/// Label and terminal flag of one real node of the compact trie.
#[derive(Clone, Copy, Debug)]
pub struct TrieLabel {
    pub label: u8,
    pub is_terminal: bool,
}

/// Label entry of the node whose `1` bit sits at position `j`.
pub open spec fn label_at(s: Seq<bool>, labels: Seq<TrieLabel>, j: int) -> TrieLabel {
    labels[ones(s, j + 1) - 2]
}

/// Adjacent `1` bits are consecutive siblings: their labels strictly ascend.
pub open spec fn siblings_sorted(s: Seq<bool>, labels: Seq<TrieLabel>) -> bool {
    forall|j: int|
        0 <= j && j + 1 < s.len() && s[j] && s[j + 1] ==> (#[trigger] label_at(s, labels, j)).label
            < label_at(s, labels, j + 1).label
}

/// A LOUDS bit string with one label entry per real node, siblings sorted.
pub open spec fn trie_wf(s: Seq<bool>, labels: Seq<TrieLabel>) -> bool {
    &&& is_lbs(s)
    &&& labels.len() + 1 == num_nodes(s)
    &&& siblings_sorted(s, labels)
}

/// What holds of the bits and labels emitted so far during compaction:
/// `pending` nodes are known but not yet closed by their `0` bit, and
/// `last` is the label of the last child emitted when the last bit is `1`.
pub open spec fn build_state(s: Seq<bool>, labels: Seq<TrieLabel>, pending: int, last: Option<u8>) -> bool {
    &&& s.len() >= 2
    &&& s[0]
    &&& !s[1]
    &&& ones(s, s.len() as int) == labels.len() + 1
    &&& zeros(s, s.len() as int) + pending == ones(s, s.len() as int) + 1
    &&& forall|m: int| 0 <= m < s.len() ==> #[trigger] zeros(s, m) <= ones(s, m)
    &&& siblings_sorted(s, labels)
    &&& match last {
        Some(x) => s.last() && labels.len() > 0 && labels.last().label == x,
        None => !s.last(),
    }
}


/// Node `n` has a child labeled `x`.
pub open spec fn has_child(s: Seq<bool>, labels: Seq<TrieLabel>, n: int, x: u8) -> bool {
    exists|c: int|
        children_start(s, n) <= c < children_end(s, n) && (#[trigger] label_at(s, labels, c)).label
            == x
}

/// Node number of the child of node `n` labeled `x`, if there is one.
pub open spec fn child_of(s: Seq<bool>, labels: Seq<TrieLabel>, n: int, x: u8) -> Option<int> {
    if has_child(s, labels, n, x) {
        Some(ones(s, branch_index(s, labels, n, x) + 1) as int)
    } else {
        None
    }
}

/// `w` extends `p`.
pub open spec fn starts_with(w: Seq<u8>, p: Seq<u8>) -> bool {
    p.len() <= w.len() && w.subrange(0, p.len() as int) == p
}

/// `a` comes strictly before `b` in lexicographic order.
pub open spec fn lex_lt(a: Seq<u8>, b: Seq<u8>) -> bool {
    ||| a.len() < b.len() && b.subrange(0, a.len() as int) == a
    ||| exists|i: int|
        0 <= i < a.len() && i < b.len() && a.subrange(0, i) == b.subrange(0, i) && #[trigger] a[i]
            < b[i]
}

/// Index of the child of node `n` labeled `x`, when `child_of` finds one.
pub open spec fn branch_index(s: Seq<bool>, labels: Seq<TrieLabel>, n: int, x: u8) -> int {
    choose|c: int|
        children_start(s, n) <= c < children_end(s, n) && (#[trigger] label_at(s, labels, c)).label
            == x
}

/// Node reached from node `n` by following the labels of `w`.
pub open spec fn descend_from(s: Seq<bool>, labels: Seq<TrieLabel>, n: int, w: Seq<u8>) -> Option<int>
    decreases w.len(),
{
    if w.len() == 0 {
        Some(n)
    } else {
        match child_of(s, labels, n, w[0]) {
            Some(c) => descend_from(s, labels, c, w.drop_first()),
            None => None,
        }
    }
}

/// Node reached from the root by following the labels of `w`.
pub open spec fn descend(s: Seq<bool>, labels: Seq<TrieLabel>, w: Seq<u8>) -> Option<int> {
    descend_from(s, labels, 1, w)
}

/// Following `w` and then `x` takes the child labeled `x` of where `w` led.
pub proof fn lemma_descend_snoc(s: Seq<bool>, labels: Seq<TrieLabel>, n: int, w: Seq<u8>, x: u8)
    ensures
        descend_from(s, labels, n, w.push(x)) == match descend_from(s, labels, n, w) {
            Some(m) => child_of(s, labels, m, x),
            None => None,
        },
    decreases w.len(),
{
    if w.len() == 0 {
        assert(w.push(x).drop_first() =~= Seq::<u8>::empty());
        assert(w.push(x)[0] == x);
        match child_of(s, labels, n, x) {
            Some(c) => {
                assert(descend_from(s, labels, c, Seq::<u8>::empty()) == Some(c));
            },
            None => {},
        }
    } else {
        assert(w.push(x).drop_first() =~= w.drop_first().push(x));
        assert(w.push(x)[0] == w[0]);
        match child_of(s, labels, n, w[0]) {
            Some(c) => lemma_descend_snoc(s, labels, c, w.drop_first(), x),
            None => {},
        }
    }
}

/// `w` leads to a real node whose terminal flag is set.
pub open spec fn accepts(s: Seq<bool>, labels: Seq<TrieLabel>, w: Seq<u8>) -> bool {
    match descend(s, labels, w) {
        Some(m) => 2 <= m && labels[m - 2].is_terminal,
        None => false,
    }
}

/// The accepted prefixes of `q` of lengths `1..=k`, shortest first.
pub open spec fn prefix_matches(s: Seq<bool>, labels: Seq<TrieLabel>, q: Seq<u8>, k: int) -> Seq<
    Seq<u8>,
>
    decreases k,
{
    if k <= 0 {
        Seq::empty()
    } else {
        let p = prefix_matches(s, labels, q, k - 1);
        if accepts(s, labels, q.subrange(0, k)) {
            p.push(q.subrange(0, k))
        } else {
            p
        }
    }
}

/// A run of `1` bits holds consecutive node numbers.
pub proof fn lemma_run(s: Seq<bool>, a: int, c: int)
    requires
        0 <= a <= c < s.len(),
        forall|j: int| a <= j <= c ==> #[trigger] s[j],
    ensures
        ones(s, c + 1) == ones(s, a + 1) + (c - a),
    decreases c - a,
{
    if a < c {
        lemma_run(s, a, c - 1);
    }
}

/// Labels strictly ascend along a run of `1` bits.
pub proof fn lemma_run_sorted(s: Seq<bool>, labels: Seq<TrieLabel>, a: int, b: int)
    requires
        siblings_sorted(s, labels),
        0 <= a < b < s.len(),
        forall|j: int| a <= j <= b ==> #[trigger] s[j],
    ensures
        label_at(s, labels, a).label < label_at(s, labels, b).label,
    decreases b - a,
{
    assert(s[b - 1] && s[b]);
    assert(label_at(s, labels, b - 1).label < label_at(s, labels, b).label);
    if a < b - 1 {
        lemma_run_sorted(s, labels, a, b - 1);
    }
}

/// A child index of node `n` addresses a real node numbered above `n`.
pub proof fn lemma_child_node(s: Seq<bool>, labels: Seq<TrieLabel>, n: int, c: int)
    requires
        trie_wf(s, labels),
        1 <= n <= num_nodes(s),
        children_start(s, n) <= c < children_end(s, n),
    ensures
        0 <= c < s.len(),
        s[c],
        n < ones(s, c + 1) <= num_nodes(s),
        2 <= ones(s, c + 1),
        0 <= ones(s, c + 1) - 2 < labels.len(),
{
    lemma_children_parent(s, n, c);
    assert(zeros(s, c) <= ones(s, c));
    lemma_count_mono(s, c + 1, s.len() as int, true);
}

/// Once no node is reached, no extension reaches one.
pub proof fn lemma_descend_none(s: Seq<bool>, labels: Seq<TrieLabel>, w: Seq<u8>, i: int, k: int)
    requires
        0 <= i <= k <= w.len(),
        descend(s, labels, w.subrange(0, i)) is None,
    ensures
        descend(s, labels, w.subrange(0, k)) is None,
    decreases k - i,
{
    if i < k {
        lemma_descend_none(s, labels, w, i, k - 1);
        assert(w.subrange(0, k) =~= w.subrange(0, k - 1).push(w[k - 1]));
        lemma_descend_snoc(s, labels, 1, w.subrange(0, k - 1), w[k - 1]);
    }
}

/// Once no node is reached, no longer prefix is accepted.
pub proof fn lemma_prefix_matches_stop(s: Seq<bool>, labels: Seq<TrieLabel>, q: Seq<u8>, i: int, k: int)
    requires
        0 <= i <= k <= q.len(),
        descend(s, labels, q.subrange(0, i)) is None,
    ensures
        prefix_matches(s, labels, q, k) == prefix_matches(s, labels, q, i),
    decreases k - i,
{
    if i < k {
        lemma_prefix_matches_stop(s, labels, q, i, k - 1);
        lemma_descend_none(s, labels, q, i, k);
    }
}

/// One step of descent: `w` extended by `x` reaches the child labeled `x`.
pub proof fn lemma_descend_step(s: Seq<bool>, labels: Seq<TrieLabel>, q: Seq<u8>, i: int)
    requires
        0 <= i < q.len(),
    ensures
        descend(s, labels, q.subrange(0, i + 1)) == match descend(s, labels, q.subrange(0, i)) {
            Some(m) => child_of(s, labels, m, q[i]),
            None => None,
        },
{
    assert(q.subrange(0, i + 1) =~= q.subrange(0, i).push(q[i]));
    lemma_descend_snoc(s, labels, 1, q.subrange(0, i), q[i]);
}

/// The entries of `prefix_matches(.., k)` are the accepted prefixes of `q`
/// of lengths `1..=k`.
pub proof fn lemma_prefix_matches_contains(s: Seq<bool>, labels: Seq<TrieLabel>, q: Seq<u8>, k: int, w: Seq<u8>)
    requires
        0 <= k <= q.len(),
    ensures
        prefix_matches(s, labels, q, k).contains(w) <==> (accepts(s, labels, w) && 1 <= w.len()
            <= k && w == q.subrange(0, w.len() as int)),
    decreases k,
{
    if k > 0 {
        lemma_prefix_matches_contains(s, labels, q, k - 1, w);
        let p = prefix_matches(s, labels, q, k - 1);
        if accepts(s, labels, q.subrange(0, k)) {
            assert(p.push(q.subrange(0, k)).contains(w) <==> (p.contains(w) || w == q.subrange(0, k))) by {
                if w == q.subrange(0, k) {
                    assert(p.push(q.subrange(0, k))[p.len() as int] == w);
                }
                if p.push(q.subrange(0, k)).contains(w) && !p.contains(w) {
                    let j = choose|j: int| 0 <= j < p.len() + 1 && p.push(q.subrange(0, k))[j] == w;
                    if j < p.len() {
                        assert(p[j] == w);
                    }
                }
                if p.contains(w) {
                    let j = choose|j: int| 0 <= j < p.len() && p[j] == w;
                    assert(p.push(q.subrange(0, k))[j] == w);
                }
            }
        }
    }
}


/// The label entry that a staging node becomes.
pub open spec fn entry_of(t: NaiveTrie) -> TrieLabel {
    TrieLabel { label: t.label, is_terminal: t.is_terminal }
}

/// Staging node that became the node whose `1` bit sits at `idx`.
pub open spec fn slot_node(s: Seq<bool>, order: Seq<NaiveTrie>, idx: int) -> NaiveTrie {
    order[ones(s, idx + 1) - 1]
}

/// The `1` bits between zero `p` and zero `p + 1` are, in order, the
/// children of the staging node that became node `p`.
pub open spec fn slots_ok(s: Seq<bool>, order: Seq<NaiveTrie>, zpos: Seq<int>, p: int) -> bool {
    &&& zpos[p] - zpos[p - 1] - 1 == order[p - 1].children@.len()
    &&& forall|idx: int|
        zpos[p - 1] < idx < zpos[p] ==> #[trigger] slot_node(s, order, idx) == order[p
            - 1].children@[idx - zpos[p - 1] - 1]
}

/// How the bits and labels emitted so far stand to the staging trie:
/// `order[m - 1]` is the staging node that became node `m`, and `zpos[k]`
/// is the position of the `k + 1`-th `0` bit.
pub open spec fn link_state(
    s: Seq<bool>,
    labels: Seq<TrieLabel>,
    order: Seq<NaiveTrie>,
    zpos: Seq<int>,
    root: NaiveTrie,
) -> bool {
    &&& order.len() == labels.len() + 1
    &&& order[0] == root
    &&& forall|i: int| 0 <= i < labels.len() ==> #[trigger] labels[i] == entry_of(order[i + 1])
    &&& forall|i: int| 0 <= i < order.len() ==> naive_wf(#[trigger] order[i])
    &&& zpos.len() == zeros(s, s.len() as int)
    &&& zpos.len() >= 1
    &&& forall|k: int| 0 <= k < zpos.len() ==> is_kth(s, false, k + 1, #[trigger] zpos[k])
    &&& forall|p: int| 1 <= p < zpos.len() ==> #[trigger] slots_ok(s, order, zpos, p)
}

/// The node after the last `0` bit is having its children emitted; `c` of
/// them are out.
pub open spec fn partial_ok(s: Seq<bool>, order: Seq<NaiveTrie>, zpos: Seq<int>, c: int) -> bool {
    let p = zpos.len() - 1;
    &&& 0 <= p < order.len()
    &&& s.len() == zpos[p] + 1 + c
    &&& 0 <= c <= order[p].children@.len()
    &&& forall|idx: int|
        zpos[p] < idx < s.len() ==> #[trigger] slot_node(s, order, idx) == order[p].children@[idx
            - zpos[p] - 1]
}

proof fn lemma_link_push_child(
    s: Seq<bool>,
    labels: Seq<TrieLabel>,
    order: Seq<NaiveTrie>,
    zpos: Seq<int>,
    root: NaiveTrie,
    c: int,
)
    requires
        link_state(s, labels, order, zpos, root),
        partial_ok(s, order, zpos, c),
        c < order[zpos.len() - 1].children@.len(),
        ones(s, s.len() as int) == order.len(),
        s[0],
    ensures
        ({
            let child = order[zpos.len() - 1].children@[c];
            &&& link_state(s.push(true), labels.push(entry_of(child)), order.push(child), zpos, root)
            &&& partial_ok(s.push(true), order.push(child), zpos, c + 1)
        }),
{
    let p = zpos.len() - 1;
    let child = order[p].children@[c];
    let s2 = s.push(true);
    let l2 = labels.push(entry_of(child));
    let o2 = order.push(child);
    let n = s.len() as int;
    lemma_count_push(s, true, n, true);
    lemma_count_push(s, true, n, false);
    assert(naive_wf(order[p]));
    assert forall|i: int| 0 <= i < o2.len() implies naive_wf(#[trigger] o2[i]) by {
        if i < order.len() {
            assert(naive_wf(order[i]));
        }
    }
    assert forall|i: int| 0 <= i < l2.len() implies #[trigger] l2[i] == entry_of(o2[i + 1]) by {
        if i < labels.len() {
            assert(labels[i] == entry_of(order[i + 1]));
        }
    }
    assert forall|k: int| 0 <= k < zpos.len() implies is_kth(s2, false, k + 1, #[trigger] zpos[k]) by {
        assert(is_kth(s, false, k + 1, zpos[k]));
        lemma_count_push(s, true, zpos[k] + 1, false);
    }
    assert forall|idx: int| 0 <= idx < n implies #[trigger] slot_node(s2, o2, idx) == slot_node(s, order, idx) by {
        lemma_count_push(s, true, idx + 1, true);
        lemma_count_mono(s, idx + 1, n, true);
        lemma_count_mono(s, 1, idx + 1, true);
    }
    assert forall|q: int| 1 <= q < zpos.len() implies #[trigger] slots_ok(s2, o2, zpos, q) by {
        assert(slots_ok(s, order, zpos, q));
        assert(is_kth(s, false, q + 1, zpos[q]));
        assert forall|idx: int| zpos[q - 1] < idx < zpos[q] implies #[trigger] slot_node(s2, o2, idx)
            == o2[q - 1].children@[idx - zpos[q - 1] - 1] by {
            assert(slot_node(s2, o2, idx) == slot_node(s, order, idx));
        }
    }
    assert(is_kth(s, false, p + 1, zpos[p]));
    assert forall|idx: int| zpos[p] < idx < s2.len() implies #[trigger] slot_node(s2, o2, idx)
        == o2[p].children@[idx - zpos[p] - 1] by {
        if idx < n {
            assert(slot_node(s2, o2, idx) == slot_node(s, order, idx));
        } else {
            assert(ones(s2, n + 1) == ones(s2, n) + 1);
        }
    }
}

proof fn lemma_link_push_zero(
    s: Seq<bool>,
    labels: Seq<TrieLabel>,
    order: Seq<NaiveTrie>,
    zpos: Seq<int>,
    root: NaiveTrie,
)
    requires
        link_state(s, labels, order, zpos, root),
        partial_ok(s, order, zpos, order[zpos.len() - 1].children@.len() as int),
    ensures
        link_state(s.push(false), labels, order, zpos.push(s.len() as int), root),
{
    let p = zpos.len() - 1;
    let s2 = s.push(false);
    let z2 = zpos.push(s.len() as int);
    let n = s.len() as int;
    lemma_count_push(s, false, n, true);
    lemma_count_push(s, false, n, false);
    assert forall|k: int| 0 <= k < z2.len() implies is_kth(s2, false, k + 1, #[trigger] z2[k]) by {
        if k < zpos.len() {
            assert(is_kth(s, false, k + 1, zpos[k]));
            lemma_count_push(s, false, zpos[k] + 1, false);
        }
    }
    assert forall|idx: int| 0 <= idx < n implies #[trigger] slot_node(s2, order, idx) == slot_node(s, order, idx) by {
        lemma_count_push(s, false, idx + 1, true);
    }
    assert forall|q: int| 1 <= q < z2.len() implies #[trigger] slots_ok(s2, order, z2, q) by {
        if q < zpos.len() {
            assert(slots_ok(s, order, zpos, q));
            assert(is_kth(s, false, q + 1, zpos[q]));
            assert forall|idx: int| z2[q - 1] < idx < z2[q] implies #[trigger] slot_node(s2, order, idx)
                == order[q - 1].children@[idx - z2[q - 1] - 1] by {
                assert(slot_node(s2, order, idx) == slot_node(s, order, idx));
            }
        } else {
            assert forall|idx: int| z2[q - 1] < idx < z2[q] implies #[trigger] slot_node(s2, order, idx)
                == order[q - 1].children@[idx - z2[q - 1] - 1] by {
                assert(slot_node(s2, order, idx) == slot_node(s, order, idx));
            }
        }
    }
}

/// Once every node is closed, node `m`'s children lie between its zeros.
proof fn lemma_link_range(s: Seq<bool>, labels: Seq<TrieLabel>, order: Seq<NaiveTrie>, zpos: Seq<int>, root: NaiveTrie, m: int)
    requires
        link_state(s, labels, order, zpos, root),
        zpos.len() == order.len() + 1,
        1 <= m <= order.len(),
    ensures
        children_start(s, m) == zpos[m - 1] + 1,
        children_end(s, m) == zpos[m],
{
    assert(is_kth(s, false, m, zpos[m - 1]));
    assert(is_kth(s, false, m + 1, zpos[m]));
    lemma_kth_unique(s, false, m, zpos[m - 1], zero_pos(s, m));
    lemma_kth_unique(s, false, m + 1, zpos[m], zero_pos(s, m + 1));
}

/// The compact child labeled `x` is the staging child labeled `x`.
proof fn lemma_link_child(s: Seq<bool>, labels: Seq<TrieLabel>, order: Seq<NaiveTrie>, zpos: Seq<int>, root: NaiveTrie, m: int, x: u8)
    requires
        link_state(s, labels, order, zpos, root),
        zpos.len() == order.len() + 1,
        trie_wf(s, labels),
        1 <= m <= order.len(),
    ensures
        has_child(s, labels, m, x) <==> exists|i: int|
            0 <= i < order[m - 1].children@.len() && (#[trigger] order[m - 1].children@[i]).label == x,
        has_child(s, labels, m, x) ==> ({
            let c = ones(s, branch_index(s, labels, m, x) + 1) as int;
            &&& m < c <= order.len()
            &&& order[c - 1].label == x
            &&& exists|i: int|
                0 <= i < order[m - 1].children@.len() && #[trigger] order[m - 1].children@[i]
                    == order[c - 1]
        }),
{
    lemma_link_range(s, labels, order, zpos, root, m);
    assert(slots_ok(s, order, zpos, m));
    let t = order[m - 1];
    let start = zpos[m - 1] + 1;
    assert forall|c: int| start <= c < zpos[m] implies (#[trigger] label_at(s, labels, c)).label
        == t.children@[c - start].label && slot_node(s, order, c) == t.children@[c - start] by {
        lemma_child_node(s, labels, m, c);
        assert(slot_node(s, order, c) == order[m - 1].children@[c - zpos[m - 1] - 1]);
        assert(labels[ones(s, c + 1) - 2] == entry_of(order[ones(s, c + 1) - 2 + 1]));
        assert(label_at(s, labels, c) == labels[ones(s, c + 1) - 2]);
        assert(ones(s, c + 1) - 2 + 1 == ones(s, c + 1) - 1);
    }
    if exists|i: int| 0 <= i < t.children@.len() && (#[trigger] t.children@[i]).label == x {
        let i = choose|i: int| 0 <= i < t.children@.len() && (#[trigger] t.children@[i]).label == x;
        assert(label_at(s, labels, start + i).label == x);
    }
    if has_child(s, labels, m, x) {
        let bi = branch_index(s, labels, m, x);
        lemma_child_node(s, labels, m, bi);
        assert(order[m - 1].children@[bi - start] == order[ones(s, bi + 1) - 1]);
    }
}

/// Acceptance from node `m` agrees with the staging node that became `m`.
proof fn lemma_link_accepts(
    s: Seq<bool>,
    labels: Seq<TrieLabel>,
    order: Seq<NaiveTrie>,
    zpos: Seq<int>,
    root: NaiveTrie,
    m: int,
    w: Seq<u8>,
)
    requires
        link_state(s, labels, order, zpos, root),
        zpos.len() == order.len() + 1,
        trie_wf(s, labels),
        1 <= m <= order.len(),
    ensures
        (match descend_from(s, labels, m, w) {
            Some(m2) => 2 <= m2 && labels[m2 - 2].is_terminal,
            None => false,
        }) <==> (naive_accepts(order[m - 1], w) && (w.len() > 0 || m >= 2)),
    decreases w.len(),
{
    if w.len() == 0 {
        if m >= 2 {
            assert(labels[m - 2] == entry_of(order[m - 2 + 1]));
        }
    } else {
        let x = w[0];
        let t = order[m - 1];
        lemma_link_child(s, labels, order, zpos, root, m, x);
        assert(naive_wf(t));
        if has_child(s, labels, m, x) {
            let c = ones(s, branch_index(s, labels, m, x) + 1) as int;
            lemma_link_accepts(s, labels, order, zpos, root, c, w.drop_first());
            let i = choose|i: int|
                0 <= i < t.children@.len() && #[trigger] t.children@[i] == order[c - 1];
            if naive_accepts(t, w) {
                let k = choose|k: int|
                    0 <= k < t.children@.len() && (#[trigger] t.children@[k]).label == x
                        && naive_accepts(t.children@[k], w.drop_first());
                if k < i {
                    assert(t.children@[k].label < t.children@[i].label);
                } else if i < k {
                    assert(t.children@[i].label < t.children@[k].label);
                }
            }
            if naive_accepts(order[c - 1], w.drop_first()) {
                assert(t.children@[i].label == x);
            }
        }
    }
}


proof fn lemma_same_accepts_same_matches(
    s1: Seq<bool>,
    l1: Seq<TrieLabel>,
    s2: Seq<bool>,
    l2: Seq<TrieLabel>,
    q: Seq<u8>,
    k: int,
)
    requires
        Set::new(|w: Seq<u8>| accepts(s1, l1, w)) == Set::new(|w: Seq<u8>| accepts(s2, l2, w)),
    ensures
        prefix_matches(s1, l1, q, k) == prefix_matches(s2, l2, q, k),
    decreases k,
{
    if k > 0 {
        lemma_same_accepts_same_matches(s1, l1, s2, l2, q, k - 1);
        let w = q.subrange(0, k);
        assert(Set::new(|w: Seq<u8>| accepts(s1, l1, w)).contains(w) == accepts(s1, l1, w));
        assert(Set::new(|w: Seq<u8>| accepts(s2, l2, w)).contains(w) == accepts(s2, l2, w));
    }
}


proof fn lemma_push_child(s: Seq<bool>, labels: Seq<TrieLabel>, pending: int, last: Option<u8>, x: TrieLabel)
    requires
        build_state(s, labels, pending, last),
        pending >= 1,
        last.is_some() ==> last.unwrap() < x.label,
    ensures
        build_state(s.push(true), labels.push(x), pending + 1, Some(x.label)),
{
    let s2 = s.push(true);
    let l2 = labels.push(x);
    let n = s.len() as int;
    lemma_count_push(s, true, n, true);
    lemma_count_push(s, true, n, false);
    assert forall|m: int| 0 <= m < s2.len() implies #[trigger] zeros(s2, m) <= ones(s2, m) by {
        lemma_count_push(s, true, m, true);
        lemma_count_push(s, true, m, false);
        assert(zeros(s, m) <= ones(s, m));
    }
    assert forall|j: int|
        0 <= j && j + 1 < s2.len() && s2[j] && s2[j + 1] implies (#[trigger] label_at(s2, l2, j)).label
            < label_at(s2, l2, j + 1).label by {
        lemma_count_push(s, true, j + 1, true);
        if j + 1 < n {
            lemma_count_push(s, true, j + 2, true);
            lemma_count_mono(s, j + 2, n, true);
            lemma_count_mono(s, 1, j, true);
            assert(label_at(s, labels, j).label < label_at(s, labels, j + 1).label);
        } else {
            assert(ones(s2, n + 1) == ones(s2, n) + 1);
            assert(label_at(s2, l2, j) == labels.last());
            assert(label_at(s2, l2, j + 1) == x);
        }
    }
}

proof fn lemma_push_terminator(s: Seq<bool>, labels: Seq<TrieLabel>, pending: int, last: Option<u8>)
    requires
        build_state(s, labels, pending, last),
        pending >= 1,
    ensures
        build_state(s.push(false), labels, pending - 1, None),
{
    let s2 = s.push(false);
    let n = s.len() as int;
    lemma_count_push(s, false, n, true);
    lemma_count_push(s, false, n, false);
    assert forall|m: int| 0 <= m < s2.len() implies #[trigger] zeros(s2, m) <= ones(s2, m) by {
        lemma_count_push(s, false, m, true);
        lemma_count_push(s, false, m, false);
        assert(zeros(s, m) <= ones(s, m));
    }
    assert forall|j: int|
        0 <= j && j + 1 < s2.len() && s2[j] && s2[j + 1] implies (#[trigger] label_at(s2, labels, j)).label
            < label_at(s2, labels, j + 1).label by {
        lemma_count_push(s, false, j + 1, true);
        lemma_count_push(s, false, j + 2, true);
        assert(label_at(s, labels, j).label < label_at(s, labels, j + 1).label);
    }
}

/// An immutable trie: a LOUDS tree plus one label entry per real node.
#[derive(Clone, Debug)]
pub struct Trie {
    louds: Louds,
    /// Entry `n - 2` belongs to node number `n`.
    trie_labels: Vec<TrieLabel>,
}

/// Collects words into a staging trie, then compacts them into a `Trie`.
pub struct TrieBuilder {
    naive_trie: NaiveTrie,
}

impl Trie {
    pub closed spec fn wf(&self) -> bool {
        self.louds.wf() && trie_wf(self.louds@, self.trie_labels@)
    }

    /// The words this trie holds.
    pub closed spec fn words(&self) -> Set<Seq<u8>> {
        Set::new(|w: Seq<u8>| accepts(self.louds@, self.trie_labels@, w))
    }

    /// The words this trie holds that are prefixes of `q`, shortest first.
    pub closed spec fn prefixes_of(&self, q: Seq<u8>) -> Seq<Seq<u8>> {
        prefix_matches(self.louds@, self.trie_labels@, q, q.len() as int)
    }

    /// A word is among the common-prefix matches of `q` exactly when the trie
    /// holds it and it is a prefix of `q`.
    pub proof fn lemma_common_prefix_exact(&self, q: Seq<u8>, w: Seq<u8>)
        requires
            self.wf(),
        ensures
            self.prefixes_of(q).contains(w) <==> (self.words().contains(w) && w.len() <= q.len()
                && w == q.subrange(0, w.len() as int)),
    {
        lemma_prefix_matches_contains(self.louds@, self.trie_labels@, q, q.len() as int, w);
        if w.len() == 0 {
            assert(descend(self.louds@, self.trie_labels@, w) == Some(1int));
        }
    }


    /// Two tries that hold the same words give the same common-prefix
    /// matches for every query.
    pub proof fn lemma_same_words_same_prefixes(&self, other: &Trie, q: Seq<u8>)
        requires
            self.wf(),
            other.wf(),
            self.words() == other.words(),
        ensures
            self.prefixes_of(q) == other.prefixes_of(q),
    {
        lemma_same_accepts_same_matches(
            self.louds@,
            self.trie_labels@,
            other.louds@,
            other.trie_labels@,
            q,
            q.len() as int,
        );
    }


    /// Node number of the child of node `n` labeled `x`: binary search over
    /// the labels of `n`'s children, which are consecutive and ascending.
    fn find_child(&self, n: u64, x: u8) -> (r: Option<u64>)
        requires
            self.wf(),
            1 <= n <= num_nodes(self.louds@),
        ensures
            r.is_some() == child_of(self.louds@, self.trie_labels@, n as int, x).is_some(),
            r.is_some() ==> r.unwrap() == child_of(self.louds@, self.trie_labels@, n as int, x).unwrap(),
            r.is_some() ==> n < r.unwrap() <= num_nodes(self.louds@),
    {
        let ghost s = self.louds@;
        let ghost l = self.trie_labels@;
        let (start, end) = self.louds.children_range(LoudsNodeNum(n));
        if start == end {
            return None;
        }
        proof {
            lemma_child_node(s, l, n as int, start as int);
        }
        let first = self.louds.index_to_node_num(LoudsIndex(start)).0;
        let mut lo: u64 = start;
        let mut hi: u64 = end;
        while lo < hi
            invariant
                self.wf(),
                s == self.louds@,
                l == self.trie_labels@,
                1 <= n <= num_nodes(s),
                start == children_start(s, n as int),
                end == children_end(s, n as int),
                first == ones(s, start + 1),
                2 <= first,
                start <= lo <= hi <= end,
                forall|c: int| start <= c < lo ==> (#[trigger] label_at(s, l, c)).label < x,
                forall|c: int| hi <= c < end ==> (#[trigger] label_at(s, l, c)).label > x,
            decreases hi - lo,
        {
            let mid = lo + (hi - lo) / 2;
            proof {
                lemma_child_node(s, l, n as int, mid as int);
                assert forall|j: int| start <= j <= mid implies #[trigger] s[j] by {
                    lemma_child_node(s, l, n as int, j);
                }
                lemma_run(s, start as int, mid as int);
                lemma_count_bounded(s, mid + 1, true);
            }
            let nl = self.trie_labels.len();
            assert(ones(s, mid + 1) - 2 < nl);
            let e = self.trie_labels[(first - 2 + (mid - start)) as usize];
            assert(e == label_at(s, l, mid as int));
            if e.label == x {
                proof {
                    let c = choose|c: int|
                        children_start(s, n as int) <= c < children_end(s, n as int) && (
                        #[trigger] label_at(s, l, c)).label == x;
                    assert forall|j: int| start <= j < end implies #[trigger] s[j] by {
                        lemma_child_node(s, l, n as int, j);
                    }
                    if c < mid {
                        lemma_run_sorted(s, l, c, mid as int);
                    } else if mid < c {
                        lemma_child_node(s, l, n as int, c);
                        lemma_run_sorted(s, l, mid as int, c);
                    }
                }
                return Some(first + (mid - start));
            } else if e.label < x {
                proof {
                    assert forall|c: int| start <= c < mid + 1 implies (#[trigger] label_at(
                        s,
                        l,
                        c,
                    )).label < x by {
                        if c < mid {
                            lemma_run_sorted(s, l, c, mid as int);
                        }
                    }
                }
                lo = mid + 1;
            } else {
                proof {
                    assert forall|j: int| start <= j < end implies #[trigger] s[j] by {
                        lemma_child_node(s, l, n as int, j);
                    }
                    assert forall|c: int| mid <= c < end implies (#[trigger] label_at(
                        s,
                        l,
                        c,
                    )).label > x by {
                        if mid < c {
                            lemma_child_node(s, l, n as int, c);
                            lemma_run_sorted(s, l, mid as int, c);
                        }
                    }
                }
                hi = mid;
            }
        }
        None
    }

    /// Whether `query` is one of the trie's words.
    pub fn exact_match(&self, query: &[u8]) -> (r: bool)
        requires
            self.wf(),
        ensures
            r == self.words().contains(query@),
    {
        match self.locate(query) {
            None => false,
            Some(n) => {
                if n < 2 {
                    return false;
                }
                let nl = self.trie_labels.len();
                assert(n - 2 < nl);
                self.trie_labels[(n - 2) as usize].is_terminal
            },
        }
    }

    /// Node reached from the root along `w`.
    fn locate(&self, w: &[u8]) -> (r: Option<u64>)
        requires
            self.wf(),
        ensures
            r.is_some() == descend(self.louds@, self.trie_labels@, w@).is_some(),
            r.is_some() ==> r.unwrap() == descend(self.louds@, self.trie_labels@, w@).unwrap(),
            r.is_some() ==> 1 <= r.unwrap() <= num_nodes(self.louds@),
    {
        let ghost s = self.louds@;
        let ghost l = self.trie_labels@;
        let mut cur: u64 = 1;
        let mut i: usize = 0;
        proof {
            assert(w@.subrange(0, 0) =~= Seq::<u8>::empty());
            assert(num_nodes(s) >= 1) by {
                lemma_count_mono(s, 1, s.len() as int, true);
            }
        }
        while i < w.len()
            invariant
                self.wf(),
                s == self.louds@,
                l == self.trie_labels@,
                i <= w@.len(),
                1 <= cur <= num_nodes(s),
                descend(s, l, w@.subrange(0, i as int)) == Some(cur as int),
            decreases w@.len() - i,
        {
            proof {
                lemma_descend_step(s, l, w@, i as int);
            }
            match self.find_child(cur, w[i]) {
                None => {
                    proof {
                        lemma_descend_none(s, l, w@, i + 1, w@.len() as int);
                        assert(w@.subrange(0, w@.len() as int) =~= w@);
                    }
                    return None;
                },
                Some(m) => {
                    cur = m;
                },
            }
            i = i + 1;
        }
        assert(w@.subrange(0, i as int) =~= w@);
        Some(cur)
    }

    /// Appends to `out`, in depth-first order, every word of the subtree of
    /// node `n`, whose path from the root is `word`.
    fn collect(&self, n: u64, word: &mut Vec<u8>, out: &mut Vec<Vec<u8>>)
        requires
            self.wf(),
            1 <= n <= num_nodes(self.louds@),
            descend(self.louds@, self.trie_labels@, old(word)@) == Some(n as int),
        ensures
            final(word)@ == old(word)@,
            old(out)@.len() <= final(out)@.len(),
            forall|j: int| 0 <= j < old(out)@.len() ==> #[trigger] final(out)@[j] == old(out)@[j],
            forall|j: int|
                old(out)@.len() <= j < final(out)@.len() ==> accepts(
                    self.louds@,
                    self.trie_labels@,
                    #[trigger] final(out)@[j]@,
                ) && old(word)@.len() <= final(out)@[j]@.len() && final(out)@[j]@.subrange(
                    0,
                    old(word)@.len() as int,
                ) == old(word)@,
            forall|w: Seq<u8>|
                accepts(self.louds@, self.trie_labels@, w) && starts_with(w, old(word)@) ==> exists|
                    j: int,
                |
                    old(out)@.len() <= j < final(out)@.len() && (#[trigger] final(out)@[j])@ == w,
            forall|i: int, j: int|
                old(out)@.len() <= i < j < final(out)@.len() ==> lex_lt(
                    #[trigger] final(out)@[i]@,
                    #[trigger] final(out)@[j]@,
                ),
        decreases num_nodes(self.louds@) - n,
    {
        let ghost s = self.louds@;
        let ghost l = self.trie_labels@;
        let ghost w0 = word@;
        let ghost out0 = out@;
        if n >= 2 {
            let nl = self.trie_labels.len();
            assert(n - 2 < nl);
            if self.trie_labels[(n - 2) as usize].is_terminal {
                let found = copy_bytes(word);
                out.push(found);
                assert(found@.subrange(0, w0.len() as int) =~= w0);
                assert(out@[out0.len() as int]@ == w0);
            }
        }
        assert(w0.subrange(0, w0.len() as int) =~= w0);
        assert(accepts(s, l, w0) ==> out@[out0.len() as int]@ == w0);
        let (start, end) = self.louds.children_range(LoudsNodeNum(n));
        proof {
            assert forall|w: Seq<u8>| accepts(s, l, w) && starts_with(w, w0) && w.len() > w0.len()
                implies has_child(s, l, n as int, w[w0.len() as int]) by {
                let u = w.subrange(0, w0.len() + 1int);
                assert(u =~= w0.push(w[w0.len() as int]));
                lemma_descend_snoc(s, l, 1, w0, w[w0.len() as int]);
                if descend(s, l, u) is None {
                    lemma_descend_none(s, l, w, w0.len() + 1int, w.len() as int);
                    assert(w.subrange(0, w.len() as int) =~= w);
                    assert(w.subrange(0, w0.len() + 1int) == u);
                }
            }
        }
        if start == end {
            proof {
            assert forall|w: Seq<u8>| accepts(s, l, w) && starts_with(w, w0) implies exists|j: int|
                out0.len() <= j < out@.len() && (#[trigger] out@[j])@ == w by {
                if w.len() == w0.len() {
                    assert(w =~= w0);
                    assert(out@[out0.len() as int]@ == w0);
                } else {
                    let y = w[w0.len() as int];
                    assert(has_child(s, l, n as int, y));
                    let bi = branch_index(s, l, n as int, y);
                    assert(start <= bi < end);
                }
            }
            }
            return;
        }
        proof {
            lemma_child_node(s, l, n as int, start as int);
        }
        let first = self.louds.index_to_node_num(LoudsIndex(start)).0;
        let mut c: u64 = start;
        while c < end
            invariant
                self.wf(),
                s == self.louds@,
                l == self.trie_labels@,
                1 <= n <= num_nodes(s),
                start == children_start(s, n as int),
                end == children_end(s, n as int),
                first == ones(s, start + 1),
                2 <= first,
                start <= c <= end,
                word@ == w0,
                descend(s, l, w0) == Some(n as int),
                out0.len() <= out@.len(),
                forall|j: int| 0 <= j < out0.len() ==> #[trigger] out@[j] == out0[j],
                forall|j: int|
                    out0.len() <= j < out@.len() ==> accepts(s, l, #[trigger] out@[j]@)
                        && w0.len() <= out@[j]@.len() && out@[j]@.subrange(0, w0.len() as int)
                        == w0,
                accepts(s, l, w0) ==> out0.len() < out@.len() && out@[out0.len() as int]@ == w0,
                forall|w: Seq<u8>|
                    accepts(s, l, w) && starts_with(w, w0) && w.len() > w0.len()
                        ==> has_child(s, l, n as int, w[w0.len() as int]),
                forall|w: Seq<u8>|
                    accepts(s, l, w) && starts_with(w, w0) && w.len() > w0.len() && branch_index(
                        s,
                        l,
                        n as int,
                        w[w0.len() as int],
                    ) < c ==> exists|j: int|
                        out0.len() <= j < out@.len() && (#[trigger] out@[j])@ == w,
                forall|i: int, j: int|
                    out0.len() <= i < j < out@.len() ==> lex_lt(
                        #[trigger] out@[i]@,
                        #[trigger] out@[j]@,
                    ),
                forall|j: int, c2: int|
                    out0.len() <= j < out@.len() && c <= c2 < end ==> (#[trigger] out@[j])@ == w0
                        || (w0.len() < out@[j]@.len() && out@[j]@[w0.len() as int] < (
                        #[trigger] label_at(s, l, c2)).label),
            decreases end - c,
        {
            proof {
                lemma_child_node(s, l, n as int, c as int);
                assert forall|j: int| start <= j <= c implies #[trigger] s[j] by {
                    lemma_child_node(s, l, n as int, j);
                }
                lemma_run(s, start as int, c as int);
                lemma_count_bounded(s, c + 1, true);
            }
            let node = first + (c - start);
            let nl = self.trie_labels.len();
            assert(node - 2 < nl);
            let x = self.trie_labels[(node - 2) as usize].label;
            assert(x == label_at(s, l, c as int).label);
            let ghost out1 = out@;
            word.push(x);
            proof {
                assert(word@ =~= w0.push(x));
                lemma_descend_snoc(s, l, 1, w0, x);
                let cc = choose|cc: int|
                    children_start(s, n as int) <= cc < children_end(s, n as int) && (
                    #[trigger] label_at(s, l, cc)).label == x;
                assert forall|j: int| start <= j < end implies #[trigger] s[j] by {
                    lemma_child_node(s, l, n as int, j);
                }
                if cc < c {
                    lemma_run_sorted(s, l, cc, c as int);
                } else if c < cc {
                    lemma_child_node(s, l, n as int, cc);
                    lemma_run_sorted(s, l, c as int, cc);
                }
                assert(descend(s, l, word@) == Some(node as int));
            }
            let ghost w1 = word@;
            self.collect(node, word, out);
            proof {
                assert forall|j: int| out1.len() <= j < out@.len() implies w0.len() < (
                #[trigger] out@[j])@.len() && out@[j]@[w0.len() as int] == x && out@[j]@.subrange(
                    0,
                    w0.len() as int,
                ) == w0 by {
                    assert(out@[j]@.subrange(0, w1.len() as int)[w0.len() as int] == w1[w0.len() as int]);
                    assert(out@[j]@.subrange(0, w0.len() as int) =~= out@[j]@.subrange(
                        0,
                        w1.len() as int,
                    ).subrange(0, w0.len() as int));
                }
                assert forall|i: int, j: int| out0.len() <= i < j < out@.len() implies lex_lt(
                    #[trigger] out@[i]@,
                    #[trigger] out@[j]@,
                ) by {
                    if j < out1.len() {
                        assert(out@[i] == out1[i] && out@[j] == out1[j]);
                        assert(lex_lt(out1[i]@, out1[j]@));
                    } else if i < out1.len() {
                        assert(out@[i] == out1[i]);
                        let a = out@[i]@;
                        let b = out@[j]@;
                        if a == w0 {
                        } else {
                            assert(out1[i]@ == w0 || (w0.len() < out1[i]@.len() && out1[i]@[w0.len() as int] < label_at(s, l, c as int).label));
                            assert(a.subrange(0, w0.len() as int) == w0);
                            assert(a[w0.len() as int] < b[w0.len() as int]);
                        }
                    }
                }
                assert forall|j: int, c2: int|
                    out0.len() <= j < out@.len() && c + 1 <= c2 < end implies (#[trigger] out@[j])@ == w0
                        || (w0.len() < out@[j]@.len() && out@[j]@[w0.len() as int] < (
                        #[trigger] label_at(s, l, c2)).label) by {
                    if j < out1.len() {
                        assert(out@[j] == out1[j]);
                        assert(out1[j]@ == w0 || (w0.len() < out1[j]@.len() && out1[j]@[w0.len() as int] < label_at(s, l, c2).label));
                    } else {
                        assert forall|jj: int| start <= jj <= c2 implies #[trigger] s[jj] by {
                            lemma_child_node(s, l, n as int, jj);
                        }
                        lemma_child_node(s, l, n as int, c2);
                        lemma_run_sorted(s, l, c as int, c2);
                    }
                }
                assert forall|w: Seq<u8>|
                    accepts(s, l, w) && starts_with(w, w0) && w.len() > w0.len() && branch_index(
                        s,
                        l,
                        n as int,
                        w[w0.len() as int],
                    ) < c + 1 implies exists|j: int|
                        out0.len() <= j < out@.len() && (#[trigger] out@[j])@ == w by {
                    let y = w[w0.len() as int];
                    if branch_index(s, l, n as int, y) < c {
                        let j = choose|j: int| out0.len() <= j < out1.len() && (#[trigger] out1[j])@ == w;
                        assert(out@[j] == out1[j]);
                    } else {
                        assert(label_at(s, l, c as int).label == y);
                        assert(w.subrange(0, w1.len() as int) =~= w1);
                        assert(starts_with(w, w1));
                    }
                }
                assert forall|j: int| out1.len() <= j < out@.len() implies accepts(
                    s,
                    l,
                    #[trigger] out@[j]@,
                ) && w0.len() <= out@[j]@.len() && out@[j]@.subrange(0, w0.len() as int)
                    == w0 by {
                    assert(out@[j]@.subrange(0, w0.len() as int) =~= out@[j]@.subrange(
                        0,
                        w0.len() + 1int,
                    ).subrange(0, w0.len() as int));
                }
            }
            word.pop();
            assert(word@ =~= w0);
            c = c + 1;
        }
        proof {
            assert forall|w: Seq<u8>| accepts(s, l, w) && starts_with(w, w0) implies exists|j: int|
                out0.len() <= j < out@.len() && (#[trigger] out@[j])@ == w by {
                if w.len() == w0.len() {
                    assert(w =~= w0);
                    assert(out@[out0.len() as int]@ == w0);
                } else {
                    let y = w[w0.len() as int];
                    assert(has_child(s, l, n as int, y));
                    let bi = branch_index(s, l, n as int, y);
                    assert(start <= bi < end);
                }
            }
        }
    }

    /// The trie's words that start with `prefix`, in depth-first order of
    /// the trie, which is ascending order.
    pub fn predictive_search(&self, prefix: &[u8]) -> (r: Vec<Vec<u8>>)
        requires
            self.wf(),
        ensures
            forall|j: int|
                0 <= j < r@.len() ==> self.words().contains(#[trigger] r@[j]@) && starts_with(
                    r@[j]@,
                    prefix@,
                ),
            forall|w: Seq<u8>|
                self.words().contains(w) && starts_with(w, prefix@) ==> exists|j: int|
                    0 <= j < r@.len() && (#[trigger] r@[j])@ == w,
            forall|i: int, j: int|
                0 <= i < j < r@.len() ==> lex_lt(#[trigger] r@[i]@, #[trigger] r@[j]@),
    {
        proof {
            assert forall|w: Seq<u8>|
                self.words().contains(w) && starts_with(w, prefix@) implies descend(
                self.louds@,
                self.trie_labels@,
                prefix@,
            ) is Some by {
                if descend(self.louds@, self.trie_labels@, prefix@) is None {
                    assert(w.subrange(0, prefix@.len() as int) == prefix@);
                    lemma_descend_none(self.louds@, self.trie_labels@, w, prefix@.len() as int, w.len() as int);
                    assert(w.subrange(0, w.len() as int) =~= w);
                }
            }
        }
        let mut out: Vec<Vec<u8>> = Vec::new();
        match self.locate(prefix) {
            None => out,
            Some(n) => {
                let mut word = copy_slice(prefix);
                self.collect(n, &mut word, &mut out);
                out
            },
        }
    }

    /// The trie's words that are prefixes of `query`, shortest first.
    pub fn common_prefix_search(&self, query: &[u8]) -> (r: Vec<Vec<u8>>)
        requires
            self.wf(),
        ensures
            r@.map_values(|v: Vec<u8>| v@) == self.prefixes_of(query@),
    {
        let ghost s = self.louds@;
        let ghost l = self.trie_labels@;
        let mut out: Vec<Vec<u8>> = Vec::new();
        let mut word: Vec<u8> = Vec::new();
        let mut cur: u64 = 1;
        let mut i: usize = 0;
        proof {
            assert(query@.subrange(0, 0) =~= Seq::<u8>::empty());
            assert(num_nodes(s) >= 1) by {
                lemma_count_mono(s, 1, s.len() as int, true);
            }
        }
        while i < query.len()
            invariant
                self.wf(),
                s == self.louds@,
                l == self.trie_labels@,
                i <= query@.len(),
                1 <= cur <= num_nodes(s),
                word@ == query@.subrange(0, i as int),
                descend(s, l, query@.subrange(0, i as int)) == Some(cur as int),
                out@.map_values(|v: Vec<u8>| v@) == prefix_matches(s, l, query@, i as int),
            decreases query@.len() - i,
        {
            proof {
                lemma_descend_step(s, l, query@, i as int);
            }
            match self.find_child(cur, query[i]) {
                None => {
                    proof {
                        lemma_prefix_matches_stop(s, l, query@, i + 1, query@.len() as int);
                    }
                    return out;
                },
                Some(m) => {
                    cur = m;
                },
            }
            word.push(query[i]);
            i = i + 1;
            assert(word@ =~= query@.subrange(0, i as int));
            let ghost before = out@.map_values(|v: Vec<u8>| v@);
            let nl = self.trie_labels.len();
            assert(cur - 2 < nl);
            let t = self.trie_labels[(cur - 2) as usize].is_terminal;
            assert(accepts(s, l, query@.subrange(0, i as int)) == t);
            if t {
                let found = copy_bytes(&word);
                out.push(found);
                assert(out@.map_values(|v: Vec<u8>| v@) =~= before.push(word@));
            }
        }
        out
    }
}

/// A fresh vector holding `v`.
fn copy_slice(v: &[u8]) -> (r: Vec<u8>)
    ensures
        r@ == v@,
{
    let mut r: Vec<u8> = Vec::new();
    let mut i: usize = 0;
    while i < v.len()
        invariant
            i <= v@.len(),
            r@ == v@.subrange(0, i as int),
        decreases v@.len() - i,
    {
        r.push(v[i]);
        i = i + 1;
        assert(r@ =~= v@.subrange(0, i as int));
    }
    assert(v@.subrange(0, i as int) =~= v@);
    r
}

/// A fresh copy of `v`.
fn copy_bytes(v: &Vec<u8>) -> (r: Vec<u8>)
    ensures
        r@ == v@,
{
    let mut r: Vec<u8> = Vec::new();
    let mut i: usize = 0;
    while i < v.len()
        invariant
            i <= v@.len(),
            r@ == v@.subrange(0, i as int),
        decreases v@.len() - i,
    {
        r.push(v[i]);
        i = i + 1;
        assert(r@ =~= v@.subrange(0, i as int));
    }
    assert(v@.subrange(0, i as int) =~= v@);
    r
}

impl TrieBuilder {
    pub closed spec fn wf(&self) -> bool {
        naive_wf(self.naive_trie) && !self.naive_trie.is_terminal
    }

    /// The words pushed so far.
    pub closed spec fn words(&self) -> Set<Seq<u8>> {
        Set::new(|w: Seq<u8>| w.len() > 0 && naive_accepts(self.naive_trie, w))
    }

    /// An empty builder.
    pub fn new() -> (r: TrieBuilder)
        ensures
            r.wf(),
            r.words() == Set::<Seq<u8>>::empty(),
    {
        let r = TrieBuilder { naive_trie: NaiveTrie::make_root() };
        assert(r.words() =~= Set::<Seq<u8>>::empty());
        r
    }

    /// Adds a word; the empty word is ignored.
    pub fn push(&mut self, word: &[u8])
        requires
            old(self).wf(),
        ensures
            final(self).wf(),
            final(self).words() == if word@.len() > 0 {
                old(self).words().insert(word@)
            } else {
                old(self).words()
            },
    {
        if word.len() > 0 {
            self.naive_trie.insert_from(word, 0);
            assert(word@.subrange(0, word@.len() as int) =~= word@);
            assert(self.words() =~= old(self).words().insert(word@));
        }
    }

    /// Pushing a word that is already there leaves the words unchanged.
    pub proof fn lemma_push_twice(b0: &TrieBuilder, b1: &TrieBuilder, b2: &TrieBuilder, w: Seq<u8>)
        requires
            w.len() > 0,
            b1.words() == b0.words().insert(w),
            b2.words() == b1.words().insert(w),
        ensures
            b2.words() == b1.words(),
    {
        assert(b2.words() =~= b1.words());
    }


    /// Compacts the staging trie, level by level, into a LOUDS bit string
    /// and a label table, and wraps them into a `Trie` that holds the words
    /// pushed so far. The builder is left as it was.
    pub fn build(&self) -> (r: Trie)
        requires
            self.wf(),
        ensures
            r.wf(),
            r.words() == self.words(),
    {
        let root = &self.naive_trie;
        let mut bits: Vec<bool> = Vec::new();
        bits.push(true);
        bits.push(false);
        let mut labels: Vec<TrieLabel> = Vec::new();
        let mut level: Vec<&NaiveTrie> = Vec::new();
        level.push(root);
        let mut h: Ghost<int> = Ghost(height(*root) + 1int);
        let mut order: Ghost<Seq<NaiveTrie>> = Ghost(Seq::empty().push(*root));
        let mut zpos: Ghost<Seq<int>> = Ghost(Seq::empty().push(1int));
        proof {
            assert(ones(bits@, 0) == 0);
            assert(zeros(bits@, 0) == 0);
            assert(ones(bits@, 1) == 1);
            assert(zeros(bits@, 1) == 0);
            assert(ones(bits@, 2) == 1);
            assert(zeros(bits@, 2) == 1);
            assert(is_kth(bits@, false, 1, zpos@[0]));
        }
        while level.len() > 0
            invariant
                forall|k: int|
                    0 <= k < level@.len() ==> naive_wf(*#[trigger] level@[k]) && height(
                        *level@[k],
                    ) < h@,
                build_state(bits@, labels@, level@.len() as int, None),
                link_state(bits@, labels@, order@, zpos@, *root),
                bits@.len() == zpos@.last() + 1,
                forall|d: int|
                    0 <= d < level@.len() ==> *#[trigger] level@[d] == order@[zpos@.len() - 1 + d],
            decreases h@,
        {
            assert(height(*level@[0]) < h@);
            let mut next: Vec<&NaiveTrie> = Vec::new();
            let mut k: usize = 0;
            while k < level.len()
                invariant
                    k <= level@.len(),
                    forall|i: int|
                        0 <= i < level@.len() ==> naive_wf(*#[trigger] level@[i]) && height(
                            *level@[i],
                        ) < h@,
                    forall|i: int|
                        0 <= i < next@.len() ==> naive_wf(*#[trigger] next@[i]) && height(
                            *next@[i],
                        ) < h@ - 1,
                    build_state(bits@, labels@, level@.len() - k + next@.len(), None),
                    link_state(bits@, labels@, order@, zpos@, *root),
                    bits@.len() == zpos@.last() + 1,
                    forall|d: int|
                        k <= d < level@.len() ==> *#[trigger] level@[d] == order@[zpos@.len() - 1
                            + d - k],
                    forall|d: int|
                        0 <= d < next@.len() ==> *#[trigger] next@[d] == order@[zpos@.len() - 1
                            + level@.len() - k + d],
                decreases level@.len() - k,
            {
                let node = level[k];
                let nc = node.children.len();
                let mut c: usize = 0;
                proof {
                    assert(*node == order@[zpos@.len() - 1]);
                }
                while c < nc
                    invariant
                        k < level@.len(),
                        node == level@[k as int],
                        naive_wf(*node),
                        height(*node) < h@,
                        nc == node.children@.len(),
                        c <= nc,
                        forall|i: int|
                            0 <= i < next@.len() ==> naive_wf(*#[trigger] next@[i]) && height(
                                *next@[i],
                            ) < h@ - 1,
                        build_state(
                            bits@,
                            labels@,
                            level@.len() - k + next@.len(),
                            if c == 0 {
                                None
                            } else {
                                Some(node.children@[c - 1].label)
                            },
                        ),
                        link_state(bits@, labels@, order@, zpos@, *root),
                        partial_ok(bits@, order@, zpos@, c as int),
                        *node == order@[zpos@.len() - 1],
                        forall|d: int|
                            k <= d < level@.len() ==> *#[trigger] level@[d] == order@[zpos@.len()
                                - 1 + d - k],
                        forall|d: int|
                            0 <= d < next@.len() ==> *#[trigger] next@[d] == order@[zpos@.len()
                                - 1 + level@.len() - k + d],
                    decreases nc - c,
                {
                    let child = &node.children[c];
                    let entry = TrieLabel { label: child.label, is_terminal: child.is_terminal };
                    proof {
                        lemma_child_height(*node, c as int);
                        lemma_push_child(
                            bits@,
                            labels@,
                            level@.len() - k + next@.len(),
                            if c == 0 {
                                None
                            } else {
                                Some(node.children@[c - 1].label)
                            },
                            entry,
                        );
                        lemma_link_push_child(bits@, labels@, order@, zpos@, *root, c as int);
                    }
                    bits.push(true);
                    labels.push(entry);
                    next.push(child);
                    proof {
                        order@ = order@.push(*child);
                    }
                    c = c + 1;
                }
                proof {
                    lemma_push_terminator(
                        bits@,
                        labels@,
                        level@.len() - k + next@.len(),
                        if c == 0 {
                            None
                        } else {
                            Some(node.children@[c - 1].label)
                        },
                    );
                    lemma_link_push_zero(bits@, labels@, order@, zpos@, *root);
                    zpos@ = zpos@.push(bits@.len() as int);
                }
                bits.push(false);
                k = k + 1;
            }
            level = next;
            h = Ghost(h@ - 1);
        }
        let louds = Louds::from_bools(bits.as_slice());
        let r = Trie { louds, trie_labels: labels };
        proof {
            assert forall|w: Seq<u8>| r.words().contains(w) <==> self.words().contains(w) by {
                lemma_link_accepts(bits@, labels@, order@, zpos@, *root, 1, w);
            }
            assert(r.words() =~= self.words());
        }
        r
    }
}

} // verus!
