//! The staging trie: an ordinary owned-children trie, filled by insertion
//! and read once, level by level, when the compact trie is built.
use vstd::prelude::*;

verus! {

/// A node of the staging trie. The root's label is unused.
pub struct NaiveTrie {
    pub label: u8,
    pub is_terminal: bool,
    /// Kept strictly ascending by label.
    pub children: Vec<NaiveTrie>,
}

/// Children of every node are strictly ascending by label.
pub open spec fn naive_wf(t: NaiveTrie) -> bool
    decreases t,
{
    &&& forall|i: int, j: int|
        0 <= i < j < t.children@.len() ==> (#[trigger] t.children@[i]).label
            < (#[trigger] t.children@[j]).label
    &&& forall|i: int| 0 <= i < t.children@.len() ==> naive_wf(#[trigger] t.children@[i])
}

/// The words that the trie below `t` accepts, relative to `t`.
pub open spec fn naive_accepts(t: NaiveTrie, w: Seq<u8>) -> bool
    decreases w.len(),
{
    if w.len() == 0 {
        t.is_terminal
    } else {
        exists|i: int|
            0 <= i < t.children@.len() && (#[trigger] t.children@[i]).label == w[0]
                && naive_accepts(t.children@[i], w.drop_first())
    }
}

/// Length of the longest downward path starting at `t`, counted in nodes.
pub open spec fn height(t: NaiveTrie) -> nat
    decreases t, t.children@.len() + 1,
{
    1 + height_from(t, 0)
}

/// Greatest height among `t.children[i..]`, or 0.
pub open spec fn height_from(t: NaiveTrie, i: int) -> nat
    decreases t, t.children@.len() - i,
{
    if 0 <= i < t.children@.len() {
        let h = height(t.children@[i]);
        let r = height_from(t, i + 1);
        if h > r { h } else { r }
    } else {
        0
    }
}

pub proof fn lemma_height_from(t: NaiveTrie, i: int, j: int)
    requires
        0 <= i <= j < t.children@.len(),
    ensures
        height(t.children@[j]) <= height_from(t, i),
    decreases j - i,
{
    if i < j {
        lemma_height_from(t, i + 1, j);
    }
}

/// A child is lower than its parent.
pub proof fn lemma_child_height(t: NaiveTrie, j: int)
    requires
        0 <= j < t.children@.len(),
    ensures
        height(t.children@[j]) < height(t),
{
    lemma_height_from(t, 0, j);
}

/// Language of a node after one child below it took in `tail.drop_first()`.
proof fn lemma_insert_lang(
    t0: NaiveTrie,
    t1: NaiveTrie,
    mid: Seq<NaiveTrie>,
    j: int,
    inserted: bool,
    c0: NaiveTrie,
    c1: NaiveTrie,
    tail: Seq<u8>,
)
    requires
        naive_wf(t0),
        naive_wf(t1),
        tail.len() > 0,
        t1.is_terminal == t0.is_terminal,
        t1.children@ == mid.update(j, c1),
        0 <= j < mid.len(),
        c0 == mid[j],
        c0.label == tail[0],
        c1.label == tail[0],
        inserted ==> mid.len() == t0.children@.len() + 1 && (forall|k: int|
            0 <= k < j ==> mid[k] == t0.children@[k]) && (forall|k: int|
            j < k < mid.len() ==> mid[k] == t0.children@[k - 1]) && c0.children@.len() == 0
            && !c0.is_terminal,
        !inserted ==> mid == t0.children@,
        forall|v: Seq<u8>| #[trigger] naive_accepts(c1, v) <==> (naive_accepts(c0, v) || v == tail.drop_first()),
    ensures
        forall|u: Seq<u8>| #[trigger] naive_accepts(t1, u) <==> (naive_accepts(t0, u) || u == tail),
{
    let ch = t1.children@;
    let old_ch = t0.children@;
    let x = tail[0];
    assert forall|u: Seq<u8>| #[trigger] naive_accepts(t1, u) <==> (naive_accepts(t0, u) || u == tail) by {
        if u.len() > 0 {
            let y = u[0];
            if u == tail {
                assert(ch[j].label == y && naive_accepts(ch[j], u.drop_first()));
            }
            if naive_accepts(t1, u) {
                let k = choose|k: int|
                    0 <= k < ch.len() && (#[trigger] ch[k]).label == y && naive_accepts(ch[k], u.drop_first());
                if k == j {
                    if u.drop_first() == tail.drop_first() {
                        assert(u =~= tail) by {
                            assert forall|m: int| 0 <= m < u.len() implies u[m] == tail[m] by {
                                if m > 0 {
                                    assert(u[m] == u.drop_first()[m - 1]);
                                    assert(tail[m] == tail.drop_first()[m - 1]);
                                }
                            }
                        }
                    } else if !inserted {
                        assert(naive_accepts(t0, u));
                    } else {
                        assert(!naive_accepts(c0, u.drop_first()));
                    }
                } else {
                    let k0 = if inserted && k > j { k - 1 } else { k };
                    assert(old_ch[k0] == ch[k]);
                    assert(naive_accepts(t0, u));
                }
            }
            if naive_accepts(t0, u) {
                let k0 = choose|k: int|
                    0 <= k < old_ch.len() && (#[trigger] old_ch[k]).label == y && naive_accepts(old_ch[k], u.drop_first());
                let k = if inserted && k0 >= j { k0 + 1 } else { k0 };
                if k == j {
                    assert(naive_accepts(c1, u.drop_first()));
                } else if inserted && y == x {
                    // no old child is labeled `x`: the new leaf sits between them
                    if k0 < j {
                        assert(ch[k0].label < ch[j].label);
                    } else {
                        assert(ch[j].label < ch[k0 + 1].label);
                    }
                } else if !inserted && y == x {
                    assert(old_ch[j].label == old_ch[k0].label);
                    if k0 < j {
                        assert(old_ch[k0].label < old_ch[j].label);
                    } else {
                        assert(old_ch[j].label < old_ch[k0].label);
                    }
                }
                assert(ch[k] == old_ch[k0] || k == j);
                assert(ch[k].label == y && naive_accepts(ch[k], u.drop_first()));
            }
        }
    }
}


impl NaiveTrie {
    /// A root with no children.
    pub fn make_root() -> (r: NaiveTrie)
        ensures
            naive_wf(r),
            !r.is_terminal,
            r.children@.len() == 0,
    {
        NaiveTrie { label: 0, is_terminal: false, children: Vec::new() }
    }

    /// Inserts `word[i..]` below this node and marks its last node terminal.
    pub fn insert_from(&mut self, word: &[u8], i: usize)
        requires
            naive_wf(*old(self)),
            i <= word@.len(),
        ensures
            naive_wf(*final(self)),
            final(self).label == old(self).label,
            i < word@.len() ==> final(self).is_terminal == old(self).is_terminal,
            forall|u: Seq<u8>|
                #[trigger] naive_accepts(*final(self), u) <==> (naive_accepts(*old(self), u) || u
                    == word@.subrange(i as int, word@.len() as int)),
        decreases word@.len() - i,
    {
        let ghost t0 = *self;
        if i == word.len() {
            self.is_terminal = true;
            proof {
                assert forall|u: Seq<u8>|
                    #[trigger] naive_accepts(*self, u) <==> (naive_accepts(t0, u) || u
                        == word@.subrange(i as int, word@.len() as int)) by {
                    if u.len() == 0 {
                        assert(u =~= word@.subrange(i as int, word@.len() as int));
                    }
                }
            }
            return;
        }
        let x = word[i];
        let n = self.children.len();
        let mut j: usize = 0;
        while j < n && self.children[j].label < x
            invariant
                n == self.children@.len(),
                j <= n,
                forall|k: int| 0 <= k < j ==> (#[trigger] self.children@[k]).label < x,
            decreases n - j,
        {
            j = j + 1;
        }
        let inserted = j == n || self.children[j].label != x;
        if inserted {
            let leaf = NaiveTrie { label: x, is_terminal: false, children: Vec::new() };
            self.children.insert(j, leaf);
        }
        let ghost mid = self.children@;
        assert(self.children@[j as int].label == x);
        let mut child = self.children.remove(j);
        let ghost c0 = child;
        child.insert_from(word, i + 1);
        let ghost c1 = child;
        self.children.insert(j, child);
        proof {
            let tail = word@.subrange(i as int, word@.len() as int);
            let tail1 = word@.subrange(i + 1, word@.len() as int);
            assert(tail.drop_first() =~= tail1);
            assert(self.children@ =~= mid.update(j as int, c1));
            lemma_insert_lang(t0, *self, mid, j as int, inserted, c0, c1, tail);
        }
    }
}

} // verus!
