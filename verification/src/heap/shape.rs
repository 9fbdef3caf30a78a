//! What makes an array of nodes a tree.

use crate::text::is_key_byte;
use vstd::prelude::*;

verus! {

/// A node with its numbers as mathematical integers.
pub struct Slot {
    pub letter: u8,
    pub num: int,
    pub pos: int,
    pub start: int,
    pub end: int,
}

/// What the array does not store: each node's key, its parent, where the
/// payloads and where the nodes of its subtree end, and one item whose key
/// runs through the node.
pub struct Shape {
    pub keys: Seq<Seq<u8>>,
    pub parents: Seq<int>,
    pub extents: Seq<int>,
    pub nexts: Seq<int>,
    pub samples: Seq<int>,
}

/// `c` lies in the child range of `s`.
pub open spec fn in_range(s: Slot, c: int) -> bool {
    s.pos <= c < s.pos + s.num
}

/// The children of node `i` stand after it, inside the array, and are at most
/// one for each letter.
pub open spec fn slot_ok(t: Seq<Slot>, i: int) -> bool {
    &&& 0 <= t[i].num <= 36
    &&& i < t[i].pos
    &&& t[i].pos + t[i].num <= t.len()
}

/// Node `c` is a child of an earlier node, and its key is the key of that
/// node and its own letter.
pub open spec fn child_ok(t: Seq<Slot>, sh: Shape, c: int) -> bool {
    let p = sh.parents[c];
    &&& 0 <= p < c
    &&& in_range(t[p], c)
    &&& sh.keys[c] == sh.keys[p].push(t[c].letter)
    &&& is_key_byte(t[c].letter)
}

/// The array is a tree: every node but the root is a child of exactly one
/// earlier node, keys follow the letters, and siblings are ordered by letter.
pub open spec fn tree_ok(t: Seq<Slot>, sh: Shape) -> bool {
    &&& t.len() >= 1
    &&& sh.keys.len() == t.len()
    &&& sh.parents.len() == t.len()
    &&& sh.extents.len() == t.len()
    &&& sh.nexts.len() == t.len()
    &&& sh.keys[0] == Seq::<u8>::empty()
    &&& forall|i: int| 0 <= i < t.len() ==> #[trigger] slot_ok(t, i)
    &&& forall|c: int| 1 <= c < t.len() ==> #[trigger] child_ok(t, sh, c)
    &&& forall|i: int, c: int|
        0 <= i < t.len() && #[trigger] in_range(t[i], c) ==> sh.parents[c] == i
    &&& forall|a: int, b: int|
        #![trigger sh.parents[a], sh.parents[b]]
        1 <= a < b < t.len() && sh.parents[a] == sh.parents[b] ==> t[a].letter < t[b].letter
}

/// The payloads below node `i` are the run from its own first payload to its
/// extent: its own payloads first, then the runs of its children, one after
/// the other without a gap.
pub open spec fn span_ok(t: Seq<Slot>, np: int, sh: Shape, i: int) -> bool {
    &&& 0 <= t[i].start <= t[i].end <= sh.extents[i] <= np
    &&& sh.extents[i] == if t[i].num == 0 {
        t[i].end
    } else {
        sh.extents[t[i].pos + t[i].num - 1]
    }
    &&& t[i].num > 0 ==> t[t[i].pos].start == t[i].end
    &&& forall|c: int| #[trigger]
        in_range(t[i], c) ==> t[i].end <= t[c].start && sh.extents[c] <= sh.extents[i]
    &&& forall|c: int|
        in_range(t[i], c) && #[trigger] in_range(t[i], c + 1) ==> t[c + 1].start
            == sh.extents[c]
}

/// The nodes below node `i` are the run from its first child to its end:
/// its children first, then the runs of its children, one after the other
/// without a gap.
pub open spec fn chain_ok(t: Seq<Slot>, sh: Shape, i: int) -> bool {
    &&& t[i].pos + t[i].num <= sh.nexts[i] <= t.len()
    &&& sh.nexts[i] == if t[i].num == 0 {
        t[i].pos
    } else {
        sh.nexts[t[i].pos + t[i].num - 1]
    }
    &&& t[i].num > 0 ==> t[t[i].pos].pos == t[i].pos + t[i].num
    &&& forall|c: int| #[trigger]
        in_range(t[i], c) ==> t[i].pos + t[i].num <= t[c].pos && sh.nexts[c] <= sh.nexts[i]
    &&& forall|c: int|
        in_range(t[i], c) && #[trigger] in_range(t[i], c + 1) ==> t[c + 1].pos == sh.nexts[c]
}

/// A node with an empty key is the root.
pub proof fn lemma_empty_key_is_root(t: Seq<Slot>, sh: Shape, j: int)
    requires
        tree_ok(t, sh),
        0 <= j < t.len(),
        sh.keys[j].len() == 0,
    ensures
        j == 0,
{
    if j >= 1 {
        assert(child_ok(t, sh, j));
    }
}

/// No two nodes have the same key.
pub proof fn lemma_keys_differ(t: Seq<Slot>, sh: Shape, i: int, j: int)
    requires
        tree_ok(t, sh),
        0 <= i < t.len(),
        0 <= j < t.len(),
        sh.keys[i] == sh.keys[j],
    ensures
        i == j,
    decreases sh.keys[i].len(),
{
    if i == 0 {
        lemma_empty_key_is_root(t, sh, j);
    } else if j == 0 {
        lemma_empty_key_is_root(t, sh, i);
    } else {
        assert(child_ok(t, sh, i));
        assert(child_ok(t, sh, j));
        let pi = sh.parents[i];
        let pj = sh.parents[j];
        assert(sh.keys[pi] =~= sh.keys[i].drop_last());
        assert(sh.keys[pj] =~= sh.keys[j].drop_last());
        lemma_keys_differ(t, sh, pi, pj);
        assert(t[i].letter == sh.keys[i].last());
        assert(t[j].letter == sh.keys[j].last());
        if i < j {
            assert(sh.parents[i] == sh.parents[j]);
        } else if j < i {
            assert(sh.parents[j] == sh.parents[i]);
        }
    }
}

/// Every prefix of a node's key is the key of a node.
pub proof fn lemma_ancestor(t: Seq<Slot>, sh: Shape, j: int, l: int) -> (a: int)
    requires
        tree_ok(t, sh),
        0 <= j < t.len(),
        0 <= l <= sh.keys[j].len(),
    ensures
        0 <= a < t.len(),
        sh.keys[a] == sh.keys[j].take(l),
    decreases sh.keys[j].len(),
{
    if l == sh.keys[j].len() {
        assert(sh.keys[j].take(l) =~= sh.keys[j]);
        j
    } else {
        if j == 0 {
            assert(false);
        }
        assert(child_ok(t, sh, j));
        let p = sh.parents[j];
        let a = lemma_ancestor(t, sh, p, l);
        assert(sh.keys[p].take(l) =~= sh.keys[j].take(l));
        a
    }
}

/// Where a walk from the root along `q` stops, no node has a longer prefix
/// of `q` as its key.
pub proof fn lemma_longest(t: Seq<Slot>, sh: Shape, idx: int, q: Seq<u8>, j: int)
    requires
        tree_ok(t, sh),
        0 <= idx < t.len(),
        0 <= j < t.len(),
        sh.keys[idx].is_prefix_of(q),
        sh.keys[idx].len() == q.len() || forall|c: int| #[trigger]
            in_range(t[idx], c) ==> t[c].letter != q[sh.keys[idx].len() as int],
        sh.keys[j].is_prefix_of(q),
    ensures
        sh.keys[j].len() <= sh.keys[idx].len(),
{
    let m = sh.keys[idx].len() as int;
    if sh.keys[j].len() > m {
        let a = lemma_ancestor(t, sh, j, m + 1);
        assert(sh.keys[a].len() == m + 1);
        if a == 0 {
            assert(false);
        }
        assert(child_ok(t, sh, a));
        let p = sh.parents[a];
        assert(sh.keys[p] =~= sh.keys[a].drop_last());
        assert(sh.keys[a] =~= q.take(m + 1));
        assert(sh.keys[p] =~= q.take(m));
        assert(sh.keys[idx] =~= q.take(m));
        lemma_keys_differ(t, sh, p, idx);
        assert(in_range(t[idx], a));
        assert(t[a].letter == sh.keys[a].last());
        assert(false);
    }
}

/// Some node has the key `k`.
pub open spec fn covers(sh: Shape, k: Seq<u8>) -> bool {
    exists|x: int| 0 <= x < sh.keys.len() && #[trigger] sh.keys[x] == k
}

/// The run of a node's subtree holds the runs of all nodes below it.
pub proof fn lemma_span_nests(t: Seq<Slot>, np: int, sh: Shape, i: int, j: int)
    requires
        tree_ok(t, sh),
        forall|x: int| 0 <= x < t.len() ==> #[trigger] span_ok(t, np, sh, x),
        0 <= i < t.len(),
        0 <= j < t.len(),
        sh.keys[i].is_prefix_of(sh.keys[j]),
    ensures
        t[i].start <= t[j].start,
        t[j].end <= sh.extents[j],
        sh.extents[j] <= sh.extents[i],
    decreases sh.keys[j].len(),
{
    assert(span_ok(t, np, sh, j));
    assert(span_ok(t, np, sh, i));
    if sh.keys[i].len() == sh.keys[j].len() {
        assert(sh.keys[i] =~= sh.keys[j]);
        lemma_keys_differ(t, sh, i, j);
    } else {
        if j == 0 {
            assert(false);
        }
        assert(child_ok(t, sh, j));
        let pj = sh.parents[j];
        assert(sh.keys[pj] =~= sh.keys[j].drop_last());
        assert(sh.keys[i] =~= sh.keys[pj].subrange(0, sh.keys[i].len() as int));
        lemma_span_nests(t, np, sh, i, pj);
        assert(span_ok(t, np, sh, pj));
        assert(in_range(t[pj], j));
    }
}

/// Among the children of a node, one has the payload position `s` in the
/// run of its subtree.
pub proof fn lemma_child_run(t: Seq<Slot>, np: int, sh: Shape, i: int, s: int, c: int) -> (r: int)
    requires
        tree_ok(t, sh),
        forall|x: int| 0 <= x < t.len() ==> #[trigger] span_ok(t, np, sh, x),
        0 <= i < t.len(),
        in_range(t[i], c),
        t[c].start <= s < sh.extents[i],
    ensures
        in_range(t[i], r),
        t[r].start <= s < sh.extents[r],
    decreases t[i].pos + t[i].num - c,
{
    assert(span_ok(t, np, sh, i));
    assert(slot_ok(t, i));
    if s < sh.extents[c] {
        c
    } else {
        if c == t[i].pos + t[i].num - 1 {
            assert(false);
        }
        assert(in_range(t[i], c + 1));
        lemma_child_run(t, np, sh, i, s, c + 1)
    }
}

/// Every payload in the run of a node's subtree belongs to a node below it.
pub proof fn lemma_span_owner(t: Seq<Slot>, np: int, sh: Shape, i: int, s: int) -> (j: int)
    requires
        tree_ok(t, sh),
        forall|x: int| 0 <= x < t.len() ==> #[trigger] span_ok(t, np, sh, x),
        0 <= i < t.len(),
        t[i].start <= s < sh.extents[i],
    ensures
        0 <= j < t.len(),
        sh.keys[i].is_prefix_of(sh.keys[j]),
        t[j].start <= s < t[j].end,
    decreases t.len() - i,
{
    assert(span_ok(t, np, sh, i));
    assert(slot_ok(t, i));
    if s < t[i].end {
        assert(sh.keys[i] =~= sh.keys[i].subrange(0, sh.keys[i].len() as int));
        i
    } else {
        assert(in_range(t[i], t[i].pos));
        let c = lemma_child_run(t, np, sh, i, s, t[i].pos);
        assert(slot_ok(t, c));
        assert(child_ok(t, sh, c));
        let j = lemma_span_owner(t, np, sh, c, s);
        assert(sh.keys[i] =~= sh.keys[c].subrange(0, sh.keys[i].len() as int));
        assert(sh.keys[i] =~= sh.keys[j].subrange(0, sh.keys[i].len() as int));
        j
    }
}

} // verus!
