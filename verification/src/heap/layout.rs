//! The keys decide the layout: two trees with the same keys are the same
//! array of nodes.

use crate::heap::shape::{
    chain_ok, child_ok, covers, in_range, lemma_keys_differ, slot_ok, tree_ok, Shape, Slot,
};
use vstd::prelude::*;

verus! {

/// The array is a tree whose nodes stand in the order of the layout: after
/// the root its children, and after the children of a node the nodes below
/// its first child, then those below its second, and so on.
pub open spec fn laid_out(t: Seq<Slot>, sh: Shape) -> bool {
    &&& tree_ok(t, sh)
    &&& forall|i: int| 0 <= i < t.len() ==> #[trigger] chain_ok(t, sh, i)
    &&& t[0].letter == 0
    &&& t[0].pos == 1
    &&& sh.nexts[0] == t.len()
}

/// The keys of the nodes below the node with the key `k`.
pub open spec fn keys_below(sh: Shape, k: Seq<u8>) -> Set<Seq<u8>> {
    Set::new(|x: Seq<u8>| k.is_prefix_of(x) && x.len() > k.len() && covers(sh, x))
}

/// The keys of the children of the node with the key `k`.
pub open spec fn keys_under(sh: Shape, k: Seq<u8>) -> Set<Seq<u8>> {
    Set::new(|x: Seq<u8>| k.is_prefix_of(x) && x.len() == k.len() + 1 && covers(sh, x))
}

/// The nodes below a node stand in the run of the node.
pub proof fn lemma_chain_nests(t: Seq<Slot>, sh: Shape, i: int, y: int)
    requires
        laid_out(t, sh),
        0 <= i < t.len(),
        0 <= y < t.len(),
        sh.keys[i].is_prefix_of(sh.keys[y]),
        sh.keys[i].len() < sh.keys[y].len(),
    ensures
        t[i].pos <= y < sh.nexts[i],
        t[i].pos + t[i].num <= t[y].pos,
        sh.nexts[y] <= sh.nexts[i],
    decreases sh.keys[y].len(),
{
    if y == 0 {
        assert(false);
    }
    assert(child_ok(t, sh, y));
    let py = sh.parents[y];
    assert(sh.keys[py] =~= sh.keys[y].drop_last());
    assert(chain_ok(t, sh, py));
    assert(chain_ok(t, sh, i));
    assert(in_range(t[py], y));
    if sh.keys[py].len() == sh.keys[i].len() {
        assert(sh.keys[i] =~= sh.keys[py]);
        lemma_keys_differ(t, sh, i, py);
    } else {
        assert(sh.keys[i] =~= sh.keys[py].subrange(0, sh.keys[i].len() as int));
        lemma_chain_nests(t, sh, i, py);
    }
}

/// Among the children of a node, one has the node `x` in its run, where
/// `x` stands after the children.
proof fn lemma_child_chain(t: Seq<Slot>, sh: Shape, i: int, x: int, c: int) -> (r: int)
    requires
        laid_out(t, sh),
        0 <= i < t.len(),
        in_range(t[i], c),
        t[c].pos <= x < sh.nexts[i],
    ensures
        in_range(t[i], r),
        t[r].pos <= x < sh.nexts[r],
    decreases t[i].pos + t[i].num - c,
{
    assert(chain_ok(t, sh, i));
    assert(slot_ok(t, i));
    if x < sh.nexts[c] {
        c
    } else {
        if c == t[i].pos + t[i].num - 1 {
            assert(false);
        }
        assert(in_range(t[i], c + 1));
        lemma_child_chain(t, sh, i, x, c + 1)
    }
}

/// The nodes in the run of a node stand below it.
pub proof fn lemma_chain_owner(t: Seq<Slot>, sh: Shape, i: int, x: int)
    requires
        laid_out(t, sh),
        0 <= i < t.len(),
        t[i].pos <= x < sh.nexts[i],
    ensures
        0 <= x < t.len(),
        sh.keys[i].is_prefix_of(sh.keys[x]),
        sh.keys[i].len() < sh.keys[x].len(),
    decreases t.len() - i,
{
    assert(chain_ok(t, sh, i));
    assert(slot_ok(t, i));
    if x < t[i].pos + t[i].num {
        assert(in_range(t[i], x));
        assert(child_ok(t, sh, x));
        assert(sh.keys[i] =~= sh.keys[x].subrange(0, sh.keys[i].len() as int));
    } else {
        assert(in_range(t[i], t[i].pos));
        let c = lemma_child_chain(t, sh, i, x, t[i].pos);
        assert(slot_ok(t, c));
        assert(child_ok(t, sh, c));
        lemma_chain_owner(t, sh, c, x);
        assert(sh.keys[i] =~= sh.keys[c].subrange(0, sh.keys[i].len() as int));
        assert(sh.keys[i] =~= sh.keys[x].subrange(0, sh.keys[i].len() as int));
    }
}

/// A run of nodes has as many nodes as keys.
proof fn lemma_run_keys(t: Seq<Slot>, sh: Shape, from: int, to: int)
    requires
        tree_ok(t, sh),
        0 <= from <= to <= t.len(),
    ensures
        sh.keys.subrange(from, to).no_duplicates(),
        sh.keys.subrange(from, to).to_set().finite(),
        sh.keys.subrange(from, to).to_set().len() == to - from,
{
    let run = sh.keys.subrange(from, to);
    assert forall|a: int, b: int| 0 <= a < run.len() && 0 <= b < run.len() && a != b implies run[a]
        != run[b] by {
        if run[a] == run[b] {
            lemma_keys_differ(t, sh, from + a, from + b);
        }
    }
    run.unique_seq_to_set();
    vstd::seq_lib::seq_to_set_is_finite(run);
}

/// A node has as many nodes below it as there are keys below its key.
proof fn lemma_count_below(t: Seq<Slot>, sh: Shape, i: int)
    requires
        laid_out(t, sh),
        0 <= i < t.len(),
    ensures
        keys_below(sh, sh.keys[i]).finite(),
        keys_below(sh, sh.keys[i]).len() == sh.nexts[i] - t[i].pos,
{
    assert(chain_ok(t, sh, i));
    assert(slot_ok(t, i));
    let run = sh.keys.subrange(t[i].pos, sh.nexts[i]);
    lemma_run_keys(t, sh, t[i].pos, sh.nexts[i]);
    assert forall|x: Seq<u8>| keys_below(sh, sh.keys[i]).contains(x) <==> run.to_set().contains(
        x,
    ) by {
        if keys_below(sh, sh.keys[i]).contains(x) {
            let y = choose|y: int| 0 <= y < sh.keys.len() && #[trigger] sh.keys[y] == x;
            lemma_chain_nests(t, sh, i, y);
            assert(run[y - t[i].pos] == x);
        }
        if run.to_set().contains(x) {
            let r = choose|r: int| 0 <= r < run.len() && run[r] == x;
            lemma_chain_owner(t, sh, i, t[i].pos + r);
            assert(sh.keys[t[i].pos + r] == x);
        }
    }
    assert(keys_below(sh, sh.keys[i]) =~= run.to_set());
}

/// A node has as many children as there are keys one letter longer than
/// its key.
proof fn lemma_count_under(t: Seq<Slot>, sh: Shape, i: int)
    requires
        laid_out(t, sh),
        0 <= i < t.len(),
    ensures
        keys_under(sh, sh.keys[i]).finite(),
        keys_under(sh, sh.keys[i]).len() == t[i].num,
{
    assert(slot_ok(t, i));
    let run = sh.keys.subrange(t[i].pos, t[i].pos + t[i].num);
    lemma_run_keys(t, sh, t[i].pos, t[i].pos + t[i].num);
    assert forall|x: Seq<u8>| keys_under(sh, sh.keys[i]).contains(x) <==> run.to_set().contains(
        x,
    ) by {
        if keys_under(sh, sh.keys[i]).contains(x) {
            let y = choose|y: int| 0 <= y < sh.keys.len() && #[trigger] sh.keys[y] == x;
            if y == 0 {
                assert(false);
            }
            assert(child_ok(t, sh, y));
            let py = sh.parents[y];
            assert(sh.keys[py] =~= sh.keys[y].drop_last());
            assert(sh.keys[i] =~= sh.keys[py]);
            lemma_keys_differ(t, sh, i, py);
            assert(in_range(t[i], y));
            assert(run[y - t[i].pos] == x);
        }
        if run.to_set().contains(x) {
            let r = choose|r: int| 0 <= r < run.len() && run[r] == x;
            let y = t[i].pos + r;
            assert(in_range(t[i], y));
            assert(child_ok(t, sh, y));
            assert(sh.keys[y] == x);
            assert(sh.keys[i] =~= x.subrange(0, sh.keys[i].len() as int));
        }
    }
    assert(keys_under(sh, sh.keys[i]) =~= run.to_set());
}

/// Two trees have the same keys.
pub open spec fn same_keys(a: Shape, b: Shape) -> bool {
    forall|k: Seq<u8>| #[trigger] covers(a, k) <==> covers(b, k)
}

/// The child of node `p` with the letter `l`, in a tree that has the key of
/// that child.
proof fn lemma_child_with(t: Seq<Slot>, sh: Shape, p: int, l: u8) -> (y: int)
    requires
        laid_out(t, sh),
        0 <= p < t.len(),
        covers(sh, sh.keys[p].push(l)),
    ensures
        in_range(t[p], y),
        t[y].letter == l,
        sh.keys[y] == sh.keys[p].push(l),
{
    let x = sh.keys[p].push(l);
    let y = choose|y: int| 0 <= y < sh.keys.len() && #[trigger] sh.keys[y] == x;
    if y == 0 {
        assert(false);
    }
    assert(child_ok(t, sh, y));
    let py = sh.parents[y];
    assert(sh.keys[py] =~= x.drop_last());
    assert(sh.keys[p] =~= x.drop_last());
    lemma_keys_differ(t, sh, p, py);
    assert(t[y].letter == x.last());
    y
}

/// In two trees with the same keys, under a node that both have in the
/// same place, with the same key and as many children, a letter does not
/// stand at an earlier place in the one tree than in the other.
proof fn lemma_letter_place(ta: Seq<Slot>, a: Shape, tb: Seq<Slot>, b: Shape, p: int, r: int, q: int)
    requires
        laid_out(ta, a),
        laid_out(tb, b),
        same_keys(a, b),
        0 <= p < ta.len(),
        p < tb.len(),
        a.keys[p] == b.keys[p],
        ta[p].pos == tb[p].pos,
        ta[p].num == tb[p].num,
        0 <= r < ta[p].num,
        0 <= q < ta[p].num,
        tb[tb[p].pos + q].letter == ta[ta[p].pos + r].letter,
    ensures
        q >= r,
    decreases r,
{
    if r > 0 {
        let pos = ta[p].pos;
        assert(slot_ok(ta, p));
        assert(slot_ok(tb, p));
        // the letter before place r in the one tree stands before place q
        // in the other
        let ca = pos + r - 1;
        assert(in_range(ta[p], ca));
        assert(in_range(ta[p], pos + r));
        assert(child_ok(ta, a, ca));
        assert(a.parents[ca] == p);
        assert(a.parents[pos + r] == p);
        assert(a.parents[ca] == a.parents[pos + r]);
        assert(ta[ca].letter < ta[pos + r].letter);
        assert(covers(a, a.keys[ca]));
        let yb = lemma_child_with(tb, b, p, ta[ca].letter);
        assert(in_range(tb[p], pos + q));
        assert(b.parents[yb] == p);
        assert(b.parents[pos + q] == p);
        if yb > pos + q {
            assert(b.parents[pos + q] == b.parents[yb]);
        }
        lemma_letter_place(ta, a, tb, b, p, r - 1, yb - pos);
    }
}

/// In two trees with the same keys, the children of a node that both have
/// in the same place, with the same key and as many children, bear the same
/// letters in the same places.
proof fn lemma_same_letters(ta: Seq<Slot>, a: Shape, tb: Seq<Slot>, b: Shape, p: int, r: int)
    requires
        laid_out(ta, a),
        laid_out(tb, b),
        same_keys(a, b),
        0 <= p < ta.len(),
        p < tb.len(),
        a.keys[p] == b.keys[p],
        ta[p].pos == tb[p].pos,
        ta[p].num == tb[p].num,
        0 <= r < ta[p].num,
    ensures
        ta[ta[p].pos + r].letter == tb[tb[p].pos + r].letter,
{
    let pos = ta[p].pos;
    assert(slot_ok(ta, p));
    assert(slot_ok(tb, p));
    let ca = pos + r;
    assert(in_range(ta[p], ca));
    assert(child_ok(ta, a, ca));
    assert(a.parents[ca] == p);
    assert(covers(a, a.keys[ca]));
    let yb = lemma_child_with(tb, b, p, ta[ca].letter);
    lemma_letter_place(ta, a, tb, b, p, r, yb - pos);
    lemma_letter_place(tb, b, ta, a, p, yb - pos, r);
}

/// Two trees with the same keys, laid out in order, are the same array:
/// every node has the same key, letter and children in both.
pub proof fn lemma_same_node(ta: Seq<Slot>, a: Shape, tb: Seq<Slot>, b: Shape, i: int)
    requires
        laid_out(ta, a),
        laid_out(tb, b),
        same_keys(a, b),
        ta.len() == tb.len(),
        0 <= i < ta.len(),
    ensures
        a.keys[i] == b.keys[i],
        ta[i].letter == tb[i].letter,
        ta[i].num == tb[i].num,
        ta[i].pos == tb[i].pos,
        a.nexts[i] == b.nexts[i],
    decreases i,
{
    if i == 0 {
        assert(a.keys[0] =~= b.keys[0]);
    } else {
        assert(child_ok(ta, a, i));
        let p = a.parents[i];
        lemma_same_node(ta, a, tb, b, p);
        assert(slot_ok(ta, p));
        assert(in_range(ta[p], i));
        assert(in_range(tb[p], i));
        assert(b.parents[i] == p);
        assert(child_ok(tb, b, i));
        lemma_same_letters(ta, a, tb, b, p, i - ta[p].pos);
        assert(chain_ok(ta, a, p));
        assert(chain_ok(tb, b, p));
        if i > ta[p].pos {
            lemma_same_node(ta, a, tb, b, i - 1);
            assert(in_range(ta[p], i - 1));
            assert(in_range(tb[p], i - 1));
            assert(in_range(ta[p], (i - 1) + 1));
            assert(in_range(tb[p], (i - 1) + 1));
        }
    }
    lemma_count_under(ta, a, i);
    lemma_count_under(tb, b, i);
    assert(keys_under(a, a.keys[i]) =~= keys_under(b, b.keys[i]));
    lemma_count_below(ta, a, i);
    lemma_count_below(tb, b, i);
    assert(keys_below(a, a.keys[i]) =~= keys_below(b, b.keys[i]));
}

} // verus!
