//! Laying out the tree: from the root down, each node with the items whose
//! keys run through it.

use crate::heap::shape::{
    chain_ok, child_ok, covers, in_range, slot_ok, span_ok, tree_ok, Shape, Slot,
};
use crate::seqs::{indices, lemma_filter_push, lemma_filter_twice};
use crate::text::{all_key_bytes, is_key_byte};
use vstd::prelude::*;

verus! {

/// The place of a letter in the alphabet, digits before letters as in ASCII.
pub open spec fn slot_of(b: u8) -> int {
    if 0x30 <= b && b <= 0x39 {
        b - 0x30
    } else if 0x61 <= b && b <= 0x7a {
        b - 0x61 + 10
    } else {
        36
    }
}

/// The letter at a place of the alphabet.
pub open spec fn letter_at(s: int) -> u8 {
    if s < 10 {
        (s + 0x30) as u8
    } else {
        (s - 10 + 0x61) as u8
    }
}

fn slot_index(b: u8) -> (s: usize)
    requires
        is_key_byte(b),
    ensures
        s == slot_of(b),
        s < 36,
        letter_at(s as int) == b,
{
    if b <= 0x39 {
        (b - 0x30) as usize
    } else {
        (b - 0x61) as usize + 10
    }
}

fn slot_letter(s: usize) -> (b: u8)
    requires
        s < 36,
    ensures
        b == letter_at(s as int),
        is_key_byte(b),
        slot_of(b) == s,
{
    if s < 10 {
        s as u8 + 0x30
    } else {
        (s - 10) as u8 + 0x61
    }
}

/// The items whose key is not empty and starts with `k`.
pub open spec fn prefix_pred(fkeys: Seq<Vec<u8>>, k: Seq<u8>) -> spec_fn(usize) -> bool {
    |i: usize| fkeys[i as int]@.len() > 0 && k.is_prefix_of(fkeys[i as int]@)
}

/// The items whose key has the length `d`.
pub open spec fn own_pred(fkeys: Seq<Vec<u8>>, d: nat) -> spec_fn(usize) -> bool {
    |i: usize| fkeys[i as int]@.len() == d
}

/// The items whose key goes on, after `d` letters, with the letter at place `s`.
pub open spec fn bucket_pred(fkeys: Seq<Vec<u8>>, d: nat, s: int) -> spec_fn(usize) -> bool {
    |i: usize| fkeys[i as int]@.len() > d && slot_of(fkeys[i as int]@[d as int]) == s
}

/// The items whose key is `k`, where `k` is not empty.
pub open spec fn exact_pred(fkeys: Seq<Vec<u8>>, k: Seq<u8>) -> spec_fn(usize) -> bool {
    |i: usize| fkeys[i as int]@.len() > 0 && fkeys[i as int]@ == k
}

/// How many items the lists hold together.
pub open spec fn total_len(b: Seq<Vec<usize>>) -> int
    decreases b.len(),
{
    if b.len() == 0 {
        0
    } else {
        total_len(b.drop_last()) + b.last()@.len()
    }
}

proof fn lemma_total_bump(a: Seq<Vec<usize>>, b: Seq<Vec<usize>>, i: int)
    requires
        a.len() == b.len(),
        0 <= i < a.len(),
        forall|j: int| 0 <= j < a.len() && j != i ==> a[j]@ == b[j]@,
        b[i]@.len() == a[i]@.len() + 1,
    ensures
        total_len(b) == total_len(a) + 1,
    decreases a.len(),
{
    if i == a.len() - 1 {
        lemma_total_same(a.drop_last(), b.drop_last());
    } else {
        lemma_total_bump(a.drop_last(), b.drop_last(), i);
    }
}

proof fn lemma_total_same(a: Seq<Vec<usize>>, b: Seq<Vec<usize>>)
    requires
        a.len() == b.len(),
        forall|j: int| 0 <= j < a.len() ==> a[j]@ == b[j]@,
    ensures
        total_len(b) == total_len(a),
    decreases a.len(),
{
    if a.len() > 0 {
        lemma_total_same(a.drop_last(), b.drop_last());
    }
}

proof fn lemma_total_take(b: Seq<Vec<usize>>, s: int)
    requires
        0 <= s < b.len(),
    ensures
        total_len(b.take(s + 1)) == total_len(b.take(s)) + b[s]@.len(),
{
    assert(b.take(s + 1).drop_last() =~= b.take(s));
}

/// Sorts the items of one node into those that end here and, letter by
/// letter, those that go on.
fn distribute(list: &Vec<usize>, fkeys: &Vec<Vec<u8>>, d: usize) -> (r: (Vec<usize>, Vec<Vec<usize>>))
    requires
        forall|t: int| 0 <= t < list.len() ==> list[t] < fkeys.len(),
        forall|t: int| 0 <= t < list.len() ==> fkeys[list[t] as int]@.len() >= d,
        forall|i: int| 0 <= i < fkeys.len() ==> all_key_bytes(#[trigger] fkeys[i]@),
    ensures
        r.0@ == list@.filter(own_pred(fkeys@, d as nat)),
        r.1.len() == 36,
        forall|s: int|
            0 <= s < 36 ==> (#[trigger] r.1[s])@ == list@.filter(bucket_pred(fkeys@, d as nat, s)),
        r.0.len() + total_len(r.1@) == list.len(),
{
    let mut own: Vec<usize> = Vec::new();
    let mut buckets: Vec<Vec<usize>> = Vec::new();
    let mut s: usize = 0;
    assert(list@.take(0) =~= Seq::<usize>::empty());
    while s < 36
        invariant
            s <= 36,
            buckets.len() == s,
            forall|x: int| 0 <= x < s ==> (#[trigger] buckets[x])@ == Seq::<usize>::empty(),
            total_len(buckets@) == 0,
        decreases 36 - s,
    {
        let ghost before = buckets@;
        buckets.push(Vec::new());
        assert(buckets@.drop_last() =~= before);
        s += 1;
    }
    let mut t: usize = 0;
    while t < list.len()
        invariant
            t <= list.len(),
            buckets.len() == 36,
            forall|t: int| 0 <= t < list.len() ==> list[t] < fkeys.len(),
            forall|t: int| 0 <= t < list.len() ==> fkeys[list[t] as int]@.len() >= d,
            forall|i: int| 0 <= i < fkeys.len() ==> all_key_bytes(#[trigger] fkeys[i]@),
            own@ == list@.take(t as int).filter(own_pred(fkeys@, d as nat)),
            forall|s: int|
                0 <= s < 36 ==> (#[trigger] buckets[s])@ == list@.take(t as int).filter(
                    bucket_pred(fkeys@, d as nat, s),
                ),
            own.len() + total_len(buckets@) == t,
        decreases list.len() - t,
    {
        let idx = list[t];
        let ghost before = buckets@;
        let ghost seen = list@.take(t as int);
        proof {
            assert(list@.take(t as int + 1) =~= seen.push(idx));
            lemma_filter_push(seen, idx, own_pred(fkeys@, d as nat));
            assert forall|s: int| 0 <= s < 36 implies seen.push(idx).filter(
                bucket_pred(fkeys@, d as nat, s),
            ) == if bucket_pred(fkeys@, d as nat, s)(idx) {
                seen.filter(bucket_pred(fkeys@, d as nat, s)).push(idx)
            } else {
                seen.filter(bucket_pred(fkeys@, d as nat, s))
            } by {
                lemma_filter_push(seen, idx, bucket_pred(fkeys@, d as nat, s));
            }
        }
        if fkeys[idx].len() == d {
            own.push(idx);
        } else {
            assert(all_key_bytes(fkeys[idx as int]@));
            let slot = slot_index(fkeys[idx][d]);
            buckets[slot].push(idx);
            proof {
                lemma_total_bump(before, buckets@, slot as int);
            }
        }
        t += 1;
    }
    assert(list@.take(t as int) =~= list@);
    (own, buckets)
}


/// A node while the tree is being laid out.
pub struct Draft {
    pub letter: u8,
    pub num: usize,
    pub pos: usize,
    pub start: usize,
    pub end: usize,
}

impl Draft {
    /// The node with its numbers as mathematical integers.
    pub open spec fn slot(self) -> Slot {
        Slot {
            letter: self.letter,
            num: self.num as int,
            pos: self.pos as int,
            start: self.start as int,
            end: self.end as int,
        }
    }
}

/// The nodes with their numbers as mathematical integers.
pub open spec fn draft_slots(d: Seq<Draft>) -> Seq<Slot> {
    d.map_values(|n: Draft| n.slot())
}

/// Node `c` lies on the way to the key of some item.
pub open spec fn sample_ok(sh: Shape, fkeys: Seq<Vec<u8>>, c: int) -> bool {
    &&& 0 <= sh.samples[c] < fkeys.len()
    &&& sh.keys[c].is_prefix_of(fkeys[sh.samples[c]]@)
}

/// The payloads of node `i` are those of the items with its key, in the
/// items' order. `order` names the item of each payload.
pub open spec fn content_ok(
    t: Seq<Slot>,
    order: Seq<usize>,
    sh: Shape,
    fkeys: Seq<Vec<u8>>,
    i: int,
) -> bool {
    i >= 1 ==> order.subrange(t[i].start, t[i].end) == indices(fkeys.len()).filter(
        exact_pred(fkeys, sh.keys[i]),
    )
}

/// The state of a tree under construction: a tree throughout, and complete
/// at the nodes in `done`.
pub open spec fn grown(
    t: Seq<Slot>,
    order: Seq<usize>,
    sh: Shape,
    done: Set<int>,
    fkeys: Seq<Vec<u8>>,
) -> bool {
    &&& tree_ok(t, sh)
    &&& sh.samples.len() == t.len()
    &&& forall|c: int| 1 <= c < t.len() ==> #[trigger] sample_ok(sh, fkeys, c)
    &&& forall|i: int| #[trigger] done.contains(i) ==> 0 <= i < t.len()
    &&& forall|i: int|
        done.contains(i) ==> #[trigger] span_ok(t, order.len() as int, sh, i)
    &&& forall|i: int| done.contains(i) ==> #[trigger] chain_ok(t, sh, i)
    &&& forall|i: int|
        done.contains(i) ==> #[trigger] content_ok(t, order, sh, fkeys, i)
}

/// The nodes that are complete once the children before `j` of a node
/// whose children start at `base` are built.
pub open spec fn marked(done: Set<int>, base: int, j: int, m: int, n: int) -> Set<int> {
    Set::new(|x: int| done.contains(x) || (base <= x < base + j) || (base + m <= x < n))
}

/// What a list of items selected by a key prefix holds.
proof fn lemma_list_facts(fkeys: Seq<Vec<u8>>, k: Seq<u8>, list: Seq<usize>)
    requires
        fkeys.len() <= usize::MAX,
        list == indices(fkeys.len()).filter(prefix_pred(fkeys, k)),
    ensures
        forall|t: int| 0 <= t < list.len() ==> (#[trigger] list[t]) < fkeys.len(),
        forall|t: int|
            0 <= t < list.len() ==> fkeys[(#[trigger] list[t]) as int]@.len() > 0
                && k.is_prefix_of(fkeys[list[t] as int]@),
{
    let all = indices(fkeys.len());
    let pred = prefix_pred(fkeys, k);
    assert forall|t: int| 0 <= t < list.len() implies (#[trigger] list[t]) < fkeys.len()
        && fkeys[list[t] as int]@.len() > 0 && k.is_prefix_of(fkeys[list[t] as int]@) by {
        all.lemma_filter_pred(pred, t);
        assert(list.contains(list[t]));
        all.lemma_filter_contains_rev(pred, list[t]);
        let u = choose|u: int| 0 <= u < all.len() && all[u] == list[t];
        assert(all[u] == u);
    }
}

/// The items that go on with one letter are those selected by the longer key.
proof fn lemma_child_list(fkeys: Seq<Vec<u8>>, k: Seq<u8>, s: int)
    requires
        fkeys.len() <= usize::MAX,
        0 <= s < 36,
        forall|i: int| 0 <= i < fkeys.len() ==> all_key_bytes(#[trigger] fkeys[i]@),
    ensures
        indices(fkeys.len()).filter(prefix_pred(fkeys, k)).filter(bucket_pred(fkeys, k.len(), s))
            == indices(fkeys.len()).filter(prefix_pred(fkeys, k.push(letter_at(s)))),
{
    let all = indices(fkeys.len());
    let longer = k.push(letter_at(s));
    let d = k.len() as int;
    assert forall|i: int| 0 <= i < all.len() implies prefix_pred(fkeys, longer)(#[trigger] all[i])
        == (prefix_pred(fkeys, k)(all[i]) && bucket_pred(fkeys, k.len(), s)(all[i])) by {
        let f = fkeys[i]@;
        assert(all[i] == i);
        assert(all_key_bytes(f));
        if f.len() > 0 && longer.is_prefix_of(f) {
            assert(f.subrange(0, d + 1)[d] == longer[d]);
            assert(k =~= f.subrange(0, d));
        }
        if f.len() > d && k.is_prefix_of(f) && slot_of(f[d]) == s {
            assert(is_key_byte(f[d]));
            assert(longer =~= f.subrange(0, d + 1));
        }
    }
    lemma_filter_twice(
        all,
        prefix_pred(fkeys, k),
        bucket_pred(fkeys, k.len(), s),
        prefix_pred(fkeys, longer),
    );
}

/// The items that end at a node are those whose key is the node's key.
proof fn lemma_own_list(fkeys: Seq<Vec<u8>>, k: Seq<u8>)
    requires
        fkeys.len() <= usize::MAX,
        k.len() > 0,
    ensures
        indices(fkeys.len()).filter(prefix_pred(fkeys, k)).filter(own_pred(fkeys, k.len()))
            == indices(fkeys.len()).filter(exact_pred(fkeys, k)),
{
    let all = indices(fkeys.len());
    assert forall|i: int| 0 <= i < all.len() implies exact_pred(fkeys, k)(#[trigger] all[i]) == (
    prefix_pred(fkeys, k)(all[i]) && own_pred(fkeys, k.len())(all[i])) by {
        let f = fkeys[i]@;
        assert(all[i] == i);
        if k.is_prefix_of(f) && f.len() == k.len() {
            assert(f =~= f.subrange(0, k.len() as int));
        }
        if f == k {
            assert(f =~= f.subrange(0, k.len() as int));
        }
    }
    lemma_filter_twice(
        all,
        prefix_pred(fkeys, k),
        own_pred(fkeys, k.len()),
        exact_pred(fkeys, k),
    );
}


/// The letters with which the items of a node go on: the places of the
/// alphabet in increasing order.
pub open spec fn kids_ok(kids: Seq<usize>) -> bool {
    &&& kids.len() <= 36
    &&& forall|x: int| 0 <= x < kids.len() ==> (#[trigger] kids[x]) < 36
    &&& forall|x: int, y: int| 0 <= x < y < kids.len() ==> kids[x] < kids[y]
}

/// How many items go on with the first `j` of those letters.
pub open spec fn kids_total(buckets: Seq<Vec<usize>>, kids: Seq<usize>, j: int) -> int
    decreases j,
{
    if j <= 0 {
        0
    } else {
        kids_total(buckets, kids, j - 1) + buckets[kids[j - 1] as int]@.len()
    }
}

proof fn lemma_kids_total_push(buckets: Seq<Vec<usize>>, kids: Seq<usize>, s: usize, j: int)
    requires
        0 <= j <= kids.len(),
    ensures
        kids_total(buckets, kids.push(s), j) == kids_total(buckets, kids, j),
    decreases j,
{
    if j > 0 {
        lemma_kids_total_push(buckets, kids, s, j - 1);
    }
}

/// The nodes after node `p` got its children, one for each letter in `kids`.
pub open spec fn alloc_slots(t: Seq<Slot>, p: int, kids: Seq<usize>, st: int, en: int) -> Seq<
    Slot,
> {
    let base = t.len() as int;
    t.update(
        p,
        Slot { letter: t[p].letter, num: kids.len() as int, pos: base, start: st, end: en },
    ) + Seq::new(
        kids.len(),
        |x: int| Slot { letter: letter_at(kids[x] as int), num: 0, pos: base + x + 1, start: 0, end: 0 },
    )
}

/// The keys, parents and samples after node `p` got its children.
pub open spec fn alloc_shape(sh: Shape, p: int, kids: Seq<usize>, firsts: Seq<int>) -> Shape {
    Shape {
        keys: sh.keys + Seq::new(kids.len(), |x: int| sh.keys[p].push(letter_at(kids[x] as int))),
        parents: sh.parents + Seq::new(kids.len(), |x: int| p),
        extents: sh.extents + Seq::new(kids.len(), |x: int| 0int),
        nexts: sh.nexts + Seq::new(kids.len(), |x: int| 0int),
        samples: sh.samples + Seq::new(kids.len(), |x: int| firsts[x]),
    }
}

/// Giving a leaf its children keeps the tree a tree.
proof fn lemma_alloc(
    t: Seq<Slot>,
    ord0: Seq<usize>,
    ord1: Seq<usize>,
    sh: Shape,
    done: Set<int>,
    fkeys: Seq<Vec<u8>>,
    p: int,
    kids: Seq<usize>,
    firsts: Seq<int>,
    st: int,
    en: int,
)
    requires
        grown(t, ord0, sh, done, fkeys),
        0 <= p < t.len(),
        t[p].num == 0,
        !done.contains(p),
        p >= 1 ==> !done.contains(sh.parents[p]),
        ord0.len() <= ord1.len(),
        ord1.take(ord0.len() as int) == ord0,
        kids_ok(kids),
        firsts.len() == kids.len(),
        forall|x: int|
            0 <= x < kids.len() ==> 0 <= (#[trigger] firsts[x]) < fkeys.len() && sh.keys[p].push(
                letter_at(kids[x] as int),
            ).is_prefix_of(fkeys[firsts[x]]@),
    ensures
        grown(
            alloc_slots(t, p, kids, st, en),
            ord1,
            alloc_shape(sh, p, kids, firsts),
            done,
            fkeys,
        ),
{
    let base = t.len() as int;
    let m = kids.len() as int;
    let t1 = alloc_slots(t, p, kids, st, en);
    let sh1 = alloc_shape(sh, p, kids, firsts);
    assert(t1.len() == base + m);
    assert forall|i: int| 0 <= i < t1.len() implies #[trigger] slot_ok(t1, i) by {
        if i < base {
            assert(slot_ok(t, i));
        }
    }
    assert forall|c: int| 1 <= c < t.len() implies sh.parents[c] != p by {
        assert(child_ok(t, sh, c));
    }
    assert forall|c: int| 1 <= c < t1.len() implies #[trigger] child_ok(t1, sh1, c) by {
        if c < base {
            assert(child_ok(t, sh, c));
            assert(sample_ok(sh, fkeys, c));
        } else {
            let x = c - base;
            assert(kids[x] < 36);
            assert(slot_ok(t, p));
        }
    }
    assert forall|i: int, c: int| 0 <= i < t1.len() && #[trigger] in_range(t1[i], c) implies
        sh1.parents[c] == i by {
        if i < base && i != p {
            assert(slot_ok(t, i));
            assert(in_range(t[i], c));
        }
    }
    assert forall|a: int, b: int|
        #![trigger sh1.parents[a], sh1.parents[b]]
        1 <= a < b < t1.len() && sh1.parents[a] == sh1.parents[b] implies t1[a].letter
            < t1[b].letter by {
        if b < base {
            assert(sh.parents[a] == sh.parents[b]);
        } else if a < base {
            assert(sh.parents[a] != p);
        } else {
            assert(kids[a - base] < kids[b - base]);
            assert(kids[b - base] < 36);
        }
    }
    assert(tree_ok(t1, sh1));
    assert forall|c: int| 1 <= c < t1.len() implies #[trigger] sample_ok(sh1, fkeys, c) by {
        if c < base {
            assert(sample_ok(sh, fkeys, c));
        } else {
            assert(0 <= firsts[c - base] < fkeys.len());
        }
    }
    assert forall|i: int| done.contains(i) implies #[trigger] span_ok(
        t1,
        ord1.len() as int,
        sh1,
        i,
    ) by {
        assert(span_ok(t, ord0.len() as int, sh, i));
        assert(slot_ok(t, i));
        assert(t1[i] == t[i]);
        assert forall|c: int| in_range(t[i], c) implies c != p && c < base by {
            assert(sh.parents[c] == i);
        }
        if t[i].num > 0 {
            assert(in_range(t[i], t[i].pos));
            assert(in_range(t[i], t[i].pos + t[i].num - 1));
        }
        assert forall|c: int| in_range(t1[i], c) && #[trigger] in_range(t1[i], c + 1) implies t1[c
            + 1].start == sh1.extents[c] by {
            assert(in_range(t[i], c));
            assert(in_range(t[i], c + 1));
        }
    }
    assert forall|i: int| done.contains(i) implies #[trigger] chain_ok(t1, sh1, i) by {
        assert(chain_ok(t, sh, i));
        assert(slot_ok(t, i));
        assert(t1[i] == t[i]);
        assert forall|c: int| in_range(t[i], c) implies c != p && c < base by {
            assert(sh.parents[c] == i);
        }
        if t[i].num > 0 {
            assert(in_range(t[i], t[i].pos));
            assert(in_range(t[i], t[i].pos + t[i].num - 1));
        }
        assert forall|c: int| in_range(t1[i], c) && #[trigger] in_range(t1[i], c + 1) implies t1[c
            + 1].pos == sh1.nexts[c] by {
            assert(in_range(t[i], c));
            assert(in_range(t[i], c + 1));
        }
    }
    assert forall|i: int| done.contains(i) implies #[trigger] content_ok(
        t1,
        ord1,
        sh1,
        fkeys,
        i,
    ) by {
        assert(span_ok(t, ord0.len() as int, sh, i));
        assert(content_ok(t, ord0, sh, fkeys, i));
        assert(t1[i] == t[i]);
        assert(ord1.subrange(t[i].start, t[i].end) =~= ord0.subrange(t[i].start, t[i].end));
    }
}


/// What building the subtree of node `p` from the items in `list` leaves
/// behind: the subtree is complete and the rest is untouched.
pub open spec fn subtree_built(
    t0: Seq<Slot>,
    ord0: Seq<usize>,
    sh0: Shape,
    done: Set<int>,
    t1: Seq<Slot>,
    ord1: Seq<usize>,
    sh1: Shape,
    fkeys: Seq<Vec<u8>>,
    p: int,
    list: Seq<usize>,
    depth: int,
) -> bool {
    let n0 = t0.len() as int;
    &&& t1.len() >= n0
    &&& grown(t1, ord1, sh1, marked(done.insert(p), n0, 0, 0, t1.len() as int), fkeys)
    &&& forall|x: int| 0 <= x < n0 && x != p ==> (#[trigger] t1[x]) == t0[x]
    &&& t1[p].letter == t0[p].letter
    &&& forall|x: int| 0 <= x < n0 ==> (#[trigger] sh1.keys[x]) == sh0.keys[x]
    &&& forall|x: int| 0 <= x < n0 ==> (#[trigger] sh1.parents[x]) == sh0.parents[x]
    &&& forall|x: int| 0 <= x < n0 && x != p ==> (#[trigger] sh1.extents[x]) == sh0.extents[x]
    &&& forall|x: int| 0 <= x < n0 && x != p ==> (#[trigger] sh1.nexts[x]) == sh0.nexts[x]
    &&& t1[p].pos == n0
    &&& sh1.nexts[p] == t1.len()
    &&& ord1.len() == ord0.len() + list.len()
    &&& ord1.take(ord0.len() as int) == ord0
    &&& t1[p].start == ord0.len()
    &&& depth == 0 ==> t1[p].end == t1[p].start
    &&& sh1.extents[p] == ord1.len()
    &&& forall|t: int, l: int|
        0 <= t < list.len() && depth < l <= fkeys[list[t] as int]@.len() ==> covers(
            sh1,
            #[trigger] fkeys[list[t] as int]@.take(l),
        )
}

/// What a filter keeps satisfies the predicate and was in the list.
pub proof fn lemma_filter_elems(list: Seq<usize>, pred: spec_fn(usize) -> bool, bound: int)
    requires
        forall|t: int| 0 <= t < list.len() ==> (#[trigger] list[t]) < bound,
    ensures
        forall|x: int|
            0 <= x < list.filter(pred).len() ==> (#[trigger] list.filter(pred)[x]) < bound
                && pred(list.filter(pred)[x]) && list.contains(list.filter(pred)[x]),
{
    let f = list.filter(pred);
    assert forall|x: int| 0 <= x < f.len() implies (#[trigger] f[x]) < bound && pred(f[x])
        && list.contains(f[x]) by {
        list.lemma_filter_pred(pred, x);
        assert(f.contains(f[x]));
        list.lemma_filter_contains_rev(pred, f[x]);
    }
}

/// Lays out the subtree of node `p`, whose key has `depth` letters and which
/// the items in `list` run through: the node's own payloads first, then room
/// for its children, then each child's subtree in the order of the letters.
pub fn build_subtree(
    fkeys: &Vec<Vec<u8>>,
    list: &Vec<usize>,
    depth: usize,
    p: usize,
    nodes: &mut Vec<Draft>,
    order: &mut Vec<usize>,
    Ghost(sh): Ghost<Shape>,
    Ghost(done): Ghost<Set<int>>,
) -> (out: Ghost<Shape>)
    requires
        forall|i: int| 0 <= i < fkeys.len() ==> all_key_bytes(#[trigger] fkeys[i]@),
        grown(draft_slots(old(nodes)@), old(order)@, sh, done, fkeys@),
        p < old(nodes).len(),
        old(nodes)[p as int].num == 0,
        !done.contains(p as int),
        p >= 1 ==> !done.contains(sh.parents[p as int]),
        sh.keys[p as int].len() == depth,
        list@ == indices(fkeys@.len()).filter(prefix_pred(fkeys@, sh.keys[p as int])),
    ensures
        subtree_built(
            draft_slots(old(nodes)@),
            old(order)@,
            sh,
            done,
            draft_slots(final(nodes)@),
            final(order)@,
            out@,
            fkeys@,
            p as int,
            list@,
            depth as int,
        ),
    decreases usize::MAX - depth,
{
    let ghost t0 = draft_slots(nodes@);
    let ghost ord0 = order@;
    let ghost key = sh.keys[p as int];
    let ghost all = indices(fkeys@.len());
    proof {
        lemma_list_facts(fkeys@, key, list@);
        assert forall|t: int| 0 <= t < list.len() implies fkeys[list[t] as int]@.len()
            >= depth by {
            assert(key.is_prefix_of(fkeys[list[t] as int]@));
        }
    }
    let (own, buckets) = distribute(list, fkeys, depth);
    proof {
        lemma_filter_elems(list@, own_pred(fkeys@, depth as nat), fkeys.len() as int);
        assert forall|s: int, x: int| 0 <= s < 36 && 0 <= x < buckets[s]@.len() implies (
        #[trigger] buckets[s]@[x]) < fkeys.len() && fkeys[buckets[s]@[x] as int]@.len()
            > depth by {
            lemma_filter_elems(list@, bucket_pred(fkeys@, depth as nat, s), fkeys.len() as int);
        }
    }
    let start = order.len();
    let mut i: usize = 0;
    assert(own@.take(0) =~= Seq::<usize>::empty());
    assert(order@ =~= ord0 + own@.take(0));
    while i < own.len()
        invariant
            i <= own.len(),
            order@ == ord0 + own@.take(i as int),
        decreases own.len() - i,
    {
        order.push(own[i]);
        assert(order@ =~= ord0 + own@.take(i as int + 1));
        i += 1;
    }
    assert(own@.take(i as int) =~= own@);
    let end = order.len();
    let ghost ord_own = order@;
    let mut kids: Vec<usize> = Vec::new();
    let mut s: usize = 0;
    assert(buckets@.take(0) =~= Seq::<Vec<usize>>::empty());
    while s < 36
        invariant
            s <= 36,
            buckets.len() == 36,
            kids.len() <= s,
            forall|x: int|
                0 <= x < kids.len() ==> (#[trigger] kids[x]) < s && buckets[kids[x] as int]@.len()
                    > 0,
            forall|x: int, y: int| 0 <= x < y < kids.len() ==> kids[x] < kids[y],
            forall|s2: int|
                0 <= s2 < s && buckets[s2]@.len() > 0 ==> exists|x: int|
                    0 <= x < kids.len() && #[trigger] kids[x] == s2,
            kids_total(buckets@, kids@, kids.len() as int) == total_len(buckets@.take(s as int)),
        decreases 36 - s,
    {
        proof {
            lemma_total_take(buckets@, s as int);
        }
        if buckets[s].len() > 0 {
            let ghost before = kids@;
            kids.push(s);
            proof {
                lemma_kids_total_push(buckets@, before, s, before.len() as int);
                assert forall|s2: int| 0 <= s2 < s + 1 && buckets[s2]@.len() > 0 implies exists|
                    x: int,
                |
                    0 <= x < kids.len() && #[trigger] kids[x] == s2 by {
                    if s2 < s {
                        let x = choose|x: int| 0 <= x < before.len() && #[trigger] before[x] == s2;
                        assert(kids[x] == s2);
                    } else {
                        assert(kids[before.len() as int] == s2);
                    }
                }
            }
        }
        s += 1;
    }
    assert(buckets@.take(36) =~= buckets@);
    let m = kids.len();
    let base = nodes.len();
    let letter = nodes[p].letter;
    let mut j: usize = 0;
    while j < m
        invariant
            j <= m,
            m == kids.len(),
            m <= 36,
            forall|x: int| 0 <= x < kids.len() ==> (#[trigger] kids[x]) < 36,
            nodes@.len() == base + j,
            t0.len() == base,
            draft_slots(nodes@) =~= t0 + Seq::new(
                j as nat,
                |x: int|
                    Slot {
                        letter: letter_at(kids[x] as int),
                        num: 0,
                        pos: base + x + 1,
                        start: 0,
                        end: 0,
                    },
            ),
        decreases m - j,
    {
        let b = slot_letter(kids[j]);
        let ghost prev = draft_slots(nodes@);
        nodes.push(Draft { letter: b, num: 0, pos: 0, start: 0, end: 0 });
        let after = nodes.len();
        nodes.set(after - 1, Draft { letter: b, num: 0, pos: after, start: 0, end: 0 });
        proof {
            let now = draft_slots(nodes@);
            let want = t0 + Seq::new(
                (j + 1) as nat,
                |x: int|
                    Slot {
                        letter: letter_at(kids[x] as int),
                        num: 0,
                        pos: base + x + 1,
                        start: 0,
                        end: 0,
                    },
            );
            assert(now.len() == want.len());
            assert forall|x: int| 0 <= x < now.len() implies now[x] == want[x] by {
                if x < base + j {
                    assert(now[x] == prev[x]);
                }
            }
        }
        j += 1;
    }
    let ghost filled = draft_slots(nodes@);
    nodes.set(p, Draft { letter, num: m, pos: base, start, end });
    let ghost firsts = Seq::new(m as nat, |x: int| buckets[kids[x] as int]@[0] as int);
    let ghost t1 = alloc_slots(t0, p as int, kids@, start as int, end as int);
    let ghost sh1 = alloc_shape(sh, p as int, kids@, firsts);
    proof {
        let now = draft_slots(nodes@);
        assert(now.len() == t1.len());
        assert forall|x: int| 0 <= x < now.len() implies now[x] == t1[x] by {
            if x != p {
                assert(now[x] == filled[x]);
            }
        }
        assert(now =~= t1);
        assert(order@.take(ord0.len() as int) =~= ord0);
        assert forall|x: int| 0 <= x < kids.len() implies 0 <= (#[trigger] firsts[x])
            < fkeys.len() && key.push(letter_at(kids[x] as int)).is_prefix_of(
            fkeys[firsts[x]]@,
        ) by {
            let sl = kids[x] as int;
            lemma_child_list(fkeys@, key, sl);
            lemma_list_facts(fkeys@, key.push(letter_at(sl)), buckets[sl]@);
            assert(buckets[sl]@[0] < fkeys.len());
        }
        lemma_alloc(
            t0,
            ord0,
            order@,
            sh,
            done,
            fkeys@,
            p as int,
            kids@,
            firsts,
            start as int,
            end as int,
        );
        assert(marked(done, base as int, 0, m as int, nodes.len() as int) =~= done);
    }
    let mut j: usize = 0;
    let ghost mut cur = sh1;
    while j < m
        invariant
            j <= m,
            m == kids.len(),
            m <= 36,
            buckets.len() == 36,
            base == t0.len(),
            fkeys@.len() <= usize::MAX,
            p < base,
            depth == key.len(),
            key == sh.keys[p as int],
            t1.len() == base + m,
            sh.keys.len() == base,
            sh1.keys.len() == base + m,
            sh1.parents.len() == base + m,
            sh1.extents.len() == base + m,
            sh1.nexts.len() == base + m,
            end >= 0,
            forall|x: int| base <= x < base + m ==> (#[trigger] t1[x]).num == 0,
            forall|i: int| 0 <= i < fkeys.len() ==> all_key_bytes(#[trigger] fkeys[i]@),
            list@ == indices(fkeys@.len()).filter(prefix_pred(fkeys@, key)),
            forall|s: int|
                0 <= s < 36 ==> (#[trigger] buckets[s])@ == list@.filter(
                    bucket_pred(fkeys@, depth as nat, s),
                ),
            forall|x: int|
                0 <= x < kids.len() ==> (#[trigger] kids[x]) < 36 && buckets[kids[x] as int]@.len()
                    > 0,
            forall|s: int, x: int|
                0 <= s < 36 && 0 <= x < buckets[s]@.len() ==> (#[trigger] buckets[s]@[x])
                    < fkeys.len() && fkeys[buckets[s]@[x] as int]@.len() > depth,
            forall|x: int|
                0 <= x < m ==> (#[trigger] sh1.keys[base + x]) == key.push(
                    letter_at(kids[x] as int),
                ) && sh1.parents[base + x] == p,
            !done.contains(p as int),
            forall|i: int| #[trigger] done.contains(i) ==> 0 <= i < base,
            nodes.len() >= base + m,
            grown(
                draft_slots(nodes@),
                order@,
                cur,
                marked(done, base as int, j as int, m as int, nodes.len() as int),
                fkeys@,
            ),
            forall|x: int| 0 <= x < base ==> (#[trigger] draft_slots(nodes@)[x]) == t1[x],
            forall|x: int|
                base + j <= x < base + m ==> (#[trigger] draft_slots(nodes@)[x]) == t1[x],
            forall|x: int| 0 <= x < base + m ==> (#[trigger] cur.keys[x]) == sh1.keys[x],
            forall|x: int| 0 <= x < base + m ==> (#[trigger] cur.parents[x]) == sh1.parents[x],
            forall|x: int| 0 <= x < base ==> (#[trigger] cur.extents[x]) == sh1.extents[x],
            forall|x: int| 0 <= x < base ==> (#[trigger] cur.nexts[x]) == sh1.nexts[x],
            nodes.len() == if j == 0 {
                base + m
            } else {
                cur.nexts[base + j - 1]
            },
            forall|x: int|
                0 <= x < j ==> base + m <= (#[trigger] draft_slots(nodes@)[base + x]).pos
                    && cur.nexts[base + x] <= nodes.len(),
            j > 0 ==> draft_slots(nodes@)[base as int].pos == base + m,
            forall|x: int|
                0 <= x && x + 1 < j ==> (#[trigger] draft_slots(nodes@)[base + x + 1]).pos
                    == cur.nexts[base + x],
            order.len() == if j == 0 {
                end as int
            } else {
                cur.extents[base + j - 1]
            },
            order.len() == end + kids_total(buckets@, kids@, j as int),
            forall|x: int|
                0 <= x < j ==> end <= (#[trigger] draft_slots(nodes@)[base + x]).start
                    && cur.extents[base + x] <= order.len(),
            j > 0 ==> draft_slots(nodes@)[base as int].start == end,
            forall|x: int|
                0 <= x && x + 1 < j ==> (#[trigger] draft_slots(nodes@)[base + x + 1]).start
                    == cur.extents[base + x],
            order@.take(end as int) == ord_own,
            forall|x: int, t: int, l: int|
                0 <= x < j && 0 <= t < buckets[kids[x] as int]@.len() && depth < l
                    <= fkeys[buckets[kids[x] as int]@[t] as int]@.len() ==> covers(
                    cur,
                    #[trigger] fkeys[buckets[kids[x] as int]@[t] as int]@.take(l),
                ),
        decreases m - j,
    {
        let c = base + j;
        let sl = kids[j];
        let ghost before_t = draft_slots(nodes@);
        let ghost before_ord = order@;
        let ghost before_sh = cur;
        let ghost before_done = marked(done, base as int, j as int, m as int, nodes.len() as int);
        let ghost n_pre = nodes.len() as int;
        proof {
            lemma_child_list(fkeys@, key, sl as int);
            assert(before_t[c as int] == t1[c as int]);
            assert(cur.keys[c as int] == sh1.keys[base + j]);
            assert(cur.parents[c as int] == sh1.parents[base + j]);
            assert(fkeys[buckets[sl as int]@[0] as int]@.len() > depth);
            assert(t1[c as int].num == 0);
            lemma_kids_total_nonneg(buckets@, kids@, j as int);
        }
        let first_len = fkeys[buckets[sl][0]].len();
        assert(depth < first_len);
        let out = build_subtree(
            fkeys,
            &buckets[sl],
            depth + 1,
            c,
            nodes,
            order,
            Ghost(cur),
            Ghost(before_done),
        );
        proof {
            cur = out@;
            let now_t = draft_slots(nodes@);
            assert(marked(before_done.insert(c as int), n_pre, 0, 0, nodes.len() as int)
                =~= marked(done, base as int, j + 1, m as int, nodes.len() as int));
            assert forall|x: int, t: int, l: int|
                0 <= x < j + 1 && 0 <= t < buckets[kids[x] as int]@.len() && depth < l
                    <= fkeys[buckets[kids[x] as int]@[t] as int]@.len() implies covers(
                cur,
                #[trigger] fkeys[buckets[kids[x] as int]@[t] as int]@.take(l),
            ) by {
                let f = fkeys[buckets[kids[x] as int]@[t] as int]@;
                if x < j {
                    assert(covers(before_sh, f.take(l)));
                    let w = choose|w: int|
                        0 <= w < before_sh.keys.len() && #[trigger] before_sh.keys[w] == f.take(l);
                    assert(cur.keys[w] == before_sh.keys[w]);
                } else if l > depth + 1 {
                } else {
                    lemma_list_facts(fkeys@, key.push(letter_at(sl as int)), buckets[sl as int]@);
                    assert(cur.keys[c as int] == before_sh.keys[c as int]);
                    assert(f.take(l) =~= key.push(letter_at(sl as int)));
                }
            }
            assert(now_t[base as int].start == end) by {
                if j > 0 {
                    assert(now_t[base as int] == before_t[base as int]);
                }
            }
            assert(now_t[base as int].pos == base + m) by {
                if j > 0 {
                    assert(now_t[base as int] == before_t[base as int]);
                }
            }
            assert forall|x: int| 0 <= x < j + 1 implies base + m <= (#[trigger] now_t[base
                + x]).pos && cur.nexts[base + x] <= nodes.len() by {
                if x < j {
                    assert(now_t[base + x] == before_t[base + x]);
                    assert(cur.nexts[base + x] == before_sh.nexts[base + x]);
                }
            }
            assert forall|x: int| 0 <= x && x + 1 < j + 1 implies (#[trigger] now_t[base + x
                + 1]).pos == cur.nexts[base + x] by {
                assert(cur.nexts[base + x] == before_sh.nexts[base + x]);
                if x + 1 < j {
                    assert(now_t[base + x + 1] == before_t[base + x + 1]);
                }
            }
            assert forall|x: int| 0 <= x < j + 1 implies end <= (#[trigger] now_t[base
                + x]).start && cur.extents[base + x] <= order.len() by {
                if x < j {
                    assert(now_t[base + x] == before_t[base + x]);
                    assert(cur.extents[base + x] == before_sh.extents[base + x]);
                }
            }
            assert forall|x: int| 0 <= x && x + 1 < j + 1 implies (#[trigger] now_t[base + x
                + 1]).start == cur.extents[base + x] by {
                assert(cur.extents[base + x] == before_sh.extents[base + x]);
                if x + 1 < j {
                    assert(now_t[base + x + 1] == before_t[base + x + 1]);
                }
            }
            assert(order@.take(end as int) =~= before_ord.take(end as int));
        }
        j += 1;
    }
    let ghost fin = Shape {
        keys: cur.keys,
        parents: cur.parents,
        extents: cur.extents.update(p as int, order.len() as int),
        nexts: cur.nexts.update(p as int, nodes.len() as int),
        samples: cur.samples,
    };
    proof {
        let t = draft_slots(nodes@);
        let n = t.len() as int;
        let np = order.len() as int;
        let prior = marked(done, base as int, m as int, m as int, n);
        let total = marked(done.insert(p as int), base as int, 0, 0, n);
        assert(total =~= prior.insert(p as int));
        assert forall|c: int| 1 <= c < n implies #[trigger] child_ok(t, fin, c) by {
            assert(child_ok(t, cur, c));
        }
        assert(tree_ok(t, fin));
        assert forall|c: int| 1 <= c < n implies #[trigger] sample_ok(fin, fkeys@, c) by {
            assert(sample_ok(cur, fkeys@, c));
        }
        assert(t[p as int] == t1[p as int]);
        assert forall|i: int| total.contains(i) implies #[trigger] span_ok(t, np, fin, i) by {
            if i != p {
                assert(prior.contains(i));
                assert(span_ok(t, np, cur, i));
                assert(slot_ok(t, i));
                assert forall|c: int| in_range(t[i], c) implies c != p by {
                    assert(cur.parents[c] == i);
                    if c == p {
                        assert(cur.parents[p as int] == sh1.parents[p as int]);
                    }
                }
                if t[i].num > 0 {
                    assert(in_range(t[i], t[i].pos + t[i].num - 1));
                }
                assert forall|c: int| in_range(t[i], c) && #[trigger] in_range(
                    t[i],
                    c + 1,
                ) implies t[c + 1].start == fin.extents[c] by {
                    assert(in_range(t[i], c));
                }
            } else {
                assert(kids_total(buckets@, kids@, m as int) >= 0) by {
                    lemma_kids_total_nonneg(buckets@, kids@, m as int);
                }
                assert forall|c: int| #[trigger] in_range(t[p as int], c) implies t[p as int].end
                    <= t[c].start && fin.extents[c] <= fin.extents[p as int] by {
                    assert(end <= t[base + (c - base)].start);
                }
                assert forall|c: int|
                    in_range(t[p as int], c) && #[trigger] in_range(
                        t[p as int],
                        c + 1,
                    ) implies t[c + 1].start == fin.extents[c] by {
                    assert(t[base + (c - base) + 1].start == cur.extents[base + (c - base)]);
                }
            }
        }
        assert forall|i: int| total.contains(i) implies #[trigger] chain_ok(t, fin, i) by {
            if i != p {
                assert(prior.contains(i));
                assert(chain_ok(t, cur, i));
                assert(slot_ok(t, i));
                assert forall|c: int| in_range(t[i], c) implies c != p by {
                    assert(cur.parents[c] == i);
                    if c == p {
                        assert(cur.parents[p as int] == sh1.parents[p as int]);
                    }
                }
                if t[i].num > 0 {
                    assert(in_range(t[i], t[i].pos + t[i].num - 1));
                }
                assert forall|c: int| in_range(t[i], c) && #[trigger] in_range(
                    t[i],
                    c + 1,
                ) implies t[c + 1].pos == fin.nexts[c] by {
                    assert(in_range(t[i], c));
                }
            } else {
                assert forall|c: int| #[trigger] in_range(t[p as int], c) implies t[p as int].pos
                    + t[p as int].num <= t[c].pos && fin.nexts[c] <= fin.nexts[p as int] by {
                    assert(base + m <= t[base + (c - base)].pos);
                }
                assert forall|c: int|
                    in_range(t[p as int], c) && #[trigger] in_range(
                        t[p as int],
                        c + 1,
                    ) implies t[c + 1].pos == fin.nexts[c] by {
                    assert(t[base + (c - base) + 1].pos == cur.nexts[base + (c - base)]);
                }
            }
        }
        assert forall|i: int| total.contains(i) implies #[trigger] content_ok(
            t,
            order@,
            fin,
            fkeys@,
            i,
        ) by {
            if i != p {
                assert(prior.contains(i));
                assert(content_ok(t, order@, cur, fkeys@, i));
            } else if p >= 1 {
                assert(child_ok(t0, sh, p as int));
                lemma_own_list(fkeys@, key);
                assert(cur.keys[p as int] == sh1.keys[p as int]);
                assert(order@.subrange(start as int, end as int) =~= ord_own.subrange(
                    start as int,
                    end as int,
                ));
                assert(ord_own.subrange(start as int, end as int) =~= own@);
            }
        }
        assert forall|i: int| #[trigger] total.contains(i) implies 0 <= i < n by {
            if i != p {
                assert(prior.contains(i));
            }
        }
        assert(grown(t, order@, fin, total, fkeys@));
        if depth == 0 && own.len() > 0 {
            assert(own@[0] < fkeys.len() && own_pred(fkeys@, depth as nat)(own@[0])
                && list@.contains(own@[0]));
            let u = choose|u: int| 0 <= u < list.len() && list[u] == own@[0];
            assert(fkeys[list[u] as int]@.len() > 0);
        }
        assert forall|x: int| 0 <= x < base && x != p implies (#[trigger] t[x]) == t0[x] by {
            assert(t[x] == t1[x]);
        }
        assert forall|x: int| 0 <= x < base implies (#[trigger] fin.keys[x]) == sh.keys[x]
            && fin.parents[x] == sh.parents[x] by {
            assert(cur.keys[x] == sh1.keys[x]);
            assert(cur.parents[x] == sh1.parents[x]);
        }
        assert forall|x: int| 0 <= x < base && x != p implies (#[trigger] fin.extents[x])
            == sh.extents[x] by {
            assert(cur.extents[x] == sh1.extents[x]);
        }
        assert forall|x: int| 0 <= x < base && x != p implies (#[trigger] fin.nexts[x])
            == sh.nexts[x] by {
            assert(cur.nexts[x] == sh1.nexts[x]);
        }
        assert(order@.take(ord0.len() as int) =~= ord0) by {
            assert(order@.take(end as int).take(ord0.len() as int) =~= order@.take(
                ord0.len() as int,
            ));
        }
        assert forall|tt: int, l: int|
            0 <= tt < list.len() && depth < l <= fkeys[list[tt] as int]@.len() implies covers(
            fin,
            #[trigger] fkeys[list[tt] as int]@.take(l),
        ) by {
            let idx = list[tt];
            let f = fkeys[idx as int]@;
            assert(all_key_bytes(f));
            let sl = slot_of(f[depth as int]);
            assert(bucket_pred(fkeys@, depth as nat, sl)(idx));
            list@.lemma_filter_contains(bucket_pred(fkeys@, depth as nat, sl), tt);
            let bk = buckets[sl]@;
            assert(bk.contains(idx));
            let t2 = choose|t2: int| 0 <= t2 < bk.len() && bk[t2] == idx;
            let x = choose|x: int| 0 <= x < kids.len() && #[trigger] kids[x] == sl;
            assert(covers(cur, fkeys[buckets[kids[x] as int]@[t2] as int]@.take(l)));
        }
    }
    Ghost(fin)
}

proof fn lemma_kids_total_nonneg(buckets: Seq<Vec<usize>>, kids: Seq<usize>, j: int)
    ensures
        kids_total(buckets, kids, j) >= 0,
    decreases j,
{
    if j > 0 {
        lemma_kids_total_nonneg(buckets, kids, j - 1);
    }
}

} // verus!
