//! A prefix tree over `[a-z0-9]` keys, packed into one array of nodes.
//!
//! The root is node 0. The children of a node stand side by side, later in
//! the array than the node itself, in increasing order of their letters. The
//! letters on the way from the root to a node spell the node's key. Payloads
//! are kept in a second array, in the order in which a depth-first walk meets
//! their nodes, so the payloads below any node are one contiguous run.
//!
//! [`shape`] says what makes the array a tree, [`grow`] lays the tree out,
//! and [`layout`] shows that the keys alone decide where each node stands.

pub mod grow;
pub mod layout;
pub mod shape;

use crate::heap::grow::{
    build_subtree, content_ok, draft_slots, exact_pred, grown, lemma_filter_elems, marked,
    prefix_pred, sample_ok, Draft,
};
use crate::heap::layout::{lemma_chain_nests, lemma_chain_owner, lemma_same_node};
use crate::heap::shape::{
    chain_ok, child_ok, covers, in_range, lemma_empty_key_is_root, lemma_keys_differ,
    lemma_longest, lemma_span_nests, lemma_span_owner, slot_ok, span_ok, tree_ok, Shape, Slot,
};
use crate::seqs::{indices, lemma_filter_agree, lemma_filter_push};
use crate::text::{
    all_key_bytes, fold, fold_key, is_key, is_key_byte, lemma_fold_key_bytes,
    lemma_fold_key_prefix, lemma_fold_key_step, to_lower,
};
use std::ops::Range;
use vstd::prelude::*;
use vstd::relations::injective_on;
use vstd::set_lib::{lemma_int_range, lemma_map_size, set_int_range};
use vstd::string::*;
use vstd::utf8::*;

verus! {

/// One node of the packed tree.
pub struct Node {
    pub letter: u8,
    pub num_children: u8,
    pub pos_children: u32,
    pub payload_start: u32,
    pub payload_end: u32,
}

impl Node {
    /// The node with its numbers as mathematical integers.
    pub open spec fn slot(self) -> Slot {
        Slot {
            letter: self.letter,
            num: self.num_children as int,
            pos: self.pos_children as int,
            start: self.payload_start as int,
            end: self.payload_end as int,
        }
    }

    /// The indices of this node's children.
    pub fn children(&self) -> (r: Range<usize>)
        requires
            self.pos_children + self.num_children <= usize::MAX,
        ensures
            r.start == self.pos_children,
            r.end == self.pos_children + self.num_children,
    {
        let pos = self.pos_children as usize;
        let num = self.num_children as usize;
        pos..pos + num
    }

    /// The positions of this node's own payloads.
    pub fn payloads(&self) -> (r: Range<usize>)
        ensures
            r.start == self.payload_start,
            r.end == self.payload_end,
    {
        self.payload_start as usize..self.payload_end as usize
    }
}

/// The nodes with their numbers as mathematical integers.
pub open spec fn slots(nodes: Seq<Node>) -> Seq<Slot> {
    nodes.map_values(|n: Node| n.slot())
}

/// The packed tree with its payloads.
pub struct AsciiHeap<T> {
    payloads: Vec<T>,
    nodes: Vec<Node>,
    shape: Ghost<Shape>,
}

/// A walk over the payloads below one node.
pub struct Iter<'a, T> {
    heap: &'a AsciiHeap<T>,
    pos: usize,
    end: usize,
}

impl<T> AsciiHeap<T> {
    /// The number of nodes, the root included.
    pub closed spec fn len(&self) -> nat {
        self.nodes@.len()
    }

    /// The letters on the way from the root to node `i`.
    pub closed spec fn key(&self, i: int) -> Seq<u8> {
        self.shape@.keys[i]
    }

    /// The letter of node `i`.
    pub closed spec fn letter(&self, i: int) -> u8 {
        self.nodes@[i].letter
    }

    /// The index of the first child of node `i`.
    pub closed spec fn child_start(&self, i: int) -> int {
        self.nodes@[i].pos_children as int
    }

    /// The index after the last child of node `i`.
    pub closed spec fn child_end(&self, i: int) -> int {
        self.nodes@[i].pos_children + self.nodes@[i].num_children
    }

    /// All payloads, in storage order.
    pub closed spec fn all_payloads(&self) -> Seq<T> {
        self.payloads@
    }

    /// Where the payloads of node `i` itself start.
    pub closed spec fn own_start(&self, i: int) -> int {
        self.nodes@[i].payload_start as int
    }

    /// Where the payloads of node `i` itself end.
    pub closed spec fn own_end(&self, i: int) -> int {
        self.nodes@[i].payload_end as int
    }

    /// Where the payloads of the subtree of node `i` end.
    pub closed spec fn extent(&self, i: int) -> int {
        self.shape@.extents[i]
    }

    /// The index after the last node below node `i`.
    pub closed spec fn below_end(&self, i: int) -> int {
        self.shape@.nexts[i]
    }

    /// The payloads attached to node `i` itself.
    pub open spec fn node_payloads(&self, i: int) -> Seq<T> {
        self.all_payloads().subrange(self.own_start(i), self.own_end(i))
    }

    /// The payloads attached to node `i` and to every node below it.
    pub open spec fn subtree_payloads(&self, i: int) -> Seq<T> {
        self.all_payloads().subrange(self.own_start(i), self.extent(i))
    }

    /// Some node has the key `k`.
    pub open spec fn has_key(&self, k: Seq<u8>) -> bool {
        exists|c: int| 0 <= c < self.len() && #[trigger] self.key(c) == k
    }

    /// Node `idx` is where a search for the key `q` ends: its key is a
    /// prefix of `q`, and no node has a longer prefix of `q` as its key.
    pub open spec fn finds(&self, q: Seq<u8>, idx: int) -> bool {
        &&& 0 <= idx < self.len()
        &&& self.key(idx).is_prefix_of(q)
        &&& forall|j: int|
            0 <= j < self.len() && (#[trigger] self.key(j)).is_prefix_of(q) ==> self.key(j).len()
                <= self.key(idx).len()
    }

    /// The invariant of the structure.
    pub closed spec fn wf(&self) -> bool {
        &&& tree_ok(slots(self.nodes@), self.shape@)
        &&& forall|i: int|
            0 <= i < self.nodes@.len() ==> #[trigger] span_ok(
                slots(self.nodes@),
                self.payloads@.len() as int,
                self.shape@,
                i,
            )
        &&& forall|i: int|
            0 <= i < self.nodes@.len() ==> #[trigger] chain_ok(slots(self.nodes@), self.shape@, i)
        &&& self.nodes@[0].payload_end == 0
        &&& self.nodes@[0].letter == 0
        &&& self.nodes@[0].pos_children == 1
        &&& self.shape@.extents[0] == self.payloads@.len()
        &&& self.shape@.nexts[0] == self.nodes@.len()
        &&& self.nodes@.len() <= u32::MAX
        &&& self.payloads@.len() <= u32::MAX
    }

    /// The number of nodes, the root included.
    pub fn node_count(&self) -> (r: usize)
        requires
            self.wf(),
        ensures
            r == self.len(),
            r >= 1,
    {
        self.nodes.len()
    }

    /// The number of payloads.
    pub fn payload_count(&self) -> (r: usize)
        ensures
            r == self.all_payloads().len(),
    {
        self.payloads.len()
    }

    /// Node `i`.
    pub fn node(&self, i: usize) -> (r: &Node)
        requires
            self.wf(),
            i < self.len(),
        ensures
            r.letter == self.letter(i as int),
            r.pos_children == self.child_start(i as int),
            r.pos_children + r.num_children == self.child_end(i as int),
            r.payload_start == self.own_start(i as int),
            r.payload_end == self.own_end(i as int),
            r.pos_children + r.num_children <= usize::MAX,
    {
        assert(slot_ok(slots(self.nodes@), i as int));
        &self.nodes[i]
    }

    /// Finds the node whose key is the longest prefix of the search key of
    /// `s` that the tree holds; the root where there is none.
    pub fn find(&self, s: &str) -> (idx: usize)
        requires
            self.wf(),
        ensures
            self.finds(fold_key(s.spec_bytes()), idx as int),
    {
        let bytes = s.as_bytes();
        let ghost q = fold_key(bytes@);
        let ghost t = slots(self.nodes@);
        let ghost sh = self.shape@;
        let mut idx: usize = 0;
        let mut k: usize = 0;
        let mut stopped = false;
        assert(bytes@.take(0) =~= Seq::<u8>::empty());
        while k < bytes.len() && !stopped
            invariant
                self.wf(),
                t == slots(self.nodes@),
                sh == self.shape@,
                q == fold_key(bytes@),
                k <= bytes.len(),
                idx < self.nodes@.len(),
                !stopped ==> sh.keys[idx as int] == fold_key(bytes@.take(k as int)),
                stopped ==> sh.keys[idx as int].is_prefix_of(q) && sh.keys[idx as int].len()
                    < q.len() && forall|c: int| #[trigger]
                    in_range(t[idx as int], c) ==> t[c].letter != q[sh.keys[idx as int].len() as int],
            decreases bytes.len() - k, if stopped { 0int } else { 1int },
        {
            proof {
                lemma_fold_key_step(bytes@, k as int);
                lemma_fold_key_prefix(bytes@, k as int + 1);
            }
            let b = to_lower(bytes[k]);
            if is_key(b) {
                assert(slot_ok(t, idx as int));
                let first = self.nodes[idx].pos_children as usize;
                let last = first + self.nodes[idx].num_children as usize;
                let mut c = first;
                let mut found = false;
                while c < last && !found
                    invariant
                        first <= c <= last,
                        last <= self.nodes@.len(),
                        first == t[idx as int].pos,
                        last == t[idx as int].pos + t[idx as int].num,
                        t == slots(self.nodes@),
                        found ==> c < last && self.nodes@[c as int].letter == b,
                        forall|d: int| first <= d < c ==> t[d].letter != b,
                    decreases last - c, if found { 0int } else { 1int },
                {
                    if self.nodes[c].letter == b {
                        found = true;
                    } else {
                        c += 1;
                    }
                }
                if found {
                    proof {
                        assert(in_range(t[idx as int], c as int));
                        assert(child_ok(t, sh, c as int));
                    }
                    idx = c;
                    k += 1;
                } else {
                    proof {
                        let m = sh.keys[idx as int].len() as int;
                        let longer = fold_key(bytes@.take(k as int + 1));
                        assert(longer[m] == b);
                        assert(q.subrange(0, longer.len() as int)[m] == q[m]);
                        assert(sh.keys[idx as int] =~= q.subrange(0, m));
                    }
                    stopped = true;
                }
            } else {
                k += 1;
            }
        }
        proof {
            if !stopped {
                assert(bytes@.take(k as int) =~= bytes@);
                assert(q =~= q.subrange(0, q.len() as int));
            }
            assert forall|j: int|
                0 <= j < self.len() && (#[trigger] self.key(j)).is_prefix_of(q) implies self.key(
                j,
            ).len() <= self.key(idx as int).len() by {
                lemma_longest(t, sh, idx as int, q, j);
            }
        }
        idx
    }

    /// Starts a walk over all payloads at node `idx` and below it.
    pub fn iter(&self, idx: usize) -> (it: Iter<'_, T>)
        requires
            self.wf(),
            idx < self.len(),
        ensures
            it.wf(),
            it.heap() == self,
            it.remaining() == self.subtree_payloads(idx as int),
    {
        let ghost t = slots(self.nodes@);
        let ghost sh = self.shape@;
        let mut cur = idx;
        assert(span_ok(t, self.payloads@.len() as int, sh, idx as int));
        while self.nodes[cur].num_children > 0
            invariant
                self.wf(),
                t == slots(self.nodes@),
                sh == self.shape@,
                cur < self.nodes@.len(),
                sh.extents[cur as int] == sh.extents[idx as int],
            decreases self.nodes@.len() - cur,
        {
            assert(slot_ok(t, cur as int));
            assert(span_ok(t, self.payloads@.len() as int, sh, cur as int));
            cur = self.nodes[cur].pos_children as usize + self.nodes[cur].num_children as usize
                - 1;
        }
        assert(span_ok(t, self.payloads@.len() as int, sh, cur as int));
        Iter {
            heap: self,
            pos: self.nodes[idx].payload_start as usize,
            end: self.nodes[cur].payload_end as usize,
        }
    }
}

impl<'a, T> Iter<'a, T> {
    /// The tree that is walked.
    pub closed spec fn heap(&self) -> &AsciiHeap<T> {
        self.heap
    }

    /// The invariant: the walk stands inside the payloads.
    pub closed spec fn wf(&self) -> bool {
        self.pos <= self.end <= self.heap.payloads@.len()
    }

    /// The payloads that the walk has not handed out yet, in order.
    pub closed spec fn remaining(&self) -> Seq<T> {
        self.heap.payloads@.subrange(self.pos as int, self.end as int)
    }

    /// Hands out the next payload, or `None` when the walk is over.
    pub fn next(&mut self) -> (r: Option<&'a T>)
        requires
            old(self).wf(),
        ensures
            final(self).wf(),
            final(self).heap() == old(self).heap(),
            old(self).remaining().len() == 0 ==> r is None && final(self).remaining()
                == old(self).remaining(),
            old(self).remaining().len() > 0 ==> r == Some(&old(self).remaining()[0])
                && final(self).remaining() == old(self).remaining().drop_first(),
    {
        if self.pos < self.end {
            let r = &self.heap.payloads[self.pos];
            self.pos += 1;
            assert(self.remaining() =~= old(self).remaining().drop_first());
            Some(r)
        } else {
            None
        }
    }
}

/// The payloads of the items at the given indices, in that order.
pub open spec fn picks<T>(items: Seq<(String, T)>, idxs: Seq<usize>) -> Seq<T> {
    idxs.map_values(|i: usize| items[i as int].1)
}

/// The search key of an item.
pub open spec fn item_key<T>(it: (String, T)) -> Seq<u8> {
    fold_key(encode_utf8(it.0@))
}

/// The items whose search key is `k`.
pub open spec fn item_is<T>(items: Seq<(String, T)>, k: Seq<u8>) -> spec_fn(usize) -> bool {
    |i: usize| item_key(items[i as int]) == k
}

/// The items whose search key is not empty.
pub open spec fn item_keyed<T>(items: Seq<(String, T)>) -> spec_fn(usize) -> bool {
    |i: usize| item_key(items[i as int]).len() > 0
}

/// The payloads of the items whose search key is `k`, in the items' order.
pub open spec fn payloads_for<T>(items: Seq<(String, T)>, k: Seq<u8>) -> Seq<T> {
    picks(items, indices(items.len()).filter(item_is(items, k)))
}

/// `k` is a prefix of the search key of some item.
pub open spec fn on_the_way<T>(items: Seq<(String, T)>, k: Seq<u8>) -> bool {
    exists|i: int| 0 <= i < items.len() && k.is_prefix_of(#[trigger] item_key(items[i]))
}

/// The keys that a tree for `items` holds besides the empty one: the
/// non-empty prefixes of the items' search keys.
pub open spec fn key_set<T>(items: Seq<(String, T)>) -> Set<Seq<u8>> {
    Set::new(|k: Seq<u8>| k.len() > 0 && on_the_way(items, k))
}

/// The letters that follow `k` in the search keys of the items; for the
/// empty `k`, the letters with which the search keys begin.
pub open spec fn next_letters<T>(items: Seq<(String, T)>, k: Seq<u8>) -> Set<u8> {
    Set::new(|l: u8| on_the_way(items, k.push(l)))
}

/// The number of items that a tree for `items` holds.
pub open spec fn keyed_count<T>(items: Seq<(String, T)>) -> nat {
    indices(items.len()).filter(item_keyed(items)).len()
}

impl<T> AsciiHeap<T> {
    /// The tree holds exactly the items of `items` that have a search key:
    /// its keys are the non-empty prefixes of their search keys, and each
    /// node carries the payloads of the items with its key, in their order.
    pub open spec fn represents(&self, items: Seq<(String, T)>) -> bool {
        &&& self.key(0).len() == 0
        &&& self.node_payloads(0).len() == 0
        &&& forall|c: int|
            1 <= c < self.len() ==> #[trigger] self.node_payloads(c) == payloads_for(
                items,
                self.key(c),
            )
        &&& forall|k: Seq<u8>|
            #![trigger self.has_key(k)]
            #![trigger on_the_way(items, k)]
            k.len() > 0 ==> (self.has_key(k) <==> on_the_way(items, k))
        &&& key_set(items).finite()
        &&& self.len() == 1 + key_set(items).len()
        &&& self.all_payloads().len() == keyed_count(items)
    }
}

impl<T> AsciiHeap<T> {
    /// Builds the tree for `items`, or `None` where it would need more nodes
    /// or payloads than 32 bits can count.
    pub fn try_new(items: Vec<(String, T)>) -> (r: Option<Self>)
        ensures
            r matches Some(h) ==> h.wf() && h.represents(items@),
            key_set(items@).finite(),
            r is None <==> 1 + key_set(items@).len() > u32::MAX || keyed_count(items@)
                > u32::MAX,
    {
        let n = items.len();
        let ghost all = indices(n as nat);
        let mut fkeys: Vec<Vec<u8>> = Vec::new();
        let mut i: usize = 0;
        while i < n
            invariant
                i <= n,
                n == items.len(),
                fkeys.len() == i,
                forall|x: int| 0 <= x < i ==> (#[trigger] fkeys[x])@ == item_key(items[x]),
                forall|x: int| 0 <= x < i ==> all_key_bytes(#[trigger] fkeys[x]@),
            decreases n - i,
        {
            let key = fold(items[i].0.as_str().as_bytes());
            proof {
                lemma_fold_key_bytes(encode_utf8(items[i as int].0@));
            }
            fkeys.push(key);
            i += 1;
        }
        let ghost none = Seq::<u8>::empty();
        let mut list: Vec<usize> = Vec::new();
        let mut i: usize = 0;
        assert(all.take(0) =~= Seq::<usize>::empty());
        while i < n
            invariant
                i <= n,
                n == items.len(),
                fkeys.len() == n,
                all == indices(n as nat),
                none == Seq::<u8>::empty(),
                list@ == all.take(i as int).filter(prefix_pred(fkeys@, none)),
            decreases n - i,
        {
            proof {
                assert(all.take(i as int + 1) =~= all.take(i as int).push(i));
                lemma_filter_push(all.take(i as int), i, prefix_pred(fkeys@, none));
                assert(none.is_prefix_of(fkeys[i as int]@));
            }
            if fkeys[i].len() > 0 {
                list.push(i);
            }
            i += 1;
        }
        assert(all.take(n as int) =~= all);
        let mut nodes: Vec<Draft> = Vec::new();
        nodes.push(Draft { letter: 0, num: 0, pos: 1, start: 0, end: 0 });
        let mut order: Vec<usize> = Vec::new();
        let ghost sh0 = Shape {
            keys: seq![none],
            parents: seq![0int],
            extents: seq![0int],
            nexts: seq![0int],
            samples: seq![0int],
        };
        let ghost t0 = draft_slots(nodes@);
        proof {
            assert(slot_ok(t0, 0));
            assert(tree_ok(t0, sh0));
            assert(grown(t0, order@, sh0, Set::<int>::empty(), fkeys@));
        }
        let shape = build_subtree(
            &fkeys,
            &list,
            0,
            0,
            &mut nodes,
            &mut order,
            Ghost(sh0),
            Ghost(Set::<int>::empty()),
        );
        let ghost t = draft_slots(nodes@);
        let ghost sh = shape@;
        let ghost done = marked(Set::<int>::empty().insert(0), 1, 0, 0, t.len() as int);
        proof {
            assert forall|x: int| 0 <= x < t.len() implies done.contains(x) by {}
            lemma_heap_facts(t, order@, sh, fkeys@, items@, list@);
        }
        if nodes.len() > u32::MAX as usize || order.len() > u32::MAX as usize {
            return None;
        }
        let mut packed: Vec<Node> = Vec::new();
        let mut i: usize = 0;
        while i < nodes.len()
            invariant
                i <= nodes.len(),
                packed.len() == i,
                t == draft_slots(nodes@),
                nodes.len() <= u32::MAX,
                order.len() <= u32::MAX,
                tree_ok(t, sh),
                forall|x: int| 0 <= x < t.len() ==> #[trigger] span_ok(t, order@.len() as int, sh, x),
                forall|x: int| 0 <= x < t.len() ==> #[trigger] chain_ok(t, sh, x),
                forall|x: int| 0 <= x < i ==> (#[trigger] packed[x]).slot() == t[x],
            decreases nodes.len() - i,
        {
            assert(slot_ok(t, i as int));
            assert(span_ok(t, order@.len() as int, sh, i as int));
            assert(t[i as int] == nodes[i as int].slot());
            let d = &nodes[i];
            packed.push(
                Node {
                    letter: d.letter,
                    num_children: d.num as u8,
                    pos_children: d.pos as u32,
                    payload_start: d.start as u32,
                    payload_end: d.end as u32,
                },
            );
            i += 1;
        }
        assert(slots(packed@) =~= t);
        let ghost given = items@;
        let payloads = take_payloads(items, &order);
        let heap = AsciiHeap { payloads, nodes: packed, shape: Ghost(sh) };
        proof {
            assert(heap.wf());
            assert forall|c: int| 1 <= c < heap.len() implies #[trigger] heap.node_payloads(c)
                == payloads_for(given, heap.key(c)) by {
                assert(span_ok(t, order@.len() as int, sh, c));
                assert(heap.node_payloads(c) =~= picks(
                    given,
                    order@.subrange(t[c].start, t[c].end),
                ));
                assert(child_ok(t, sh, c));
            }
            assert forall|k: Seq<u8>|
                #![trigger heap.has_key(k)]
                #![trigger on_the_way(given, k)]
                k.len() > 0 implies (heap.has_key(k) <==> on_the_way(given, k)) by {
                assert(key_set(given).contains(k) <==> on_the_way(given, k));
                if heap.has_key(k) {
                    let c = choose|c: int| 0 <= c < heap.len() && #[trigger] heap.key(c) == k;
                    assert(sh.keys.subrange(1, t.len() as int)[c - 1] == k);
                }
                if on_the_way(given, k) {
                    let c = choose|c: int|
                        0 <= c < sh.keys.subrange(1, t.len() as int).len() && sh.keys.subrange(
                            1,
                            t.len() as int,
                        )[c] == k;
                    assert(heap.key(c + 1) == k);
                }
            }
        }
        Some(heap)
    }

    /// Builds the tree for `items`.
    pub fn new(items: Vec<(String, T)>) -> (h: Self)
        requires
            1 + key_set(items@).len() <= u32::MAX,
            keyed_count(items@) <= u32::MAX,
        ensures
            h.wf(),
            h.represents(items@),
    {
        let r = Self::try_new(items);
        r.unwrap()
    }
}

/// Moves the payloads of the items into the order of the layout.
fn take_payloads<T>(items: Vec<(String, T)>, order: &Vec<usize>) -> (r: Vec<T>)
    requires
        order@.no_duplicates(),
        forall|s: int| 0 <= s < order@.len() ==> (#[trigger] order@[s]) < items@.len(),
    ensures
        r@ == picks(items@, order@),
{
    let ghost given = items@;
    let n = items.len();
    let mut items = items;
    // cells that can be emptied one by one, the last item first
    let mut cells: Vec<Option<T>> = Vec::new();
    while items.len() > 0
        invariant
            n == given.len(),
            items@.len() <= n,
            items@ == given.take(items@.len() as int),
            cells@.len() == n - items@.len(),
            forall|j: int| 0 <= j < cells@.len() ==> (#[trigger] cells@[j]) == Some(given[n - 1 - j].1),
        decreases items@.len(),
    {
        let ghost before = cells@;
        let ghost left = items@.len();
        match items.pop() {
            Some(item) => {
                cells.push(Some(item.1));
                proof {
                    assert(items@ =~= given.take(items@.len() as int));
                    assert forall|j: int| 0 <= j < cells@.len() implies (#[trigger] cells@[j])
                        == Some(given[n - 1 - j].1) by {
                        if j < before.len() {
                            assert(cells@[j] == before[j]);
                        }
                    }
                }
            },
            None => {},
        }
    }
    let mut r: Vec<T> = Vec::new();
    let mut s: usize = 0;
    assert(order@.take(0) =~= Seq::<usize>::empty());
    assert(r@ =~= picks(given, order@.take(0)));
    while s < order.len()
        invariant
            s <= order.len(),
            n == given.len(),
            cells@.len() == n,
            order@.no_duplicates(),
            forall|x: int| 0 <= x < order@.len() ==> (#[trigger] order@[x]) < n,
            r@ == picks(given, order@.take(s as int)),
            forall|j: int|
                0 <= j < n ==> (#[trigger] cells@[j]) == if order@.take(s as int).contains(
                    (n - 1 - j) as usize,
                ) {
                    None
                } else {
                    Some(given[n - 1 - j].1)
                },
        decreases order.len() - s,
    {
        let idx = order[s];
        let at = n - 1 - idx;
        let ghost before = cells@;
        let ghost seen = order@.take(s as int);
        proof {
            assert(order@.take(s as int + 1) =~= seen.push(idx));
            if seen.contains(idx) {
                let x = choose|x: int| 0 <= x < seen.len() && seen[x] == idx;
                assert(order@[x] == order@[s as int]);
            }
            assert(before[at as int] == Some(given[idx as int].1));
        }
        let mut cell: Option<T> = None;
        cells.set_and_swap(at, &mut cell);
        match cell {
            Some(v) => {
                r.push(v);
            },
            None => {},
        }
        proof {
            assert(r@ =~= picks(given, order@.take(s as int + 1)));
            assert forall|j: int| 0 <= j < n implies (#[trigger] cells@[j]) == if order@.take(
                s as int + 1,
            ).contains((n - 1 - j) as usize) {
                None
            } else {
                Some(given[n - 1 - j].1)
            } by {
                let want = (n - 1 - j) as usize;
                if j == at {
                    assert(seen.push(idx)[seen.len() as int] == want);
                } else {
                    assert(cells@[j] == before[j]);
                    if seen.contains(want) {
                        let x = choose|x: int| 0 <= x < seen.len() && seen[x] == want;
                        assert(seen.push(idx)[x] == want);
                    }
                    if seen.push(idx).contains(want) {
                        let x = choose|x: int|
                            0 <= x < seen.push(idx).len() && seen.push(idx)[x] == want;
                        assert(x < seen.len());
                        assert(seen[x] == want);
                    }
                }
            }
        }
        s += 1;
    }
    assert(order@.take(s as int) =~= order@);
    r
}

/// What a filter keeps of a list without repetitions has no repetitions.
proof fn lemma_filter_distinct(s: Seq<usize>, pred: spec_fn(usize) -> bool)
    requires
        s.no_duplicates(),
    ensures
        s.filter(pred).no_duplicates(),
    decreases s.len(),
{
    reveal(Seq::filter);
    if s.len() > 0 {
        let t = s.drop_last();
        assert forall|i: int, j: int| 0 <= i < t.len() && 0 <= j < t.len() && i != j implies t[i]
            != t[j] by {
            assert(t[i] == s[i]);
            assert(t[j] == s[j]);
        }
        lemma_filter_distinct(t, pred);
        if pred(s.last()) {
            let f = t.filter(pred);
            assert forall|i: int, j: int|
                0 <= i < f.push(s.last()).len() && 0 <= j < f.push(s.last()).len() && i
                    != j implies f.push(s.last())[i] != f.push(s.last())[j] by {
                if i < f.len() && j < f.len() {
                    assert(f[i] != f[j]);
                } else {
                    let k = if i < f.len() {
                        i
                    } else {
                        j
                    };
                    assert(f.contains(f[k]));
                    t.lemma_filter_contains_rev(pred, f[k]);
                    let x = choose|x: int| 0 <= x < t.len() && t[x] == f[k];
                    assert(s[x] == f[k]);
                    assert(s[s.len() - 1] == s.last());
                }
            }
        }
    }
}

/// What a finished layout says in terms of the items alone. `order` names
/// the item of each payload.
proof fn lemma_heap_facts<T>(
    t: Seq<Slot>,
    order: Seq<usize>,
    sh: Shape,
    fkeys: Seq<Vec<u8>>,
    items: Seq<(String, T)>,
    list: Seq<usize>,
)
    requires
        fkeys.len() == items.len(),
        fkeys.len() <= usize::MAX,
        forall|x: int| 0 <= x < fkeys.len() ==> (#[trigger] fkeys[x])@ == item_key(items[x]),
        tree_ok(t, sh),
        forall|c: int| 1 <= c < t.len() ==> #[trigger] sample_ok(sh, fkeys, c),
        forall|i: int| 0 <= i < t.len() ==> #[trigger] span_ok(t, order.len() as int, sh, i),
        forall|i: int| 0 <= i < t.len() ==> #[trigger] content_ok(t, order, sh, fkeys, i),
        t[0].start == 0,
        t[0].end == 0,
        sh.extents[0] == order.len(),
        list == indices(fkeys.len()).filter(prefix_pred(fkeys, Seq::<u8>::empty())),
        order.len() == list.len(),
        forall|tt: int, l: int|
            0 <= tt < list.len() && 0 < l <= fkeys[list[tt] as int]@.len() ==> covers(
                sh,
                #[trigger] fkeys[list[tt] as int]@.take(l),
            ),
    ensures
        key_set(items) == sh.keys.subrange(1, t.len() as int).to_set(),
        key_set(items).finite(),
        key_set(items).len() == t.len() - 1,
        order.len() == keyed_count(items),
        order.no_duplicates(),
        forall|s: int| 0 <= s < order.len() ==> (#[trigger] order[s]) < items.len(),
        forall|c: int|
            1 <= c < t.len() ==> picks(items, order.subrange(t[c].start, t[c].end))
                == payloads_for(items, #[trigger] sh.keys[c]),
{
    let all = indices(fkeys.len());
    let none = Seq::<u8>::empty();
    let rest = sh.keys.subrange(1, t.len() as int);
    let np = order.len() as int;
    assert forall|k: Seq<u8>| key_set(items).contains(k) <==> rest.to_set().contains(k) by {
        if key_set(items).contains(k) {
            let i = choose|i: int|
                0 <= i < items.len() && k.is_prefix_of(#[trigger] item_key(items[i]));
            assert(fkeys[i]@ == item_key(items[i]));
            assert(all[i] == i);
            assert(prefix_pred(fkeys, none)(all[i]));
            all.lemma_filter_contains(prefix_pred(fkeys, none), i);
            let tt = choose|tt: int| 0 <= tt < list.len() && list[tt] == all[i];
            assert(covers(sh, fkeys[list[tt] as int]@.take(k.len() as int)));
            assert(fkeys[i]@.take(k.len() as int) =~= k);
            let x = choose|x: int| 0 <= x < sh.keys.len() && #[trigger] sh.keys[x] == k;
            assert(x >= 1);
            assert(rest[x - 1] == k);
        }
        if rest.to_set().contains(k) {
            let c = choose|c: int| 0 <= c < rest.len() && rest[c] == k;
            assert(sample_ok(sh, fkeys, c + 1));
            assert(child_ok(t, sh, c + 1));
            let i = sh.samples[c + 1];
            assert(fkeys[i]@ == item_key(items[i]));
        }
    }
    assert(key_set(items) =~= rest.to_set());
    assert forall|a: int, b: int| 0 <= a < rest.len() && 0 <= b < rest.len() && a != b implies rest[a]
        != rest[b] by {
        if rest[a] == rest[b] {
            lemma_keys_differ(t, sh, a + 1, b + 1);
        }
    }
    rest.unique_seq_to_set();
    vstd::seq_lib::seq_to_set_is_finite(rest);
    assert forall|i: int| 0 <= i < all.len() implies item_keyed(items)(#[trigger] all[i])
        == prefix_pred(fkeys, none)(all[i]) by {
        assert(all[i] == i);
        assert(fkeys[i]@ == item_key(items[i]));
        assert(none.is_prefix_of(fkeys[i]@));
    }
    lemma_filter_agree(all, item_keyed(items), prefix_pred(fkeys, none));
    assert forall|c: int| 1 <= c < t.len() implies picks(
        items,
        order.subrange(t[c].start, t[c].end),
    ) == payloads_for(items, #[trigger] sh.keys[c]) by {
        assert(content_ok(t, order, sh, fkeys, c));
        assert(child_ok(t, sh, c));
        let k = sh.keys[c];
        assert forall|i: int| 0 <= i < all.len() implies item_is(items, k)(#[trigger] all[i])
            == exact_pred(fkeys, k)(all[i]) by {
            assert(all[i] == i);
            assert(fkeys[i]@ == item_key(items[i]));
        }
        lemma_filter_agree(all, item_is(items, k), exact_pred(fkeys, k));
    }
    // every payload names an item with the key of its node, and no item twice
    assert(all.no_duplicates());
    assert forall|s: int| 0 <= s < order.len() implies (#[trigger] order[s]) < items.len() by {
        let j = lemma_span_owner(t, np, sh, 0, s);
        assert(span_ok(t, np, sh, j));
        assert(j >= 1);
        assert(content_ok(t, order, sh, fkeys, j));
        lemma_filter_elems(all, exact_pred(fkeys, sh.keys[j]), fkeys.len() as int);
        assert(order.subrange(t[j].start, t[j].end)[s - t[j].start] == order[s]);
    }
    assert forall|a: int, b: int| 0 <= a < order.len() && 0 <= b < order.len() && a != b implies order[a]
        != order[b] by {
        let ja = lemma_span_owner(t, np, sh, 0, a);
        let jb = lemma_span_owner(t, np, sh, 0, b);
        assert(span_ok(t, np, sh, ja));
        assert(span_ok(t, np, sh, jb));
        assert(ja >= 1 && jb >= 1);
        assert(content_ok(t, order, sh, fkeys, ja));
        assert(content_ok(t, order, sh, fkeys, jb));
        let fa = all.filter(exact_pred(fkeys, sh.keys[ja]));
        let fb = all.filter(exact_pred(fkeys, sh.keys[jb]));
        lemma_filter_elems(all, exact_pred(fkeys, sh.keys[ja]), fkeys.len() as int);
        lemma_filter_elems(all, exact_pred(fkeys, sh.keys[jb]), fkeys.len() as int);
        assert(order.subrange(t[ja].start, t[ja].end)[a - t[ja].start] == order[a]);
        assert(order.subrange(t[jb].start, t[jb].end)[b - t[jb].start] == order[b]);
        assert(exact_pred(fkeys, sh.keys[ja])(fa[a - t[ja].start]));
        assert(exact_pred(fkeys, sh.keys[jb])(fb[b - t[jb].start]));
        if order[a] == order[b] {
            lemma_keys_differ(t, sh, ja, jb);
            lemma_filter_distinct(all, exact_pred(fkeys, sh.keys[ja]));
        }
    }
}

impl<T> AsciiHeap<T> {
    /// The children of every node stand after the node, inside the array,
    /// and no two of them have the same letter.
    pub proof fn lemma_children_follow(&self, i: int)
        requires
            self.wf(),
            0 <= i < self.len(),
        ensures
            i < self.child_start(i) <= self.child_end(i) <= self.len(),
            forall|a: int, b: int|
                self.child_start(i) <= a < b < self.child_end(i) ==> self.letter(a) < self.letter(b),
            forall|a: int|
                #![trigger self.letter(a)]
                self.child_start(i) <= a < self.child_end(i) ==> is_key_byte(self.letter(a))
                    && self.key(a) == self.key(i).push(self.letter(a)),
    {
        let t = slots(self.nodes@);
        let sh = self.shape@;
        assert(slot_ok(t, i));
        assert forall|a: int, b: int|
            self.child_start(i) <= a < b < self.child_end(i) implies self.letter(a) < self.letter(
            b,
        ) by {
            assert(in_range(t[i], a));
            assert(in_range(t[i], b));
            assert(sh.parents[a] == sh.parents[b]);
        }
        assert forall|a: int|
            #![trigger self.letter(a)]
            self.child_start(i) <= a < self.child_end(i) implies is_key_byte(self.letter(a))
            && self.key(a) == self.key(i).push(self.letter(a)) by {
            assert(in_range(t[i], a));
            assert(child_ok(t, sh, a));
        }
    }

    /// Every node but the root stands among the children of the node whose
    /// key is its own key without the last letter, and after that node.
    pub proof fn lemma_parent(&self, c: int) -> (p: int)
        requires
            self.wf(),
            1 <= c < self.len(),
        ensures
            0 <= p < c,
            self.child_start(p) <= c < self.child_end(p),
            self.key(c).len() >= 1,
            self.key(p) == self.key(c).drop_last(),
            self.letter(c) == self.key(c).last(),
    {
        let t = slots(self.nodes@);
        let sh = self.shape@;
        assert(child_ok(t, sh, c));
        let p = sh.parents[c];
        assert(sh.keys[p] =~= sh.keys[c].drop_last());
        p
    }

    /// Where the children stand. The children of the root start at node 1.
    /// After the children of a node come all nodes below its first child,
    /// then all nodes below its second child, and so on to its last child:
    /// the children of a child start where the nodes below the child before
    /// it end.
    pub proof fn lemma_child_ranges(&self, i: int)
        requires
            self.wf(),
            0 <= i < self.len(),
        ensures
            self.child_start(0) == 1,
            self.below_end(0) == self.len(),
            self.child_end(i) <= self.below_end(i) <= self.len(),
            self.child_start(i) == self.child_end(i) ==> self.below_end(i) == self.child_end(i),
            self.child_start(i) < self.child_end(i) ==> self.child_start(self.child_start(i))
                == self.child_end(i) && self.below_end(i) == self.below_end(self.child_end(i) - 1),
            forall|c: int|
                self.child_start(i) <= c && c + 1 < self.child_end(i) ==> self.child_start(c + 1)
                    == #[trigger] self.below_end(c),
    {
        let t = slots(self.nodes@);
        let sh = self.shape@;
        assert(chain_ok(t, sh, i));
        assert(slot_ok(t, i));
        assert forall|c: int|
            self.child_start(i) <= c && c + 1 < self.child_end(i) implies self.child_start(c + 1)
            == #[trigger] self.below_end(c) by {
            assert(in_range(t[i], c));
            assert(in_range(t[i], c + 1));
        }
    }

    /// The nodes below node `i` are the nodes from its first child up to
    /// `below_end(i)`, and no others: a node stands there if and only if
    /// its key starts with the key of node `i` and is longer.
    pub proof fn lemma_below(&self, i: int, x: int)
        requires
            self.wf(),
            0 <= i < self.len(),
            0 <= x < self.len(),
        ensures
            self.child_start(i) <= x < self.below_end(i) <==> self.key(i).is_prefix_of(self.key(x))
                && self.key(i).len() < self.key(x).len(),
    {
        let t = slots(self.nodes@);
        let sh = self.shape@;
        if self.child_start(i) <= x < self.below_end(i) {
            lemma_chain_owner(t, sh, i, x);
        }
        if self.key(i).is_prefix_of(self.key(x)) && self.key(i).len() < self.key(x).len() {
            lemma_chain_nests(t, sh, i, x);
        }
    }

    /// The root has the empty key, and no other node has.
    pub proof fn lemma_root_key(&self, i: int)
        requires
            self.wf(),
            0 <= i < self.len(),
        ensures
            self.key(0).len() == 0,
            self.key(i).len() == 0 ==> i == 0,
            self.len() >= 1,
    {
        if self.key(i).len() == 0 {
            lemma_empty_key_is_root(slots(self.nodes@), self.shape@, i);
        }
    }

    /// A key belongs to one node only.
    pub proof fn lemma_key_names_node(&self, i: int, j: int)
        requires
            self.wf(),
            0 <= i < self.len(),
            0 <= j < self.len(),
            self.key(i) == self.key(j),
        ensures
            i == j,
    {
        lemma_keys_differ(slots(self.nodes@), self.shape@, i, j);
    }

    /// A search ends at one node only.
    pub proof fn lemma_find_is_unique(&self, q: Seq<u8>, a: int, b: int)
        requires
            self.wf(),
            self.finds(q, a),
            self.finds(q, b),
        ensures
            a == b,
    {
        assert(self.key(a).len() == self.key(b).len());
        assert(self.key(a) =~= self.key(b));
        self.lemma_key_names_node(a, b);
    }

    /// The payloads below a node contain the payloads of every node whose
    /// key starts with the node's key.
    pub proof fn lemma_subtree_holds(&self, i: int, j: int)
        requires
            self.wf(),
            0 <= i < self.len(),
            0 <= j < self.len(),
            self.key(i).is_prefix_of(self.key(j)),
        ensures
            0 <= self.own_start(i) <= self.own_start(j) <= self.own_end(j) <= self.extent(i),
            self.extent(i) <= self.all_payloads().len(),
            forall|s: int|
                0 <= s < self.node_payloads(j).len() ==> self.node_payloads(j)[s]
                    == self.subtree_payloads(i)[self.own_start(j) - self.own_start(i) + s],
    {
        let t = slots(self.nodes@);
        let np = self.payloads@.len() as int;
        lemma_span_nests(t, np, self.shape@, i, j);
        assert(span_ok(t, np, self.shape@, i));
        assert(span_ok(t, np, self.shape@, j));
    }

    /// Every payload below a node belongs to a node whose key starts with
    /// the node's key.
    pub proof fn lemma_subtree_owner(&self, i: int, s: int) -> (j: int)
        requires
            self.wf(),
            0 <= i < self.len(),
            0 <= s < self.subtree_payloads(i).len(),
        ensures
            0 <= j < self.len(),
            self.key(i).is_prefix_of(self.key(j)),
            self.own_start(i) <= self.own_start(j),
            0 <= self.own_start(i) + s - self.own_start(j) < self.node_payloads(j).len(),
            self.subtree_payloads(i)[s] == self.node_payloads(j)[self.own_start(i) + s
                - self.own_start(j)],
    {
        let t = slots(self.nodes@);
        let np = self.payloads@.len() as int;
        assert(span_ok(t, np, self.shape@, i));
        let j = lemma_span_owner(t, np, self.shape@, i, self.own_start(i) + s);
        assert(span_ok(t, np, self.shape@, j));
        lemma_span_nests(t, np, self.shape@, i, j);
        j
    }

    /// The payloads below the root are all payloads.
    pub proof fn lemma_all_below_root(&self)
        requires
            self.wf(),
        ensures
            self.len() >= 1,
            self.subtree_payloads(0) == self.all_payloads(),
    {
        let t = slots(self.nodes@);
        assert(span_ok(t, self.payloads@.len() as int, self.shape@, 0));
        assert(self.subtree_payloads(0) =~= self.all_payloads());
    }

    /// Every payload of the tree is the payload of an item with a search
    /// key, and stands with the node that has this key.
    pub proof fn lemma_payload_origin(&self, items: Seq<(String, T)>, s: int) -> (r: (int, int))
        requires
            self.wf(),
            self.represents(items),
            items.len() <= usize::MAX,
            0 <= s < self.all_payloads().len(),
        ensures
            0 <= r.0 < items.len(),
            self.all_payloads()[s] == items[r.0].1,
            1 <= r.1 < self.len(),
            self.key(r.1) == item_key(items[r.0]),
            self.own_start(r.1) <= s < self.own_end(r.1),
    {
        self.lemma_all_below_root();
        let j = self.lemma_subtree_owner(0, s);
        self.lemma_subtree_holds(0, j);
        let t = slots(self.nodes@);
        assert(span_ok(t, self.payloads@.len() as int, self.shape@, 0));
        let x = s - self.own_start(j);
        assert(self.node_payloads(j)[x] == self.all_payloads()[s]);
        let all = indices(items.len());
        let sel = all.filter(item_is(items, self.key(j)));
        lemma_filter_elems(all, item_is(items, self.key(j)), items.len() as int);
        assert(self.node_payloads(j) == picks(items, sel));
        (sel[x] as int, j)
    }

    /// A search for the key of an item ends at the node with that key, and
    /// the payloads below that node contain the item's payload.
    pub proof fn lemma_item_is_found(&self, items: Seq<(String, T)>, i: int, idx: int)
        requires
            self.wf(),
            self.represents(items),
            items.len() <= usize::MAX,
            0 <= i < items.len(),
            item_key(items[i]).len() > 0,
            self.finds(item_key(items[i]), idx),
        ensures
            self.key(idx) == item_key(items[i]),
            self.node_payloads(idx).contains(items[i].1),
            self.subtree_payloads(idx).contains(items[i].1),
    {
        let k = item_key(items[i]);
        assert(k.is_prefix_of(item_key(items[i]))) by {
            assert(k =~= k.subrange(0, k.len() as int));
        }
        assert(on_the_way(items, k));
        assert(self.has_key(k));
        let c = choose|c: int| 0 <= c < self.len() && #[trigger] self.key(c) == k;
        assert(self.key(c).is_prefix_of(k));
        assert(self.key(idx) =~= k);
        self.lemma_root_key(idx);
        let all = indices(items.len());
        assert(all[i] == i as usize);
        assert(item_is(items, k)(all[i]));
        all.lemma_filter_contains(item_is(items, k), i);
        let sel = all.filter(item_is(items, k));
        let u = choose|u: int| 0 <= u < sel.len() && sel[u] == all[i];
        assert(picks(items, sel)[u] == items[i].1);
        assert(self.node_payloads(idx)[u] == items[i].1);
        assert(self.key(idx).is_prefix_of(self.key(idx)));
        self.lemma_subtree_holds(idx, idx);
        assert(self.subtree_payloads(idx)[u] == items[i].1);
    }

    /// A node has one child for each letter that follows its key in the
    /// search keys of the items, and no other. So the children of the root
    /// are the nodes from 1 on, as many as there are first letters.
    pub proof fn lemma_child_letters(&self, items: Seq<(String, T)>, i: int)
        requires
            self.wf(),
            self.represents(items),
            0 <= i < self.len(),
        ensures
            next_letters(items, self.key(i)).finite(),
            self.child_end(i) - self.child_start(i) == next_letters(items, self.key(i)).len(),
            forall|c: int|
                self.child_start(i) <= c < self.child_end(i) ==> next_letters(
                    items,
                    self.key(i),
                ).contains(#[trigger] self.letter(c)),
            i == 0 ==> self.child_start(i) == 1,
    {
        let lo = self.child_start(i);
        let hi = self.child_end(i);
        let k = self.key(i);
        let range = set_int_range(lo, hi);
        let f = |c: int| self.letter(c);
        let letters = next_letters(items, k);
        self.lemma_children_follow(i);
        self.lemma_child_ranges(i);
        lemma_int_range(lo, hi);
        assert forall|c: int| lo <= c < hi implies letters.contains(#[trigger] self.letter(c)) by {
            assert(self.key(c) == k.push(self.letter(c)));
            assert(self.has_key(k.push(self.letter(c))));
        }
        assert(injective_on(f, range)) by {
            assert forall|a: int, b: int|
                range.contains(a) && range.contains(b) && #[trigger] f(a) == #[trigger] f(
                    b,
                ) implies a == b by {
                if a < b {
                    assert(self.letter(a) < self.letter(b));
                }
                if b < a {
                    assert(self.letter(b) < self.letter(a));
                }
            }
        }
        assert(range.map(f) =~= letters) by {
            assert forall|l: u8| letters.contains(l) implies range.map(f).contains(l) by {
                let x = k.push(l);
                assert(on_the_way(items, x));
                assert(self.has_key(x));
                let c = choose|c: int| 0 <= c < self.len() && #[trigger] self.key(c) == x;
                self.lemma_root_key(c);
                let p = self.lemma_parent(c);
                assert(x.drop_last() =~= k);
                self.lemma_key_names_node(p, i);
                assert(range.contains(c) && f(c) == l);
            }
            assert forall|l: u8| range.map(f).contains(l) implies letters.contains(l) by {
                let c = choose|c: int| range.contains(c) && f(c) == l;
                assert(letters.contains(self.letter(c)));
            }
        }
        lemma_map_size(range, letters, f);
    }

    /// A search ends at the longest prefix of the searched key that is a
    /// prefix of the key of some item.
    pub proof fn lemma_find_is_longest(&self, items: Seq<(String, T)>, q: Seq<u8>, idx: int)
        requires
            self.wf(),
            self.represents(items),
            self.finds(q, idx),
        ensures
            self.key(idx).is_prefix_of(q),
            self.key(idx).len() > 0 ==> on_the_way(items, self.key(idx)),
            forall|k: Seq<u8>|
                k.is_prefix_of(q) && #[trigger] on_the_way(items, k) ==> k.len() <= self.key(
                    idx,
                ).len(),
    {
        if self.key(idx).len() > 0 {
            assert(self.has_key(self.key(idx)));
        }
        assert forall|k: Seq<u8>| k.is_prefix_of(q) && #[trigger] on_the_way(items, k) implies k.len()
            <= self.key(idx).len() by {
            if k.len() > 0 {
                assert(self.has_key(k));
                let c = choose|c: int| 0 <= c < self.len() && #[trigger] self.key(c) == k;
                assert(self.key(c).is_prefix_of(q));
            }
        }
    }
}

/// The same items in another order have the same keys on the way.
pub proof fn lemma_on_the_way_any_order<T>(a: Seq<(String, T)>, b: Seq<(String, T)>, k: Seq<u8>)
    requires
        a.to_multiset() == b.to_multiset(),
        on_the_way(a, k),
    ensures
        on_the_way(b, k),
{
    broadcast use vstd::seq_lib::group_to_multiset_ensures;

    let i = choose|i: int| 0 <= i < a.len() && k.is_prefix_of(#[trigger] item_key(a[i]));
    assert(a.contains(a[i]));
    assert(a.to_multiset().count(a[i]) > 0);
    assert(b.to_multiset().count(a[i]) > 0);
    assert(b.contains(a[i]));
    let j = choose|j: int| 0 <= j < b.len() && b[j] == a[i];
    assert(k.is_prefix_of(item_key(b[j])));
}

/// Searching the trees of the same items in two orders ends at the same
/// key: the order of the items does not matter to what a search finds.
pub proof fn lemma_find_any_order<T>(
    h1: &AsciiHeap<T>,
    h2: &AsciiHeap<T>,
    a: Seq<(String, T)>,
    b: Seq<(String, T)>,
    q: Seq<u8>,
    i1: int,
    i2: int,
)
    requires
        h1.wf(),
        h2.wf(),
        h1.represents(a),
        h2.represents(b),
        a.to_multiset() == b.to_multiset(),
        h1.finds(q, i1),
        h2.finds(q, i2),
    ensures
        h1.key(i1) == h2.key(i2),
        h1.len() == h2.len(),
{
    h1.lemma_find_is_longest(a, q, i1);
    h2.lemma_find_is_longest(b, q, i2);
    if h1.key(i1).len() > 0 {
        lemma_on_the_way_any_order(a, b, h1.key(i1));
    }
    if h2.key(i2).len() > 0 {
        lemma_on_the_way_any_order(b, a, h2.key(i2));
    }
    assert(h1.key(i1).len() == h2.key(i2).len());
    assert(h1.key(i1) =~= h2.key(i2));
    assert forall|k: Seq<u8>| key_set(a).contains(k) <==> key_set(b).contains(k) by {
        if key_set(a).contains(k) {
            lemma_on_the_way_any_order(a, b, k);
        }
        if key_set(b).contains(k) {
            lemma_on_the_way_any_order(b, a, k);
        }
    }
    assert(key_set(a) =~= key_set(b));
}

impl<T> AsciiHeap<T> {
    /// Two trees with the same keys are the same array of nodes: the place
    /// of a node does not depend on the order in which the items came.
    pub proof fn lemma_same_layout(&self, other: &AsciiHeap<T>, i: int)
        requires
            self.wf(),
            other.wf(),
            self.len() == other.len(),
            forall|k: Seq<u8>| #[trigger] self.has_key(k) <==> other.has_key(k),
            0 <= i < self.len(),
        ensures
            self.key(i) == other.key(i),
            self.letter(i) == other.letter(i),
            self.child_start(i) == other.child_start(i),
            self.child_end(i) == other.child_end(i),
    {
        let ta = slots(self.nodes@);
        let tb = slots(other.nodes@);
        assert forall|k: Seq<u8>| #[trigger] covers(self.shape@, k) <==> covers(other.shape@, k) by {
            assert(self.has_key(k) <==> other.has_key(k));
            if covers(self.shape@, k) {
                let x = choose|x: int| 0 <= x < self.shape@.keys.len() && #[trigger] self.shape@.keys[x] == k;
                assert(self.key(x) == k);
            }
            if other.has_key(k) {
                let x = choose|x: int| 0 <= x < other.len() && #[trigger] other.key(x) == k;
                assert(other.shape@.keys[x] == k);
            }
            if covers(other.shape@, k) {
                let x = choose|x: int| 0 <= x < other.shape@.keys.len() && #[trigger] other.shape@.keys[x] == k;
                assert(other.key(x) == k);
            }
            if self.has_key(k) {
                let x = choose|x: int| 0 <= x < self.len() && #[trigger] self.key(x) == k;
                assert(self.shape@.keys[x] == k);
            }
        }
        lemma_same_node(ta, self.shape@, tb, other.shape@, i);
    }
}

/// Searching the trees of the same items in two orders ends at the same
/// node: the order of the items does not matter to what a search finds.
pub proof fn lemma_find_same_node<T>(
    h1: &AsciiHeap<T>,
    h2: &AsciiHeap<T>,
    a: Seq<(String, T)>,
    b: Seq<(String, T)>,
    q: Seq<u8>,
    i1: int,
    i2: int,
)
    requires
        h1.wf(),
        h2.wf(),
        h1.represents(a),
        h2.represents(b),
        a.to_multiset() == b.to_multiset(),
        h1.finds(q, i1),
        h2.finds(q, i2),
    ensures
        i1 == i2,
{
    lemma_find_any_order(h1, h2, a, b, q, i1, i2);
    assert forall|k: Seq<u8>| #[trigger] h1.has_key(k) <==> h2.has_key(k) by {
        if k.len() > 0 {
            if on_the_way(a, k) {
                lemma_on_the_way_any_order(a, b, k);
            }
            if on_the_way(b, k) {
                lemma_on_the_way_any_order(b, a, k);
            }
        } else {
            h1.lemma_root_key(0);
            h2.lemma_root_key(0);
            assert(h1.key(0) =~= k);
            assert(h2.key(0) =~= k);
        }
    }
    h1.lemma_same_layout(h2, i1);
    h2.lemma_key_names_node(i1, i2);
}

} // verus!
