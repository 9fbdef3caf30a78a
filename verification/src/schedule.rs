//! Bringing the airing times of the store in line with the catalogue.

use vstd::prelude::*;

verus! {

/// Seconds of a day.
pub const DAY: i64 = 86400;

/// An airing: its time in seconds, the number of the show in the
/// catalogue, and the episode.
pub type Item = (i64, i64, i32);

/// An airing that the store holds.
#[derive(Copy, Clone, Debug, PartialEq, Eq)]
pub struct ExistingItem {
    pub item: Item,
    pub schedule_id: i64,
}

/// A change to the airings of the store.
#[derive(Copy, Clone, Debug, PartialEq, Eq)]
pub enum Change {
    Add(Item),
    Del(ExistingItem),
}

/// The airing comes before the other: by time, then by show, then by
/// episode.
pub open spec fn before(a: Item, b: Item) -> bool {
    a.0 < b.0 || (a.0 == b.0 && (a.1 < b.1 || (a.1 == b.1 && a.2 < b.2)))
}

/// No airing comes before an earlier one.
pub open spec fn sorted(v: Seq<Item>) -> bool {
    forall|i: int, j: int| 0 <= i < j < v.len() ==> !before(#[trigger] v[j], #[trigger] v[i])
}

/// The airings that the store holds, without their numbers in the store.
pub open spec fn items_of(v: Seq<ExistingItem>) -> Seq<Item> {
    Seq::new(v.len(), |i: int| v[i].item)
}

/// `<[T]>::sort` on airings: the same airings, the earliest first. Tuples
/// of integers are ordered by their first parts, then by their second
/// parts, and so on.
#[verifier::external_body]
fn sort_items(v: &mut Vec<Item>)
    ensures
        sorted(final(v)@),
        final(v)@.to_multiset() == old(v)@.to_multiset(),
{
    v.sort()
}

/// `<[T]>::sort_by_key` with the airing as the key: the same airings of
/// the store, the earliest first.
#[verifier::external_body]
fn sort_existing(v: &mut Vec<ExistingItem>)
    ensures
        sorted(items_of(final(v)@)),
        final(v)@.to_multiset() == old(v)@.to_multiset(),
{
    v.sort_by_key(|e| e.item)
}

/// The changes that make airings in order what the catalogue says, also
/// in order: an airing of the store that the catalogue lacks is deleted,
/// one of the catalogue that the store lacks is added, and one that both
/// have stays.
pub open spec fn merged(e: Seq<ExistingItem>, n: Seq<Item>) -> Seq<Change>
    decreases e.len() + n.len(),
{
    if e.len() == 0 {
        Seq::new(n.len(), |i: int| Change::Add(n[i]))
    } else if n.len() == 0 {
        Seq::new(e.len(), |i: int| Change::Del(e[i]))
    } else if before(e[0].item, n[0]) {
        seq![Change::Del(e[0])] + merged(e.drop_first(), n)
    } else if before(n[0], e[0].item) {
        seq![Change::Add(n[0])] + merged(e, n.drop_first())
    } else {
        merged(e.drop_first(), n.drop_first())
    }
}

fn comes_before(a: &Item, b: &Item) -> (r: bool)
    ensures
        r == before(*a, *b),
{
    a.0 < b.0 || (a.0 == b.0 && (a.1 < b.1 || (a.1 == b.1 && a.2 < b.2)))
}

/// Works out the changes from airings in order.
pub fn merge(existing: &Vec<ExistingItem>, new: &Vec<Item>) -> (r: Vec<Change>)
    ensures
        r@ == merged(existing@, new@),
{
    let mut r: Vec<Change> = Vec::new();
    let mut i: usize = 0;
    let mut j: usize = 0;
    assert(existing@.skip(0) =~= existing@);
    assert(new@.skip(0) =~= new@);
    assert(r@ + merged(existing@, new@) =~= merged(existing@, new@));
    while i < existing.len() && j < new.len()
        invariant
            i <= existing.len(),
            j <= new.len(),
            r@ + merged(existing@.skip(i as int), new@.skip(j as int)) == merged(
                existing@,
                new@,
            ),
        decreases existing.len() - i + new.len() - j,
    {
        let e = existing[i];
        let n = new[j];
        proof {
            let es = existing@.skip(i as int);
            let ns = new@.skip(j as int);
            assert(es[0] == e);
            assert(ns[0] == n);
            assert(es.drop_first() =~= existing@.skip(i as int + 1));
            assert(ns.drop_first() =~= new@.skip(j as int + 1));
        }
        let ghost before_r = r@;
        if comes_before(&e.item, &n) {
            r.push(Change::Del(e));
            i += 1;
            assert(r@ + merged(existing@.skip(i as int), new@.skip(j as int)) =~= before_r + (
            seq![Change::Del(e)] + merged(existing@.skip(i as int), new@.skip(j as int))));
        } else if comes_before(&n, &e.item) {
            r.push(Change::Add(n));
            j += 1;
            assert(r@ + merged(existing@.skip(i as int), new@.skip(j as int)) =~= before_r + (
            seq![Change::Add(n)] + merged(existing@.skip(i as int), new@.skip(j as int))));
        } else {
            i += 1;
            j += 1;
        }
    }
    while j < new.len()
        invariant
            i <= existing.len(),
            j <= new.len(),
            i == existing.len() || j == new.len(),
            r@ + merged(existing@.skip(i as int), new@.skip(j as int)) == merged(
                existing@,
                new@,
            ),
        decreases new.len() - j,
    {
        let ghost before_r = r@;
        let ghost ns = new@.skip(j as int);
        let ghost es = existing@.skip(i as int);
        r.push(Change::Add(new[j]));
        j += 1;
        proof {
            assert(es.len() == 0);
            let rest = new@.skip(j as int);
            assert(merged(es, ns) =~= seq![Change::Add(ns[0])] + merged(es, rest)) by {
                assert(merged(es, ns).len() == ns.len());
                assert forall|x: int| 0 <= x < ns.len() implies merged(es, ns)[x] == (
                seq![Change::Add(ns[0])] + merged(es, rest))[x] by {
                    if x > 0 {
                        assert(rest[x - 1] == ns[x]);
                    }
                }
            }
            assert(r@ + merged(es, rest) =~= before_r + (seq![Change::Add(ns[0])] + merged(
                es,
                rest,
            )));
        }
    }
    while i < existing.len()
        invariant
            i <= existing.len(),
            j == new.len(),
            r@ + merged(existing@.skip(i as int), new@.skip(j as int)) == merged(
                existing@,
                new@,
            ),
        decreases existing.len() - i,
    {
        let ghost before_r = r@;
        let ghost ns = new@.skip(j as int);
        let ghost es = existing@.skip(i as int);
        r.push(Change::Del(existing[i]));
        i += 1;
        proof {
            assert(ns.len() == 0);
            let rest = existing@.skip(i as int);
            assert(merged(es, ns) =~= seq![Change::Del(es[0])] + merged(rest, ns)) by {
                assert(merged(es, ns).len() == es.len());
                assert forall|x: int| 0 <= x < es.len() implies merged(es, ns)[x] == (
                seq![Change::Del(es[0])] + merged(rest, ns))[x] by {
                    if x > 0 {
                        assert(rest[x - 1] == es[x]);
                    }
                }
            }
            assert(r@ + merged(rest, ns) =~= before_r + (seq![Change::Del(es[0])] + merged(
                rest,
                ns,
            )));
        }
    }
    proof {
        assert(existing@.skip(i as int).len() == 0);
        assert(merged(existing@.skip(i as int), new@.skip(j as int)) =~= Seq::<Change>::empty());
        assert(r@ + Seq::<Change>::empty() =~= r@);
    }
    r
}

/// Works out the changes that make the airings of the store what the
/// catalogue says. The changes come in the order of the airings; the
/// airings that both have are those that pair off when both lists are put
/// in order.
pub fn compute_diff(existing: Vec<ExistingItem>, new: Vec<Item>) -> (r: Vec<Change>)
    ensures
        exists|e: Seq<ExistingItem>, n: Seq<Item>|
            sorted(items_of(e)) && sorted(n) && e.to_multiset() == existing@.to_multiset()
                && n.to_multiset() == new@.to_multiset() && r@ == #[trigger] merged(e, n),
{
    let mut existing = existing;
    let mut new = new;
    sort_existing(&mut existing);
    sort_items(&mut new);
    merge(&existing, &new)
}

/// The span of time for which airings are asked of the catalogue: from a
/// day before the given midnight to seven days after it.
pub fn window(midnight: i64) -> (r: (i64, i64))
    requires
        i64::MIN + DAY <= midnight <= i64::MAX - 7 * DAY,
    ensures
        r.0 == midnight - DAY,
        r.1 == midnight + 7 * DAY,
{
    (midnight - DAY, midnight + 7 * DAY)
}

} // verus!
