//! What matching a torrent again would change in its links to shows.

use crate::seqs::lemma_filter_push;
use vstd::prelude::*;

verus! {

/// A link to add, or a link to take away.
#[derive(Copy, Clone, Debug, PartialEq, Eq, Structural)]
pub enum Diff {
    Add,
    Sub,
}

/// The show is another than the one found.
pub open spec fn other_than(found: Option<i64>) -> spec_fn(i64) -> bool {
    |id: i64| Some(id) != found
}

/// The links to the shows, each to be taken away.
pub open spec fn taken_away(ids: Seq<i64>) -> Seq<(Diff, i64)> {
    Seq::new(ids.len(), |i: int| (Diff::Sub, ids[i]))
}

/// The changes for a torrent that is linked to the shows `current` and
/// that matches the show `found`, or no show: every link to another show
/// is taken away, and a link to the show found is added where there is
/// none.
pub open spec fn diff_of(current: Seq<i64>, found: Option<i64>) -> Seq<(Diff, i64)> {
    taken_away(current.filter(other_than(found))) + match found {
        Some(show) if !current.contains(show) => seq![(Diff::Add, show)],
        _ => Seq::empty(),
    }
}

/// Works out what matching a torrent again changes.
pub fn diff(current: &[i64], found: Option<i64>) -> (r: Vec<(Diff, i64)>)
    ensures
        r@ == diff_of(current@, found),
{
    let mut r: Vec<(Diff, i64)> = Vec::new();
    let mut have_new = false;
    let mut k: usize = 0;
    assert(current@.take(0) =~= Seq::<i64>::empty());
    while k < current.len()
        invariant
            k <= current.len(),
            r@ == taken_away(current@.take(k as int).filter(other_than(found))),
            have_new == (found matches Some(show) && current@.take(k as int).contains(show)),
        decreases current.len() - k,
    {
        let old_show = current[k];
        proof {
            let seen = current@.take(k as int);
            assert(current@.take(k as int + 1) =~= seen.push(old_show));
            lemma_filter_push(seen, old_show, other_than(found));
            if found is Some {
                let show = found.unwrap();
                if seen.contains(show) {
                    let i = choose|i: int| 0 <= i < seen.len() && seen[i] == show;
                    assert(seen.push(old_show)[i] == show);
                }
                if seen.push(old_show).contains(show) && show != old_show {
                    let i = choose|i: int|
                        0 <= i < seen.push(old_show).len() && seen.push(old_show)[i] == show;
                    assert(seen[i] == show);
                }
                if show == old_show {
                    assert(seen.push(old_show)[seen.len() as int] == show);
                }
            }
        }
        match found {
            Some(show) => {
                if old_show == show {
                    have_new = true;
                } else {
                    r.push((Diff::Sub, old_show));
                }
            },
            None => {
                r.push((Diff::Sub, old_show));
            },
        }
        assert(r@ =~= taken_away(current@.take(k as int + 1).filter(other_than(found))));
        k += 1;
    }
    assert(current@.take(k as int) =~= current@);
    match found {
        Some(show) => {
            if !have_new {
                r.push((Diff::Add, show));
            }
        },
        None => {},
    }
    assert(r@ =~= diff_of(current@, found));
    r
}

} // verus!
