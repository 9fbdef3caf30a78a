//! Names kept in one buffer.

use crate::text::bytes_eq;
use std::ops::Range;
use std::sync::Arc;
use vstd::prelude::*;
use vstd::slice::slice_subrange;
use vstd::string::*;
use vstd::utf8::*;

verus! {

/// `Vec::shrink_to_fit`: gives back unused room; what the vector holds
/// stays as it is.
#[verifier::external_body]
pub(crate) fn shrink<T>(v: &mut Vec<T>)
    ensures
        final(v)@ == old(v)@,
{
    v.shrink_to_fit()
}

/// Lists of names in one buffer. The last list is the one that is being
/// filled; `finish_list` closes it and opens the next.
pub struct StringLists {
    buf: Vec<u8>,
    strings: Vec<(usize, usize)>,
    lists: Vec<(usize, usize)>,
}

impl StringLists {
    /// The invariant: every name lies in the buffer, every list in the
    /// names, and the list that is being filled ends with the last name.
    pub closed spec fn wf(&self) -> bool {
        &&& self.lists@.len() >= 1
        &&& self.lists@.last().1 == self.strings@.len()
        &&& forall|k: int|
            0 <= k < self.strings@.len() ==> (#[trigger] self.strings@[k]).0 <= self.strings@[k].1
                <= self.buf@.len()
        &&& forall|i: int|
            0 <= i < self.lists@.len() ==> (#[trigger] self.lists@[i]).0 <= self.lists@[i].1
                <= self.strings@.len()
    }

    /// The name at place `k` of the buffer.
    pub closed spec fn name(&self, k: int) -> Seq<u8> {
        self.buf@.subrange(self.strings@[k].0 as int, self.strings@[k].1 as int)
    }

    /// The names of list `i`.
    pub closed spec fn list(&self, i: int) -> Seq<Seq<u8>> {
        Seq::new(
            (self.lists@[i].1 - self.lists@[i].0) as nat,
            |j: int| self.name(self.lists@[i].0 + j),
        )
    }

    /// All lists, each with its names; the last is the one being filled.
    pub closed spec fn view(&self) -> Seq<Seq<Seq<u8>>> {
        Seq::new(self.lists@.len(), |i: int| self.list(i))
    }

    /// One empty list, ready to be filled.
    pub fn new() -> (r: Self)
        ensures
            r.wf(),
            r@ == seq![Seq::<Seq<u8>>::empty()],
    {
        let mut lists: Vec<(usize, usize)> = Vec::new();
        lists.push((0, 0));
        let r = StringLists { buf: Vec::new(), strings: Vec::new(), lists };
        assert(r@ =~= seq![Seq::<Seq<u8>>::empty()]) by {
            assert(r@.len() == 1);
            assert(r@[0] =~= Seq::<Seq<u8>>::empty());
        }
        r
    }

    /// Gives back room that is not in use.
    pub fn shrink_to_fit(&mut self)
        requires
            old(self).wf(),
        ensures
            final(self).wf(),
            final(self)@ == old(self)@,
    {
        shrink(&mut self.buf);
        shrink(&mut self.strings);
        shrink(&mut self.lists);
        assert(self@ =~= old(self)@) by {
            assert forall|i: int| 0 <= i < self@.len() implies self@[i] =~= old(self)@[i] by {
                assert(self.list(i) =~= old(self).list(i));
            }
        }
    }

    /// Adds a name to the list that is being filled.
    pub fn push_str(&mut self, s: &str)
        requires
            old(self).wf(),
        ensures
            final(self).wf(),
            final(self)@ == old(self)@.update(
                old(self)@.len() - 1,
                old(self)@.last().push(s.spec_bytes()),
            ),
    {
        let bytes = s.as_bytes();
        let start = self.buf.len();
        let mut k: usize = 0;
        while k < bytes.len()
            invariant
                k <= bytes.len(),
                start == old(self).buf@.len(),
                self.strings == old(self).strings,
                self.lists == old(self).lists,
                self.buf@ == old(self).buf@ + bytes@.take(k as int),
            decreases bytes.len() - k,
        {
            self.buf.push(bytes[k]);
            assert(self.buf@ =~= old(self).buf@ + bytes@.take(k as int + 1));
            k += 1;
        }
        assert(bytes@.take(k as int) =~= bytes@);
        let end = self.buf.len();
        self.strings.push((start, end));
        let last = self.lists.len() - 1;
        let open = self.lists[last];
        self.lists.set(last, (open.0, self.strings.len()));
        proof {
            let n = old(self).strings@.len() as int;
            assert forall|k: int| 0 <= k < n implies self.name(k) == old(self).name(k) by {
                assert(old(self).strings@[k].1 <= old(self).buf@.len());
                assert(self.name(k) =~= old(self).name(k));
            }
            assert(self.name(n) =~= bytes@);
            let want = old(self)@.update(last as int, old(self)@.last().push(bytes@));
            assert(self@.len() == want.len());
            assert forall|i: int| 0 <= i < self@.len() implies self@[i] =~= want[i] by {
                assert(old(self).lists@[i].1 <= n);
                if i != last {
                    assert(self.list(i) =~= old(self).list(i));
                } else {
                    assert(self.list(i) =~= old(self).list(i).push(bytes@));
                }
            }
            assert(self@ =~= want);
        }
    }

    /// Closes the list that is being filled and opens a new one. Returns
    /// the number of the closed list.
    pub fn finish_list(&mut self) -> (pos: usize)
        requires
            old(self).wf(),
        ensures
            final(self).wf(),
            pos == old(self)@.len() - 1,
            final(self)@ == old(self)@.push(Seq::<Seq<u8>>::empty()),
    {
        let pos = self.lists.len() - 1;
        let n = self.strings.len();
        self.lists.push((n, n));
        proof {
            let want = old(self)@.push(Seq::<Seq<u8>>::empty());
            assert(self@.len() == want.len());
            assert forall|i: int| 0 <= i < self@.len() implies self@[i] =~= want[i] by {
                if i <= pos {
                    assert(self.list(i) =~= old(self).list(i));
                }
            }
            assert(self@ =~= want);
        }
        pos
    }

    /// The number of lists, the one being filled included.
    pub fn len(&self) -> (r: usize)
        requires
            self.wf(),
        ensures
            r == self@.len(),
            r >= 1,
    {
        self.lists.len()
    }

    /// The number of names in list `idx`.
    pub fn list_len(&self, idx: usize) -> (r: usize)
        requires
            self.wf(),
            idx < self@.len(),
        ensures
            r == self@[idx as int].len(),
    {
        self.lists[idx].1 - self.lists[idx].0
    }

    /// The name at place `k` of list `idx`.
    pub fn get(&self, idx: usize, k: usize) -> (r: &[u8])
        requires
            self.wf(),
            idx < self@.len(),
            k < self@[idx as int].len(),
        ensures
            r@ == self@[idx as int][k as int],
    {
        let at = self.lists[idx].0 + k;
        let (start, end) = self.strings[at];
        slice_subrange(self.buf.as_slice(), start, end)
    }

    /// The names of list `idx`, in order.
    pub fn iter(&self, idx: usize) -> (r: Vec<&[u8]>)
        requires
            self.wf(),
            idx < self@.len(),
        ensures
            r@.len() == self@[idx as int].len(),
            forall|k: int| 0 <= k < r@.len() ==> (#[trigger] r@[k])@ == self@[idx as int][k],
    {
        let n = self.list_len(idx);
        let mut r: Vec<&[u8]> = Vec::new();
        let mut k: usize = 0;
        while k < n
            invariant
                self.wf(),
                idx < self@.len(),
                n == self@[idx as int].len(),
                k <= n,
                r@.len() == k,
                forall|j: int| 0 <= j < k ==> (#[trigger] r@[j])@ == self@[idx as int][j],
            decreases n - k,
        {
            r.push(self.get(idx, k));
            k += 1;
        }
        r
    }
}


/// `Arc::clone`: another handle to the same value.
#[verifier::external_body]
pub(crate) fn share<T>(a: &Arc<T>) -> (r: Arc<T>)
    ensures
        r == *a,
{
    a.clone()
}

/// A part of a text that is shared, not copied. Two parts are the same if
/// their texts are.
pub struct ArcString {
    buf: Arc<String>,
    start: usize,
    end: usize,
}

/// A part of a valid text between two character boundaries is a valid
/// text, and has its character boundaries where the whole text has them.
proof fn lemma_part(b: Seq<u8>, start: int, end: int)
    requires
        valid_utf8(b),
        0 <= start <= end <= b.len(),
        is_char_boundary(b, start),
        is_char_boundary(b, end),
    ensures
        valid_utf8(b.subrange(0, end)),
        is_char_boundary(b.subrange(0, end), start),
        valid_utf8(b.subrange(start, end)),
        forall|i: int|
            0 <= i <= end - start ==> (#[trigger] is_char_boundary(b.subrange(start, end), i)
                <==> is_char_boundary(b, start + i)),
{
    let p = b.subrange(0, end);
    let t = b.subrange(start, end);
    valid_utf8_split(b, end);
    is_char_boundary_start_end_of_seq(p);
    if start < end {
        is_char_boundary_iff_not_is_continuation_byte(b, start);
        is_char_boundary_iff_not_is_continuation_byte(p, start);
        assert(p[start] == b[start]);
    }
    valid_utf8_split(p, start);
    assert(p.subrange(start, p.len() as int) =~= t);
    is_char_boundary_start_end_of_seq(t);
    assert forall|i: int| 0 <= i <= end - start implies (#[trigger] is_char_boundary(t, i)
        <==> is_char_boundary(b, start + i)) by {
        if i < end - start {
            is_char_boundary_iff_not_is_continuation_byte(t, i);
            is_char_boundary_iff_not_is_continuation_byte(b, start + i);
            assert(t[i] == b[start + i]);
        }
    }
}

impl ArcString {
    /// The bytes of the whole shared text.
    pub closed spec fn whole(&self) -> Seq<u8> {
        encode_utf8((*self.buf)@)
    }

    /// The bytes of the part.
    pub closed spec fn text(&self) -> Seq<u8> {
        self.whole().subrange(self.start as int, self.end as int)
    }

    /// The invariant: the part lies in the text, between two character
    /// boundaries.
    pub closed spec fn wf(&self) -> bool {
        &&& self.start <= self.end <= self.whole().len()
        &&& is_char_boundary(self.whole(), self.start as int)
        &&& is_char_boundary(self.whole(), self.end as int)
    }

    /// The whole of a text as a part of it.
    pub fn new(buf: String) -> (r: Self)
        ensures
            r.wf(),
            r.text() == encode_utf8(buf@),
    {
        let whole = buf.as_str();
        let end = whole.as_bytes().len();
        proof {
            assert(whole@ == buf@);
            assert(end == whole.spec_bytes().len());
            assert(whole.spec_bytes() == encode_utf8(buf@));
            encode_utf8_valid_utf8(buf@);
            is_char_boundary_start_end_of_seq(encode_utf8(buf@));
            assert(encode_utf8(buf@).subrange(0, end as int) =~= encode_utf8(buf@));
        }
        ArcString { buf: Arc::new(buf), start: 0, end }
    }

    /// The length of the part in bytes.
    pub fn len(&self) -> (r: usize)
        requires
            self.wf(),
        ensures
            r == self.text().len(),
    {
        self.end - self.start
    }

    /// The part of this part between two places that are character
    /// boundaries.
    pub fn substring(&self, index: Range<usize>) -> (r: ArcString)
        requires
            self.wf(),
            index.start <= index.end <= self.text().len(),
            is_char_boundary(self.text(), index.start as int),
            is_char_boundary(self.text(), index.end as int),
        ensures
            r.wf(),
            r.text() == self.text().subrange(index.start as int, index.end as int),
    {
        proof {
            encode_utf8_valid_utf8((*self.buf)@);
            lemma_part(self.whole(), self.start as int, self.end as int);
            assert(is_char_boundary(self.text(), index.start as int) <==> is_char_boundary(
                self.whole(),
                self.start + index.start,
            ));
            assert(is_char_boundary(self.text(), index.end as int) <==> is_char_boundary(
                self.whole(),
                self.start + index.end,
            ));
        }
        let r = ArcString {
            buf: share(&self.buf),
            start: self.start + index.start,
            end: self.start + index.end,
        };
        assert(r.text() =~= self.text().subrange(index.start as int, index.end as int));
        r
    }

    /// The part as a text.
    pub fn as_str(&self) -> (r: &str)
        requires
            self.wf(),
        ensures
            r.spec_bytes() == self.text(),
    {
        proof {
            encode_utf8_valid_utf8((*self.buf)@);
            lemma_part(self.whole(), self.start as int, self.end as int);
        }
        let whole = self.buf.as_str();
        let (head, _) = whole.split_at(self.end);
        let (_, part) = head.split_at(self.start);
        proof {
            assert(head.spec_bytes().subrange(self.start as int, head.spec_bytes().len() as int)
                =~= self.text());
        }
        part
    }

    /// Tells whether two parts have the same text.
    pub fn eq(&self, other: &ArcString) -> (r: bool)
        requires
            self.wf(),
            other.wf(),
        ensures
            r == (self.text() == other.text()),
    {
        bytes_eq(self.as_str().as_bytes(), other.as_str().as_bytes())
    }
}

} // verus!
