//! Reading a torrent title: normalizing it, cutting it into blocks, and
//! finding the part that names the show.

use crate::format::Format;
use crate::pattern::{captures, captures_view, regex_captures, spans_ok, Captures};
use crate::seqs::lemma_filter_push;
use crate::show_db::{
    check_spans, find_format, find_season, find_year, format_in, group_number, number, season_of,
    span_of, year_in, FORMAT, YEAR,
};
use crate::text::{has_key_byte, is_key, is_key_byte, lower, remove_range, to_lower, without};
use std::ops::Range;
use vstd::prelude::*;
use vstd::slice::slice_subrange;
use vstd::string::*;

verus! {

/// The bytes that the analyzer knows by name.
pub const SPACE: u8 = 0x20;

pub const UNDERSCORE: u8 = 0x5f;

pub const DOT: u8 = 0x2e;

pub const OPEN_BRACKET: u8 = 0x5b;

pub const CLOSE_BRACKET: u8 = 0x5d;

pub const OPEN_PAREN: u8 = 0x28;

pub const CLOSE_PAREN: u8 = 0x29;

/// How often `b` stands in the text.
pub open spec fn count(s: Seq<u8>, b: u8) -> nat
    decreases s.len(),
{
    if s.len() == 0 {
        0
    } else {
        count(s.drop_last(), b) + if s.last() == b {
            1nat
        } else {
            0nat
        }
    }
}

/// The byte that separates the words of a title: the space where the title
/// has one; else the underscore or the dot, whichever stands more often, the
/// underscore where they are even; the space where it has none of them.
pub open spec fn separator_of(s: Seq<u8>) -> u8 {
    if count(s, SPACE) > 0 {
        SPACE
    } else if count(s, UNDERSCORE) == 0 && count(s, DOT) == 0 {
        SPACE
    } else if count(s, UNDERSCORE) >= count(s, DOT) {
        UNDERSCORE
    } else {
        DOT
    }
}

proof fn lemma_count_bound(s: Seq<u8>, b: u8)
    ensures
        count(s, b) <= s.len(),
    decreases s.len(),
{
    if s.len() > 0 {
        lemma_count_bound(s.drop_last(), b);
    }
}

proof fn lemma_count_grows(s: Seq<u8>, b: u8, k: int)
    requires
        0 <= k <= s.len(),
    ensures
        count(s.take(k), b) <= count(s, b),
    decreases s.len() - k,
{
    if k == s.len() {
        assert(s.take(k) =~= s);
    } else {
        lemma_count_grows(s, b, k + 1);
        assert(s.take(k + 1).drop_last() =~= s.take(k));
    }
}

/// Finds the byte that separates the words of a title.
pub fn find_separator(title: &[u8]) -> (r: u8)
    ensures
        r == separator_of(title@),
{
    let mut num_underscore: usize = 0;
    let mut num_dot: usize = 0;
    let mut k: usize = 0;
    assert(title@.take(0) =~= Seq::<u8>::empty());
    while k < title.len()
        invariant
            k <= title.len(),
            count(title@.take(k as int), SPACE) == 0,
            num_underscore == count(title@.take(k as int), UNDERSCORE),
            num_dot == count(title@.take(k as int), DOT),
        decreases title.len() - k,
    {
        let c = title[k];
        proof {
            assert(title@.take(k as int + 1).drop_last() =~= title@.take(k as int));
            lemma_count_bound(title@.take(k as int), UNDERSCORE);
            lemma_count_bound(title@.take(k as int), DOT);
        }
        if c == SPACE {
            proof {
                lemma_count_grows(title@, SPACE, k as int + 1);
            }
            return SPACE;
        } else if c == UNDERSCORE {
            num_underscore += 1;
        } else if c == DOT {
            num_dot += 1;
        }
        k += 1;
    }
    assert(title@.take(k as int) =~= title@);
    if num_underscore == 0 && num_dot == 0 {
        return SPACE;
    }
    if num_underscore >= num_dot {
        UNDERSCORE
    } else {
        DOT
    }
}

/// The text ends where a run of separators may go on: it is empty, or its
/// last byte is the separator.
pub open spec fn ends_spaced(s: Seq<u8>, sep: u8) -> bool {
    s.len() == 0 || s.last() == sep
}

/// The title with every run of separators made one space, the separators
/// at its start left out, and every other byte in lower case.
pub open spec fn squeezed(s: Seq<u8>, sep: u8) -> Seq<u8>
    decreases s.len(),
{
    if s.len() == 0 {
        Seq::empty()
    } else {
        let r = squeezed(s.drop_last(), sep);
        if s.last() == sep {
            if ends_spaced(s.drop_last(), sep) {
                r
            } else {
                r.push(SPACE)
            }
        } else {
            r.push(lower(s.last()))
        }
    }
}

/// The normal form of a title: squeezed, and without the space that a
/// separator at its end leaves.
pub open spec fn normalized(s: Seq<u8>, sep: u8) -> Seq<u8> {
    let r = squeezed(s, sep);
    if ends_spaced(s, sep) && r.len() > 0 {
        r.drop_last()
    } else {
        r
    }
}

/// Brings a title into its normal form.
pub fn normalize_title(title: &[u8], separator: u8) -> (r: Vec<u8>)
    ensures
        r@ == normalized(title@, separator),
{
    let mut last_was_space = true;
    let mut res: Vec<u8> = Vec::new();
    let mut k: usize = 0;
    assert(title@.take(0) =~= Seq::<u8>::empty());
    while k < title.len()
        invariant
            k <= title.len(),
            res@ == squeezed(title@.take(k as int), separator),
            last_was_space == ends_spaced(title@.take(k as int), separator),
        decreases title.len() - k,
    {
        let c = title[k];
        proof {
            assert(title@.take(k as int + 1).drop_last() =~= title@.take(k as int));
        }
        if c == separator {
            if !last_was_space {
                res.push(SPACE);
                last_was_space = true;
            }
        } else {
            res.push(to_lower(c));
            last_was_space = false;
        }
        k += 1;
    }
    assert(title@.take(k as int) =~= title@);
    if last_was_space {
        res.pop();
    }
    res
}

/// A part of a title: text outside brackets, or one bracketed part with its
/// brackets. `pos` counts the blocks as they were cut; the text is the
/// `len` bytes of the title from `start` on.
#[derive(Copy, Clone, Debug, PartialEq, Eq, Structural)]
pub struct Block {
    pub pos: usize,
    pub delimiter: Option<u8>,
    pub start: usize,
    pub len: usize,
}

impl Block {
    /// An empty block without brackets.
    pub fn new(pos: usize) -> (r: Block)
        ensures
            r == (Block { pos, delimiter: None, start: 0, len: 0 }),
    {
        Block { pos, delimiter: None, start: 0, len: 0 }
    }

    /// The text of the block.
    pub open spec fn text(self, title: Seq<u8>) -> Seq<u8> {
        title.subrange(self.start as int, self.start + self.len)
    }
}

/// The bracket that opens what `c` closes.
pub open spec fn opening_of(c: u8) -> u8 {
    if c == CLOSE_BRACKET {
        OPEN_BRACKET
    } else {
        OPEN_PAREN
    }
}

/// The bracket that opens what `c` closes.
pub fn opening_pair(c: u8) -> (r: u8)
    requires
        c == CLOSE_BRACKET || c == CLOSE_PAREN,
    ensures
        r == opening_of(c),
{
    if c == CLOSE_BRACKET {
        OPEN_BRACKET
    } else {
        OPEN_PAREN
    }
}

/// The text holds a letter or digit of the index alphabet.
pub fn is_relevant(s: &[u8]) -> (r: bool)
    ensures
        r == has_key_byte(s@),
{
    let mut k: usize = 0;
    while k < s.len()
        invariant
            k <= s.len(),
            forall|j: int| 0 <= j < k ==> !is_key_byte(#[trigger] s@[j]),
        decreases s.len() - k,
    {
        if is_key(s[k]) {
            return true;
        }
        k += 1;
    }
    false
}

/// The text holds no letter or digit of the index alphabet.
pub fn is_not_relevant(s: &[u8]) -> (r: bool)
    ensures
        r == !has_key_byte(s@),
{
    !is_relevant(s)
}


/// Where the cutting of a title stands: the blocks cut so far, the block
/// that is open, the number of blocks begun, and how deep the open block's
/// brackets are nested.
pub struct Cutting {
    pub blocks: Seq<Block>,
    pub open: Block,
    pub counter: int,
    pub depth: int,
}

/// Closes the open block before `stop`, where it holds anything, and opens
/// a block without brackets there.
pub open spec fn close_at(st: Cutting, stop: int) -> Cutting {
    if st.open.start < stop {
        Cutting {
            blocks: st.blocks.push(
                Block {
                    pos: st.open.pos,
                    delimiter: st.open.delimiter,
                    start: st.open.start,
                    len: (stop - st.open.start) as usize,
                },
            ),
            open: Block {
                pos: (st.counter + 1) as usize,
                delimiter: None,
                start: stop as usize,
                len: 0,
            },
            counter: st.counter + 1,
            depth: st.depth,
        }
    } else {
        st
    }
}

/// Takes the byte `c` at place `i` into the cutting. An opening bracket
/// outside brackets closes the open block and opens a bracketed one; inside
/// brackets of its own kind it nests. A closing bracket of the open block's
/// kind ends one nesting, and the block with the last.
pub open spec fn cut_step(st: Cutting, i: int, c: u8) -> Cutting {
    if c == OPEN_BRACKET || c == OPEN_PAREN {
        let st1 = if st.open.delimiter is None {
            let st0 = close_at(st, i);
            Cutting {
                open: Block {
                    pos: st0.open.pos,
                    delimiter: Some(c),
                    start: st0.open.start,
                    len: 0,
                },
                ..st0
            }
        } else {
            st
        };
        if st1.open.delimiter == Some(c) {
            Cutting { depth: st1.depth + 1, ..st1 }
        } else {
            st1
        }
    } else if (c == CLOSE_BRACKET || c == CLOSE_PAREN) && st.open.delimiter == Some(
        opening_of(c),
    ) {
        let st1 = Cutting { depth: st.depth - 1, ..st };
        if st1.depth == 0 {
            close_at(st1, i + 1)
        } else {
            st1
        }
    } else {
        st
    }
}

/// The cutting after the first `k` bytes of the title.
pub open spec fn cut(title: Seq<u8>, k: int) -> Cutting
    decreases k,
{
    if k <= 0 {
        Cutting { blocks: Seq::empty(), open: Block { pos: 0, delimiter: None, start: 0, len: 0 }, counter: 0, depth: 0 }
    } else {
        cut_step(cut(title, k - 1), k - 1, title[k - 1])
    }
}

/// The blocks at the end of the title: a last block without brackets takes
/// in all that follows it, an open bracket too; else what is open becomes
/// the last block.
pub open spec fn cut_end(st: Cutting, len: int) -> Seq<Block> {
    let st1 = if st.blocks.len() > 0 && st.blocks.last().delimiter is None {
        Cutting {
            blocks: st.blocks.drop_last(),
            open: Block { len: 0, ..st.blocks.last() },
            ..st
        }
    } else {
        st
    };
    close_at(st1, len).blocks
}

/// The block holds a letter or digit of the index alphabet.
pub open spec fn relevant(title: Seq<u8>) -> spec_fn(Block) -> bool {
    |b: Block| has_key_byte(b.text(title))
}

/// The blocks of a title, those without a letter or digit left out.
pub open spec fn blocks_of(title: Seq<u8>) -> Seq<Block> {
    cut_end(cut(title, title.len() as int), title.len() as int).filter(relevant(title))
}

/// The blocks lie in a title of `len` bytes, one after the other.
pub open spec fn blocks_ok(blocks: Seq<Block>, len: nat) -> bool {
    &&& forall|i: int|
        0 <= i < blocks.len() ==> (#[trigger] blocks[i]).start + blocks[i].len <= len
    &&& forall|i: int, j: int|
        0 <= i < j < blocks.len() ==> (#[trigger] blocks[i]).start + blocks[i].len <= (
        #[trigger] blocks[j]).start
}

/// The text of a block.
pub fn block_text<'a>(title: &'a [u8], b: &Block) -> (r: &'a [u8])
    requires
        b.start + b.len <= title@.len(),
    ensures
        r@ == b.text(title@),
{
    let n = title.len();
    assert(b.start + b.len <= n);
    slice_subrange(title, b.start, b.start + b.len)
}

/// Cuts a normalized title into its blocks.
pub fn parse_blocks(title: &[u8]) -> (r: Vec<Block>)
    ensures
        r@ == blocks_of(title@),
        blocks_ok(r@, title@.len()),
{
    let n = title.len();
    let mut blocks: Vec<Block> = Vec::new();
    let mut pos: usize = 0;
    let mut block = Block::new(pos);
    let mut depth: usize = 0;
    let mut k: usize = 0;
    while k < n
        invariant
            k <= n,
            n == title@.len(),
            cut(title@, k as int) == (Cutting {
                blocks: blocks@,
                open: block,
                counter: pos as int,
                depth: depth as int,
            }),
            depth <= k,
            pos <= k,
            block.start <= k,
            block.len == 0,
            block.delimiter is Some ==> depth >= 1,
            block.delimiter is None ==> depth == 0,
            blocks_ok(blocks@, k as nat),
            forall|i: int|
                0 <= i < blocks@.len() ==> (#[trigger] blocks@[i]).start + blocks@[i].len
                    <= block.start,
        decreases n - k,
    {
        let c = title[k];
        let ghost before = cut(title@, k as int);
        if c == OPEN_BRACKET || c == OPEN_PAREN {
            if block.delimiter.is_none() {
                if block.start < k {
                    block.len = k - block.start;
                    blocks.push(block);
                    pos += 1;
                    block = Block::new(pos);
                    block.start = k;
                }
                block.delimiter = Some(c);
            }
            if block.delimiter == Some(c) {
                depth += 1;
            }
        } else if (c == CLOSE_BRACKET || c == CLOSE_PAREN) && block.delimiter == Some(
            opening_pair(c),
        ) {
            depth -= 1;
            if depth == 0 {
                block.len = k + 1 - block.start;
                blocks.push(block);
                pos += 1;
                block = Block::new(pos);
                block.start = k + 1;
            }
        }
        k += 1;
    }
    match blocks.pop() {
        Some(last) => {
            if last.delimiter.is_none() {
                block = last;
                block.len = 0;
            } else {
                blocks.push(last);
                assert(blocks@ =~= cut(title@, n as int).blocks);
            }
        },
        None => {},
    }
    if block.start < n {
        block.len = n - block.start;
        blocks.push(block);
    }
    assert(blocks@ == cut_end(cut(title@, n as int), n as int));
    assert(blocks_ok(blocks@, n as nat));
    let mut r: Vec<Block> = Vec::new();
    let mut i: usize = 0;
    assert(blocks@.take(0) =~= Seq::<Block>::empty());
    while i < blocks.len()
        invariant
            i <= blocks.len(),
            n == title@.len(),
            blocks_ok(blocks@, n as nat),
            r@ == blocks@.take(i as int).filter(relevant(title@)),
            blocks_ok(r@, n as nat),
            forall|x: int, y: int|
                0 <= x < r@.len() && i <= y < blocks@.len() ==> (#[trigger] r@[x]).start
                    + r@[x].len <= (#[trigger] blocks@[y]).start,
        decreases blocks.len() - i,
    {
        let b = blocks[i];
        proof {
            assert(blocks@.take(i as int + 1) =~= blocks@.take(i as int).push(b));
            lemma_filter_push(blocks@.take(i as int), b, relevant(title@));
        }
        if is_relevant(block_text(title, &b)) {
            r.push(b);
        }
        i += 1;
    }
    assert(blocks@.take(i as int) =~= blocks@);
    r
}


/// A word that tells of the file and not of the show.
pub const FILE_INFO: &'static str = r"(?x)\b
            (
                    \.mkv
                |   mkv
                |   720p
                |   360p
                |   1080p
                |   multiple\ subtitle
                |   480p
                |   aac
                |   hevc
                |   english\ dub
                |   multi-?subs?
                |   540p
                |   10bit
                |   10-bit
                |   x265
                |   av1
                |   60pfs
                |   dual-audio
                |   x264
            )
            \b
        ";

/// An episode at the end of a block, in one of its common forms.
pub const EPISODE_SUFFIX: &'static str = r"(?x)
            (^|[^a-z0-9])
            (ep(\.|isodes?)?\s*)?
            (
                    \d+\s*~\s*\d+
                |   -\s*\d+\s*-\s*\d+
                |   \d+-\d+
                |   0\d+\s*-\s*\d+
                |   (s(?P<season>\d+)e|-\s*|(?P<plain>\d))\d+(\.\d)?\s*(v\d)?
            )
            \s*(end|final|oad)?
            [^a-z0-9]*
            $
            ";

/// An episode at the end of a block, announced by "ep".
pub const EPISODE_WORD: &'static str = r"(?x)
            (^|[^a-z0-9])
            ep(\.|isodes?)?\s*
            \d+(\s*(~|-)\s*\d+)?
            \s*(end|final|oad)?
            [^a-z0-9]*
            $
            ";

/// A block that is nothing but an episode.
pub const EPISODE_ALONE: &'static str = r"(?x)
            ^
            [^a-z0-9]*
            \d+(\s*-\s*\d+)?
            [^a-z0-9]*
            $
            ";

/// The group of `EPISODE_SUFFIX` that holds the season of "s01e02".
pub const SEASON_GROUP: usize = 6;

/// The group of `EPISODE_SUFFIX` that holds the first digit of an episode
/// written as a plain number.
pub const PLAIN_GROUP: usize = 7;

/// The match, where it is one that lies inside a text of `len` bytes.
pub open spec fn usable(caps: Option<Seq<Option<(usize, usize)>>>, len: nat) -> Option<
    Seq<Option<(usize, usize)>>,
> {
    match caps {
        Some(c) if spans_ok(c, len) => Some(c),
        _ => None,
    }
}

/// Where the search for the blocks that name the show stands.
pub struct NameScan {
    pub matched: Vec<Block>,
    pub last_len: Option<usize>,
    pub stopped: bool,
}

/// The search for the name, its blocks as a sequence.
pub struct NameScanView {
    pub matched: Seq<Block>,
    pub last_len: Option<usize>,
    pub stopped: bool,
}

impl View for NameScan {
    type V = NameScanView;

    open spec fn view(&self) -> NameScanView {
        NameScanView { matched: self.matched@, last_len: self.last_len, stopped: self.stopped }
    }
}

/// Takes the next block into the search, given what `FILE_INFO` matches in
/// it. Bracketed blocks before the name are passed over. A block without a
/// file word belongs to the name. A block without brackets that has a file
/// word after its start belongs to the name up to that word. The search
/// stops at the first file word once the name has a block.
pub open spec fn name_next(
    st: NameScanView,
    b: Block,
    caps: Option<Seq<Option<(usize, usize)>>>,
) -> NameScanView {
    if st.stopped || (st.matched.len() == 0 && b.delimiter is Some) {
        st
    } else {
        match usable(caps, b.len as nat) {
            Some(c) => {
                let at = c[0].unwrap().0;
                if at > 0 && b.delimiter is None {
                    NameScanView { matched: st.matched.push(b), last_len: Some(at), stopped: true }
                } else {
                    NameScanView { stopped: st.matched.len() > 0, ..st }
                }
            },
            None => NameScanView { matched: st.matched.push(b), ..st },
        }
    }
}

/// The search after the first `k` blocks.
pub open spec fn name_scan(title: Seq<u8>, blocks: Seq<Block>, k: int) -> NameScanView
    decreases k,
{
    if k <= 0 {
        NameScanView { matched: Seq::empty(), last_len: None, stopped: false }
    } else {
        let st = name_scan(title, blocks, k - 1);
        name_next(st, blocks[k - 1], regex_captures(FILE_INFO@, blocks[k - 1].text(title)))
    }
}

/// The blocks without the blocks in square brackets at their end.
pub open spec fn without_tail(blocks: Seq<Block>) -> Seq<Block>
    decreases blocks.len(),
{
    if blocks.len() > 0 && blocks.last().delimiter == Some(OPEN_BRACKET) {
        without_tail(blocks.drop_last())
    } else {
        blocks
    }
}

/// The blocks that name the show: those found, without blocks in square
/// brackets at their end, the last cut before its file word.
pub open spec fn name_end(st: NameScanView) -> Seq<Block> {
    let m = without_tail(st.matched);
    if m.len() == 0 {
        m
    } else {
        match st.last_len {
            Some(n) if n <= m.last().len => m.drop_last().push(Block { len: n, ..m.last() }),
            _ => m,
        }
    }
}

/// The blocks of a title that name the show.
pub open spec fn name_range_of(title: Seq<u8>, blocks: Seq<Block>) -> Seq<Block> {
    name_end(name_scan(title, blocks, blocks.len() as int))
}

/// Takes the next block into the search for the name, given what
/// `FILE_INFO` matches in it.
pub fn name_step(st: &mut NameScan, b: Block, caps: &Option<Captures>)
    ensures
        final(st)@ == name_next(old(st)@, b, captures_view(*caps)),
{
    if st.stopped || (st.matched.len() == 0 && b.delimiter.is_some()) {
        return ;
    }
    match caps {
        Some(c) => {
            if check_spans(c, b.len) {
                let at = c[0].unwrap().0;
                if at > 0 && b.delimiter.is_none() {
                    st.last_len = Some(at);
                    st.matched.push(b);
                    st.stopped = true;
                } else {
                    st.stopped = st.matched.len() > 0;
                }
            } else {
                st.matched.push(b);
            }
        },
        None => {
            st.matched.push(b);
        },
    }
}

/// Ends the search for the name.
pub fn name_finish(st: NameScan) -> (r: Vec<Block>)
    ensures
        r@ == name_end(st@),
{
    let mut matched = st.matched;
    loop
        invariant
            without_tail(matched@) == without_tail(st.matched@),
        ensures
            matched@ == without_tail(st.matched@),
        decreases matched.len(),
    {
        if matched.len() == 0 {
            break ;
        }
        if matched[matched.len() - 1].delimiter != Some(OPEN_BRACKET) {
            break ;
        }
        matched.pop();
    }
    if matched.len() > 0 {
        let at = matched.len() - 1;
        let last = matched[at];
        match st.last_len {
            Some(n) => {
                if n <= last.len {
                    matched.set(at, Block { pos: last.pos, delimiter: last.delimiter, start: last.start, len: n });
                    assert(matched@ =~= without_tail(st.matched@).drop_last().push(
                        Block { len: n, ..last },
                    ));
                }
            },
            None => {},
        }
    }
    matched
}

proof fn lemma_without_tail(blocks: Seq<Block>)
    ensures
        without_tail(blocks).len() <= blocks.len(),
        forall|i: int| 0 <= i < without_tail(blocks).len() ==> without_tail(blocks)[i] == blocks[i],
    decreases blocks.len(),
{
    if blocks.len() > 0 && blocks.last().delimiter == Some(OPEN_BRACKET) {
        lemma_without_tail(blocks.drop_last());
        assert forall|i: int| 0 <= i < without_tail(blocks).len() implies without_tail(blocks)[i]
            == blocks[i] by {
            assert(blocks.drop_last()[i] == blocks[i]);
        }
    }
}

/// The blocks that name the show lie in the title, one after the other.
proof fn lemma_name_end_ok(st: NameScanView, len: nat)
    requires
        blocks_ok(st.matched, len),
    ensures
        blocks_ok(name_end(st), len),
{
    lemma_without_tail(st.matched);
    let m = without_tail(st.matched);
    let r = name_end(st);
    assert forall|i: int| 0 <= i < r.len() implies (#[trigger] r[i]).start == m[i].start && r[i].len
        <= m[i].len by {}
    assert forall|i: int| 0 <= i < r.len() implies (#[trigger] r[i]).start + r[i].len <= len by {
        assert(m[i] == st.matched[i]);
    }
    assert forall|i: int, j: int| 0 <= i < j < r.len() implies (#[trigger] r[i]).start + r[i].len
        <= (#[trigger] r[j]).start by {
        assert(m[i] == st.matched[i]);
        assert(m[j] == st.matched[j]);
    }
}

/// The blocks found for the name are some of the title's blocks, in order.
pub open spec fn scan_ok(st: NameScanView, blocks: Seq<Block>, k: int, len: nat) -> bool {
    &&& blocks_ok(st.matched, len)
    &&& forall|x: int, y: int|
        0 <= x < st.matched.len() && k <= y < blocks.len() ==> (#[trigger] st.matched[x]).start
            + st.matched[x].len <= (#[trigger] blocks[y]).start
}

/// Finds the blocks of a title that name the show.
pub fn find_name_range(title: &[u8], blocks: &Vec<Block>) -> (r: Vec<Block>)
    requires
        blocks_ok(blocks@, title@.len()),
    ensures
        r@ == name_range_of(title@, blocks@),
        blocks_ok(r@, title@.len()),
{
    let mut st = NameScan { matched: Vec::new(), last_len: None, stopped: false };
    let mut k: usize = 0;
    while k < blocks.len() && !st.stopped
        invariant
            k <= blocks.len(),
            blocks_ok(blocks@, title@.len()),
            st@ == name_scan(title@, blocks@, k as int),
            scan_ok(st@, blocks@, k as int, title@.len()),
        decreases blocks.len() - k,
    {
        let b = blocks[k];
        if st.matched.len() == 0 && b.delimiter.is_some() {
        } else {
            let caps = captures(FILE_INFO, block_text(title, &b));
            name_step(&mut st, b, &caps);
        }
        k += 1;
    }
    proof {
        lemma_scan_stopped(title@, blocks@, k as int, blocks@.len() as int);
        lemma_name_end_ok(st@, title@.len());
    }
    name_finish(st)
}

/// Once the search has stopped, further blocks change nothing.
proof fn lemma_scan_stopped(title: Seq<u8>, blocks: Seq<Block>, k: int, n: int)
    requires
        0 <= k <= n,
        k == n || name_scan(title, blocks, k).stopped,
    ensures
        name_scan(title, blocks, n) == name_scan(title, blocks, k),
    decreases n - k,
{
    if k < n {
        lemma_scan_stopped(title, blocks, k, n - 1);
    }
}


/// Where the episode of a title starts: the block and the place in it; the
/// season, where the episode is written like "s01e02"; and whether the
/// episode is written as a plain number.
pub type Episode = (Option<(usize, usize)>, Option<u32>, bool);

/// The episode that a match in block `k` with the text `t` shows. Only a
/// match of `EPISODE_SUFFIX` can tell a season or a plain number.
pub open spec fn episode_in(t: Seq<u8>, k: int, c: Seq<Option<(usize, usize)>>, suffix: bool) -> Episode {
    (
        Some((k as usize, c[0].unwrap().0)),
        if suffix {
            group_number(t, c, SEASON_GROUP as int)
        } else {
            None
        },
        suffix && span_of(c, PLAIN_GROUP as int) is Some,
    )
}

/// The episode that the block with the text `t` shows: what the first of
/// the three patterns that matches finds.
pub open spec fn episode_at(t: Seq<u8>, k: int) -> Option<Episode> {
    match usable(regex_captures(EPISODE_SUFFIX@, t), t.len()) {
        Some(c) => Some(episode_in(t, k, c, true)),
        None => match usable(regex_captures(EPISODE_WORD@, t), t.len()) {
            Some(c) => Some(episode_in(t, k, c, false)),
            None => match usable(regex_captures(EPISODE_ALONE@, t), t.len()) {
                Some(c) => Some(episode_in(t, k, c, false)),
                None => None,
            },
        },
    }
}

/// The episode of the last of the first `k` blocks that shows one.
pub open spec fn episode_of(title: Seq<u8>, blocks: Seq<Block>, k: int) -> Episode
    decreases k,
{
    if k <= 0 {
        (None, None, false)
    } else {
        match episode_at(blocks[k - 1].text(title), k - 1) {
            Some(e) => e,
            None => episode_of(title, blocks, k - 1),
        }
    }
}

/// Reads the episode out of a match in block `k` with the text `t`.
pub fn episode_of_match(t: &[u8], k: usize, caps: &Option<Captures>, suffix: bool) -> (r: Option<
    Episode,
>)
    ensures
        r == match usable(captures_view(*caps), t@.len()) {
            Some(c) => Some(episode_in(t@, k as int, c, suffix)),
            None => None,
        },
{
    match caps {
        Some(c) => {
            if !check_spans(c, t.len()) {
                return None;
            }
            let offset = c[0].unwrap().0;
            let season = if suffix {
                number(t, c, SEASON_GROUP)
            } else {
                None
            };
            let plain = suffix && c.len() > PLAIN_GROUP && c[PLAIN_GROUP].is_some();
            Some((Some((k, offset)), season, plain))
        },
        None => None,
    }
}

/// Finds where the episode starts, looking at the blocks from the last to
/// the first.
pub fn find_episode(title: &[u8], blocks: &Vec<Block>) -> (r: Episode)
    requires
        blocks_ok(blocks@, title@.len()),
    ensures
        r == episode_of(title@, blocks@, blocks@.len() as int),
        r.0 matches Some(e) ==> e.0 < blocks@.len() && e.1 <= blocks@[e.0 as int].len,
{
    let mut k: usize = blocks.len();
    while k > 0
        invariant
            k <= blocks.len(),
            blocks_ok(blocks@, title@.len()),
            episode_of(title@, blocks@, blocks@.len() as int) == episode_of(
                title@,
                blocks@,
                k as int,
            ),
        decreases k,
    {
        let t = block_text(title, &blocks[k - 1]);
        let suffix = captures(EPISODE_SUFFIX, t);
        match episode_of_match(t, k - 1, &suffix, true) {
            Some(e) => {
                return e;
            },
            None => {},
        }
        let word = captures(EPISODE_WORD, t);
        match episode_of_match(t, k - 1, &word, false) {
            Some(e) => {
                return e;
            },
            None => {},
        }
        let alone = captures(EPISODE_ALONE, t);
        match episode_of_match(t, k - 1, &alone, false) {
            Some(e) => {
                return e;
            },
            None => {},
        }
        k -= 1;
    }
    (None, None, false)
}

/// The blocks before the episode. Where the episode stands in a bracketed
/// block, the blocks before that block; else those and the block up to the
/// episode, where it still holds a letter or digit.
pub open spec fn truncated(title: Seq<u8>, blocks: Seq<Block>, end: Option<(usize, usize)>) -> Seq<
    Block,
> {
    match end {
        None => blocks,
        Some(e) => {
            let b = blocks[e.0 as int];
            let cut = Block { len: e.1, ..b };
            if b.delimiter is Some || !has_key_byte(cut.text(title)) {
                blocks.take(e.0 as int)
            } else {
                blocks.take(e.0 as int).push(cut)
            }
        },
    }
}

/// Cuts the blocks off where the episode starts.
pub fn truncate_blocks(title: &[u8], blocks: &Vec<Block>, end: Option<(usize, usize)>) -> (r: Vec<
    Block,
>)
    requires
        blocks_ok(blocks@, title@.len()),
        end matches Some(e) ==> e.0 < blocks@.len() && e.1 <= blocks@[e.0 as int].len,
    ensures
        r@ == truncated(title@, blocks@, end),
        blocks_ok(r@, title@.len()),
{
    let (block_idx, pos) = match end {
        None => {
            return blocks.clone();
        },
        Some(e) => e,
    };
    let mut r: Vec<Block> = Vec::new();
    let mut i: usize = 0;
    while i < block_idx
        invariant
            i <= block_idx < blocks.len(),
            r@ == blocks@.take(i as int),
        decreases block_idx - i,
    {
        r.push(blocks[i]);
        assert(r@ =~= blocks@.take(i as int + 1));
        i += 1;
    }
    let b = blocks[block_idx];
    if b.delimiter.is_some() {
        return r;
    }
    let last = Block { pos: b.pos, delimiter: b.delimiter, start: b.start, len: pos };
    if is_not_relevant(block_text(title, &last)) {
        return r;
    }
    r.push(last);
    r
}

/// The text from the start of the first block to the end of the last.
pub open spec fn blocks_text(title: Seq<u8>, blocks: Seq<Block>) -> Seq<u8> {
    title.subrange(blocks[0].start as int, blocks.last().start + blocks.last().len)
}

/// Copies the part of the title that the blocks span.
pub fn blocks_to_string(title: &[u8], blocks: &Vec<Block>) -> (r: Vec<u8>)
    requires
        blocks@.len() > 0,
        blocks_ok(blocks@, title@.len()),
    ensures
        r@ == blocks_text(title@, blocks@),
{
    let first = blocks[0];
    let last = blocks[blocks.len() - 1];
    let n = title.len();
    assert(first.start <= last.start + last.len) by {
        if blocks@.len() > 1 {
            assert(blocks@[0].start + blocks@[0].len <= blocks@[blocks@.len() - 1].start);
        }
    }
    let part = slice_subrange(title, first.start, last.start + last.len);
    let mut r: Vec<u8> = Vec::new();
    let mut k: usize = 0;
    while k < part.len()
        invariant
            k <= part.len(),
            r@ == part@.take(k as int),
        decreases part.len() - k,
    {
        r.push(part[k]);
        assert(r@ =~= part@.take(k as int + 1));
        k += 1;
    }
    assert(part@.take(k as int) =~= part@);
    r
}

/// What a title says of the show besides its name.
pub type TitleMetadata = (Option<u32>, Option<u32>, Option<Format>);

/// The text without what was found in it, and what was found: in the text
/// itself, or else in the whole title.
pub open spec fn taken<X>(
    pre: Seq<u8>,
    here: Option<(Range<usize>, X)>,
    there: Option<(Range<usize>, X)>,
) -> (Seq<u8>, Option<X>) {
    match here {
        Some(f) => (without(pre, f.0.start as int, f.0.end as int), Some(f.1)),
        None => (
            pre,
            match there {
                Some(f) => Some(f.1),
                None => None,
            },
        ),
    }
}

/// The text before the episode without its season, year and format, and
/// these three: each taken from the text, or found in the whole title where
/// the text has none.
pub open spec fn metadata_of(title: Seq<u8>, pre: Seq<u8>) -> (Seq<u8>, TitleMetadata) {
    let (seasonless, season) = taken(pre, season_of(pre), season_of(title));
    let (yearless, year) = taken(
        seasonless,
        year_in(seasonless, regex_captures(YEAR@, seasonless)),
        year_in(title, regex_captures(YEAR@, title)),
    );
    let (bare, format) = taken(
        yearless,
        format_in(yearless, regex_captures(FORMAT@, yearless)),
        format_in(title, regex_captures(FORMAT@, title)),
    );
    (bare, (season, year, format))
}

/// Takes season, year and format out of the text before the episode.
pub fn extract_title_metadata(whole_title: &[u8], pre_episode_title: &mut Vec<u8>) -> (r:
    TitleMetadata)
    ensures
        (final(pre_episode_title)@, r) == metadata_of(whole_title@, old(pre_episode_title)@),
{
    let season = match find_season(pre_episode_title.as_slice()) {
        Some(f) => {
            remove_range(pre_episode_title, f.0.start, f.0.end);
            Some(f.1)
        },
        None => match find_season(whole_title) {
            Some(f) => Some(f.1),
            None => None,
        },
    };
    let year = match find_year(pre_episode_title.as_slice()) {
        Some(f) => {
            remove_range(pre_episode_title, f.0.start, f.0.end);
            Some(f.1)
        },
        None => match find_year(whole_title) {
            Some(f) => Some(f.1),
            None => None,
        },
    };
    let format = match find_format(pre_episode_title.as_slice()) {
        Some(f) => {
            remove_range(pre_episode_title, f.0.start, f.0.end);
            Some(f.1)
        },
        None => match find_format(whole_title) {
            Some(f) => Some(f.1),
            None => None,
        },
    };
    (season, year, format)
}


/// What a title says before any catalogue is asked: the text before the
/// episode without its season, year and format; these three, a season
/// written like "s01e02" going before one that is written out; and whether
/// the episode is a plain number.
pub struct Analysis {
    pub pre_episode_title: Vec<u8>,
    pub metadata: TitleMetadata,
    pub plain_digits: bool,
}

/// What a title says, where it names a show and has something before its
/// episode.
pub open spec fn analysis_of(title: Seq<u8>) -> Option<(Seq<u8>, TitleMetadata, bool)> {
    let n = normalized(title, separator_of(title));
    let name = name_range_of(n, blocks_of(n));
    let ep = episode_of(n, name, name.len() as int);
    let range = truncated(n, name, ep.0);
    if name.len() == 0 || range.len() == 0 {
        None
    } else {
        let (pre, meta) = metadata_of(n, blocks_text(n, range));
        Some(
            (
                pre,
                (
                    if ep.1 is Some {
                        ep.1
                    } else {
                        meta.0
                    },
                    meta.1,
                    meta.2,
                ),
                ep.2,
            ),
        )
    }
}

/// Reads a title.
pub fn analyze(title: &str) -> (r: Option<Analysis>)
    ensures
        match analysis_of(title.spec_bytes()) {
            Some(a) => r matches Some(x) && x.pre_episode_title@ == a.0 && x.metadata == a.1
                && x.plain_digits == a.2,
            None => r is None,
        },
{
    let bytes = title.as_bytes();
    let normalized_title = normalize_title(bytes, find_separator(bytes));
    let blocks = parse_blocks(normalized_title.as_slice());
    let name_range = find_name_range(normalized_title.as_slice(), &blocks);
    if name_range.len() == 0 {
        return None;
    }
    let (ep, season, plain_digits) = find_episode(normalized_title.as_slice(), &name_range);
    let range = truncate_blocks(normalized_title.as_slice(), &name_range, ep);
    if range.len() == 0 {
        return None;
    }
    let mut pre_episode_title = blocks_to_string(normalized_title.as_slice(), &range);
    let mut metadata = extract_title_metadata(normalized_title.as_slice(), &mut pre_episode_title);
    if season.is_some() {
        metadata.0 = season;
    }
    Some(Analysis { pre_episode_title, metadata, plain_digits })
}


/// No byte of the text is an ASCII capital letter.
pub open spec fn all_lower(q: Seq<u8>) -> bool {
    forall|i: int| 0 <= i < q.len() ==> lower(#[trigger] q[i]) == q[i]
}

/// The text does not hold the byte.
pub open spec fn lacks(q: Seq<u8>, b: u8) -> bool {
    forall|i: int| 0 <= i < q.len() ==> (#[trigger] q[i]) != b
}

/// The text does not begin with a space and has no two spaces in a row.
pub open spec fn spaced_once(q: Seq<u8>) -> bool {
    &&& q.len() > 0 ==> q[0] != SPACE
    &&& forall|i: int| 0 <= i && i + 1 < q.len() ==> !((#[trigger] q[i]) == SPACE && q[i + 1] == SPACE)
}

/// A separator that lower-casing cannot make: not a small ASCII letter.
pub open spec fn plain_separator(sep: u8) -> bool {
    !(0x61 <= sep && sep <= 0x7a)
}

proof fn lemma_squeezed(s: Seq<u8>, sep: u8)
    ensures
        all_lower(squeezed(s, sep)),
        plain_separator(sep) && sep != SPACE ==> lacks(squeezed(s, sep), sep),
        sep == SPACE || lacks(s, SPACE) ==> spaced_once(squeezed(s, sep)) && (squeezed(s, sep).len()
            > 0 ==> (squeezed(s, sep).last() == SPACE <==> ends_spaced(s, sep))),
    decreases s.len(),
{
    if s.len() > 0 {
        let t = s.drop_last();
        let c = s.last();
        lemma_squeezed(t, sep);
        let r = squeezed(t, sep);
        let q = squeezed(s, sep);
        assert forall|i: int| 0 <= i < q.len() implies lower(#[trigger] q[i]) == q[i] by {
            if i < r.len() {
                assert(q[i] == r[i]);
            }
        }
        if plain_separator(sep) && sep != SPACE {
            assert forall|i: int| 0 <= i < q.len() implies (#[trigger] q[i]) != sep by {
                if i < r.len() {
                    assert(q[i] == r[i]);
                }
            }
        }
        if sep == SPACE || lacks(s, SPACE) {
            assert(lacks(s, SPACE) ==> lacks(t, SPACE)) by {
                if lacks(s, SPACE) {
                    assert forall|i: int| 0 <= i < t.len() implies (#[trigger] t[i]) != SPACE by {
                        assert(t[i] == s[i]);
                    }
                }
            }
            if c != sep {
                assert(c != SPACE) by {
                    if lacks(s, SPACE) {
                        assert(s[s.len() - 1] != SPACE);
                    }
                }
                assert(lower(c) != SPACE);
            }
            assert forall|i: int| 0 <= i && i + 1 < q.len() implies !((#[trigger] q[i]) == SPACE
                && q[i + 1] == SPACE) by {
                if i + 1 < r.len() {
                    assert(q[i] == r[i]);
                    assert(q[i + 1] == r[i + 1]);
                } else if r.len() > 0 {
                    assert(q[i] == r[r.len() - 1]);
                }
            }
            if q.len() > 0 {
                assert(q[0] != SPACE) by {
                    if r.len() > 0 {
                        assert(q[0] == r[0]);
                    }
                }
            }
        }
    }
}

proof fn lemma_tidy_by_space(r: Seq<u8>)
    requires
        all_lower(r),
        spaced_once(r),
    ensures
        squeezed(r, SPACE) == r,
    decreases r.len(),
{
    if r.len() > 0 {
        let t = r.drop_last();
        assert forall|i: int| 0 <= i < t.len() implies lower(#[trigger] t[i]) == t[i] by {
            assert(t[i] == r[i]);
        }
        assert forall|i: int| 0 <= i && i + 1 < t.len() implies !((#[trigger] t[i]) == SPACE && t[i
            + 1] == SPACE) by {
            assert(t[i] == r[i]);
            assert(t[i + 1] == r[i + 1]);
        }
        if t.len() > 0 {
            assert(t[0] == r[0]);
        }
        lemma_tidy_by_space(t);
        assert(lower(r[r.len() - 1]) == r[r.len() - 1]);
        if r.last() == SPACE {
            assert(t.len() > 0);
            assert(!(r[t.len() - 1] == SPACE && r[t.len() - 1 + 1] == SPACE));
            assert(t.last() == r[t.len() - 1]);
        }
        assert(t.push(r.last()) =~= r);
    }
}

proof fn lemma_tidy_by_other(r: Seq<u8>, sep: u8)
    requires
        all_lower(r),
        lacks(r, sep),
    ensures
        squeezed(r, sep) == r,
    decreases r.len(),
{
    if r.len() > 0 {
        let t = r.drop_last();
        assert forall|i: int| 0 <= i < t.len() implies lower(#[trigger] t[i]) == t[i] && t[i]
            != sep by {
            assert(t[i] == r[i]);
        }
        lemma_tidy_by_other(t, sep);
        assert(lower(r[r.len() - 1]) == r[r.len() - 1]);
        assert(r[r.len() - 1] != sep);
        assert(t.push(r.last()) =~= r);
    }
}

/// A title in normal form stays as it is when it is normalized again with
/// the same separator.
pub proof fn lemma_normalize_is_idempotent(s: Seq<u8>, sep: u8)
    requires
        plain_separator(sep),
    ensures
        normalized(normalized(s, sep), sep) == normalized(s, sep),
{
    let q = squeezed(s, sep);
    let r = normalized(s, sep);
    lemma_squeezed(s, sep);
    assert forall|i: int| 0 <= i < r.len() implies lower(#[trigger] r[i]) == r[i] by {
        assert(r[i] == q[i]);
    }
    if sep == SPACE {
        lemma_normal_is_spaced_once(s, sep);
        lemma_tidy_by_space(r);
    } else {
        assert forall|i: int| 0 <= i < r.len() implies (#[trigger] r[i]) != sep by {
            assert(r[i] == q[i]);
        }
        lemma_tidy_by_other(r, sep);
    }
}

/// The normal form of a title whose spaces all come from separators does
/// not begin or end with a space and has no two spaces in a row.
proof fn lemma_normal_is_spaced_once(s: Seq<u8>, sep: u8)
    requires
        sep == SPACE || lacks(s, SPACE),
    ensures
        spaced_once(normalized(s, sep)),
        normalized(s, sep).len() > 0 ==> normalized(s, sep).last() != SPACE,
{
    let q = squeezed(s, sep);
    let r = normalized(s, sep);
    lemma_squeezed(s, sep);
    assert forall|i: int| 0 <= i && i + 1 < r.len() implies !((#[trigger] r[i]) == SPACE && r[i + 1]
        == SPACE) by {
        assert(r[i] == q[i]);
        assert(r[i + 1] == q[i + 1]);
    }
    if r.len() > 0 {
        assert(r[0] == q[0]);
        if ends_spaced(s, sep) {
            assert(q.last() == SPACE);
            assert(!(q[q.len() - 2] == SPACE && q[q.len() - 2 + 1] == SPACE));
            assert(r.last() == q[q.len() - 2]);
        }
    }
}

proof fn lemma_count_none(s: Seq<u8>, b: u8)
    requires
        count(s, b) == 0,
    ensures
        lacks(s, b),
    decreases s.len(),
{
    if s.len() > 0 {
        lemma_count_none(s.drop_last(), b);
        assert forall|i: int| 0 <= i < s.len() implies (#[trigger] s[i]) != b by {
            if i < s.len() - 1 {
                assert(s.drop_last()[i] == s[i]);
            }
        }
    }
}

/// A title in normal form stays as it is when it is normalized again, the
/// separator found anew, as long as the separator found in the normal form
/// is the space. (A normal form without any space, but with underscores or
/// dots, is normalized further.)
pub proof fn lemma_normalize_again(t: Seq<u8>)
    requires
        separator_of(normalized(t, separator_of(t))) == SPACE,
    ensures
        normalized(normalized(t, separator_of(t)), SPACE) == normalized(t, separator_of(t)),
{
    let sep = separator_of(t);
    let r = normalized(t, sep);
    let q = squeezed(t, sep);
    if sep != SPACE {
        lemma_count_none(t, SPACE);
    }
    lemma_squeezed(t, sep);
    lemma_normal_is_spaced_once(t, sep);
    assert forall|i: int| 0 <= i < r.len() implies lower(#[trigger] r[i]) == r[i] by {
        assert(r[i] == q[i]);
    }
    lemma_tidy_by_space(r);
}

} // verus!
