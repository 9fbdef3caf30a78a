//! Byte-level text rules shared by the index and the analyzer.

use vstd::prelude::*;
use vstd::string::*;
use vstd::utf8::*;

verus! {

/// The index alphabet: lower-case ASCII letters and digits.
pub open spec fn is_key_byte(b: u8) -> bool {
    (0x61 <= b && b <= 0x7a) || (0x30 <= b && b <= 0x39)
}

/// ASCII lower-casing of one byte; every other byte is left alone.
pub open spec fn lower(b: u8) -> u8 {
    if 0x41 <= b && b <= 0x5a {
        (b + 32) as u8
    } else {
        b
    }
}

/// The search key of a text: its bytes lower-cased, then reduced to the
/// index alphabet, in their order.
pub open spec fn fold_key(s: Seq<u8>) -> Seq<u8>
    decreases s.len(),
{
    if s.len() == 0 {
        Seq::empty()
    } else {
        let rest = fold_key(s.drop_last());
        if is_key_byte(lower(s.last())) {
            rest.push(lower(s.last()))
        } else {
            rest
        }
    }
}

/// Every byte of `s` belongs to the index alphabet.
pub open spec fn all_key_bytes(s: Seq<u8>) -> bool {
    forall|i: int| 0 <= i < s.len() ==> is_key_byte(#[trigger] s[i])
}

/// Tells whether a byte belongs to the index alphabet.
pub fn is_key(b: u8) -> (r: bool)
    ensures
        r == is_key_byte(b),
{
    (0x61 <= b && b <= 0x7a) || (0x30 <= b && b <= 0x39)
}

/// Makes an ASCII capital letter small.
pub fn to_lower(b: u8) -> (r: u8)
    ensures
        r == lower(b),
{
    if 0x41 <= b && b <= 0x5a {
        b + 32
    } else {
        b
    }
}

/// A search key holds only bytes of the index alphabet.
pub proof fn lemma_fold_key_bytes(s: Seq<u8>)
    ensures
        all_key_bytes(fold_key(s)),
        fold_key(s).len() <= s.len(),
    decreases s.len(),
{
    if s.len() > 0 {
        lemma_fold_key_bytes(s.drop_last());
    }
}

/// Folding a text that is already a search key changes nothing.
pub proof fn lemma_fold_key_fixed(s: Seq<u8>)
    requires
        all_key_bytes(s),
    ensures
        fold_key(s) == s,
    decreases s.len(),
{
    if s.len() > 0 {
        lemma_fold_key_fixed(s.drop_last());
        assert(is_key_byte(s.last()));
        assert(s.drop_last().push(s.last()) =~= s);
    }
}

/// Folding is idempotent.
pub proof fn lemma_fold_key_idempotent(s: Seq<u8>)
    ensures
        fold_key(fold_key(s)) == fold_key(s),
{
    lemma_fold_key_bytes(s);
    lemma_fold_key_fixed(fold_key(s));
}

/// Folding follows the text byte by byte.
pub proof fn lemma_fold_key_step(s: Seq<u8>, k: int)
    requires
        0 <= k < s.len(),
    ensures
        fold_key(s.take(k + 1)) == if is_key_byte(lower(s[k])) {
            fold_key(s.take(k)).push(lower(s[k]))
        } else {
            fold_key(s.take(k))
        },
{
    assert(s.take(k + 1).drop_last() =~= s.take(k));
}

/// The key of a prefix of a text is a prefix of the text's key.
pub proof fn lemma_fold_key_prefix(s: Seq<u8>, k: int)
    requires
        0 <= k <= s.len(),
    ensures
        fold_key(s.take(k)).is_prefix_of(fold_key(s)),
    decreases s.len() - k,
{
    if k == s.len() {
        assert(s.take(k) =~= s);
    } else {
        lemma_fold_key_step(s, k);
        lemma_fold_key_prefix(s, k + 1);
        let a = fold_key(s.take(k));
        let b = fold_key(s.take(k + 1));
        let c = fold_key(s);
        assert(a =~= b.subrange(0, a.len() as int));
        assert(a =~= c.subrange(0, a.len() as int));
    }
}

/// Computes the search key of a text.
pub fn fold(s: &[u8]) -> (r: Vec<u8>)
    ensures
        r@ == fold_key(s@),
{
    let mut r: Vec<u8> = Vec::new();
    let mut k: usize = 0;
    while k < s.len()
        invariant
            k <= s.len(),
            r@ == fold_key(s@.take(k as int)),
        decreases s.len() - k,
    {
        proof {
            lemma_fold_key_step(s@, k as int);
        }
        let b = to_lower(s[k]);
        if is_key(b) {
            r.push(b);
        }
        k += 1;
    }
    assert(s@.take(k as int) =~= s@);
    r
}


/// An ASCII decimal digit.
pub open spec fn is_digit(b: u8) -> bool {
    0x30 <= b && b <= 0x39
}

/// Every byte is an ASCII decimal digit.
pub open spec fn all_digits(s: Seq<u8>) -> bool {
    forall|i: int| 0 <= i < s.len() ==> is_digit(#[trigger] s[i])
}

/// The number that a run of decimal digits writes.
pub open spec fn digits_value(s: Seq<u8>) -> nat
    decreases s.len(),
{
    if s.len() == 0 {
        0
    } else {
        digits_value(s.drop_last()) * 10 + (s.last() - 0x30) as nat
    }
}

/// The number written by `s`, where `s` is a non-empty run of ASCII digits
/// whose number is at most `max`.
pub open spec fn decimal_in(s: Seq<u8>, max: nat) -> Option<nat> {
    if s.len() > 0 && all_digits(s) && digits_value(s) <= max {
        Some(digits_value(s))
    } else {
        None
    }
}

/// A longer run of digits does not write a smaller number.
pub proof fn lemma_digits_grow(s: Seq<u8>, k: int)
    requires
        0 <= k <= s.len(),
        all_digits(s),
    ensures
        digits_value(s.take(k)) <= digits_value(s),
    decreases s.len() - k,
{
    if k == s.len() {
        assert(s.take(k) =~= s);
    } else {
        lemma_digits_grow(s, k + 1);
        assert(s.take(k + 1).drop_last() =~= s.take(k));
        assert(is_digit(s[k]));
    }
}

/// Reads a decimal number of at most `max` from a run of ASCII digits.
pub fn parse_decimal(s: &[u8], max: u64) -> (r: Option<u64>)
    ensures
        decimal_in(s@, max as nat) matches Some(v) ==> r == Some(v as u64),
        decimal_in(s@, max as nat) is None ==> r is None,
{
    if s.len() == 0 {
        return None;
    }
    let mut acc: u128 = 0;
    let mut k: usize = 0;
    assert(s@.take(0) =~= Seq::<u8>::empty());
    while k < s.len()
        invariant
            k <= s.len(),
            all_digits(s@.take(k as int)),
            acc == digits_value(s@.take(k as int)),
            acc <= max,
        decreases s.len() - k,
    {
        let b = s[k];
        proof {
            assert(s@.take(k as int + 1).drop_last() =~= s@.take(k as int));
        }
        if !(0x30 <= b && b <= 0x39) {
            proof {
                if all_digits(s@) {
                    assert(is_digit(s@[k as int]));
                }
            }
            return None;
        }
        let next: u128 = acc * 10 + (b - 0x30) as u128;
        proof {
            assert forall|i: int| 0 <= i < k + 1 implies is_digit(
                #[trigger] s@.take(k as int + 1)[i],
            ) by {
                if i < k {
                    assert(s@.take(k as int)[i] == s@[i]);
                }
            }
        }
        if next > max as u128 {
            proof {
                if all_digits(s@) {
                    lemma_digits_grow(s@, k as int + 1);
                }
            }
            return None;
        }
        acc = next;
        k += 1;
    }
    assert(s@.take(k as int) =~= s@);
    Some(acc as u64)
}

/// The text with every ASCII capital letter made small.
pub open spec fn lowered(s: Seq<u8>) -> Seq<u8> {
    Seq::new(s.len(), |i: int| lower(s[i]))
}

/// Makes every ASCII capital letter of a text small.
pub fn to_lowercase(s: &[u8]) -> (r: Vec<u8>)
    ensures
        r@ == lowered(s@),
{
    let mut r: Vec<u8> = Vec::new();
    let mut k: usize = 0;
    while k < s.len()
        invariant
            k <= s.len(),
            r@ == lowered(s@.take(k as int)),
        decreases s.len() - k,
    {
        r.push(to_lower(s[k]));
        assert(r@ =~= lowered(s@.take(k as int + 1)));
        k += 1;
    }
    assert(s@.take(k as int) =~= s@);
    r
}

/// The text without the bytes from `start` up to `end`.
pub open spec fn without(s: Seq<u8>, start: int, end: int) -> Seq<u8> {
    s.subrange(0, start) + s.subrange(end, s.len() as int)
}

/// Cuts the bytes from `start` up to `end` out of the text.
pub fn remove_range(v: &mut Vec<u8>, start: usize, end: usize)
    requires
        start <= end <= old(v).len(),
    ensures
        final(v)@ == without(old(v)@, start as int, end as int),
{
    let mut r: Vec<u8> = Vec::new();
    let mut k: usize = 0;
    while k < start
        invariant
            k <= start <= end <= v.len(),
            r@ == v@.subrange(0, k as int),
        decreases start - k,
    {
        r.push(v[k]);
        assert(r@ =~= v@.subrange(0, k as int + 1));
        k += 1;
    }
    let mut k: usize = end;
    while k < v.len()
        invariant
            start <= end <= k <= v.len(),
            r@ == v@.subrange(0, start as int) + v@.subrange(end as int, k as int),
        decreases v.len() - k,
    {
        r.push(v[k]);
        assert(r@ =~= v@.subrange(0, start as int) + v@.subrange(end as int, k as int + 1));
        k += 1;
    }
    *v = r;
}

/// Some byte of the text belongs to the index alphabet.
pub open spec fn has_key_byte(s: Seq<u8>) -> bool {
    exists|i: int| 0 <= i < s.len() && is_key_byte(#[trigger] s[i])
}

/// Two byte texts are the same.
pub fn bytes_eq(a: &[u8], b: &[u8]) -> (r: bool)
    ensures
        r == (a@ == b@),
{
    if a.len() != b.len() {
        return false;
    }
    let mut k: usize = 0;
    while k < a.len()
        invariant
            k <= a.len(),
            a.len() == b.len(),
            a@.take(k as int) == b@.take(k as int),
        decreases a.len() - k,
    {
        if a[k] != b[k] {
            return false;
        }
        assert(a@.take(k as int + 1) =~= a@.take(k as int).push(a@[k as int]));
        assert(b@.take(k as int + 1) =~= b@.take(k as int).push(b@[k as int]));
        k += 1;
    }
    assert(a@.take(k as int) =~= a@);
    assert(b@.take(k as int) =~= b@);
    true
}


/// Every byte is an ASCII character.
pub open spec fn all_ascii(s: Seq<u8>) -> bool {
    forall|i: int| 0 <= i < s.len() ==> (#[trigger] s[i]) < 0x80
}

/// The characters of a text of ASCII bytes.
pub open spec fn ascii_text(s: Seq<u8>) -> Seq<char> {
    Seq::new(s.len(), |i: int| s[i] as char)
}

/// ASCII bytes are the UTF-8 encoding of their characters.
pub proof fn lemma_ascii_text(s: Seq<u8>)
    requires
        all_ascii(s),
    ensures
        encode_utf8(ascii_text(s)) == s,
        decode_utf8(s) == ascii_text(s),
        valid_utf8(s),
        is_ascii_chars(ascii_text(s)),
{
    let c = ascii_text(s);
    assert(is_ascii_chars(c)) by {
        assert forall|i: int| 0 <= i < c.len() implies '\0' <= #[trigger] c[i] <= '\u{7f}' by {
            assert(s[i] < 0x80);
        }
    }
    is_ascii_chars_encode_utf8(c);
    assert(encode_utf8(c) =~= s) by {
        assert forall|i: int| 0 <= i < s.len() implies encode_utf8(c)[i] == s[i] by {
            assert(c[i] as u8 == encode_utf8(c)[i]);
            assert(s[i] < 0x80);
        }
    }
    encode_utf8_decode_utf8(c);
    encode_utf8_valid_utf8(c);
}

/// Two texts with the same bytes have the same characters.
pub proof fn lemma_same_bytes(a: Seq<char>, b: Seq<char>)
    requires
        encode_utf8(a) == encode_utf8(b),
    ensures
        a == b,
{
    encode_utf8_decode_utf8(a);
    encode_utf8_decode_utf8(b);
}

/// `String::from_utf8`: the text that the bytes encode, where they are
/// valid UTF-8, and `None` where they are not.
#[verifier::external_body]
fn string_from_utf8(bytes: Vec<u8>) -> (r: Option<String>)
    ensures
        r is Some <==> valid_utf8(bytes@),
        r matches Some(s) ==> s@ == decode_utf8(bytes@),
{
    String::from_utf8(bytes).ok()
}

/// Makes a text of ASCII bytes.
pub fn ascii_string(bytes: Vec<u8>) -> (r: String)
    requires
        all_ascii(bytes@),
    ensures
        r@ == ascii_text(bytes@),
        encode_utf8(r@) == bytes@,
{
    proof {
        lemma_ascii_text(bytes@);
    }
    match string_from_utf8(bytes) {
        Some(s) => s,
        None => String::new(),
    }
}

/// Two texts are the same.
pub fn str_eq(a: &str, b: &str) -> (r: bool)
    ensures
        r == (a@ == b@),
{
    let r = bytes_eq(a.as_bytes(), b.as_bytes());
    proof {
        if r {
            lemma_same_bytes(a@, b@);
        }
    }
    r
}

/// The decimal digits of a number.
pub open spec fn decimal_bytes(n: nat) -> Seq<u8>
    decreases n,
{
    if n < 10 {
        seq![(0x30 + n) as u8]
    } else {
        decimal_bytes(n / 10).push((0x30 + n % 10) as u8)
    }
}

/// The digits of a number are ASCII digits that write the number.
pub proof fn lemma_decimal_bytes(n: nat)
    ensures
        all_digits(decimal_bytes(n)),
        all_ascii(decimal_bytes(n)),
        decimal_bytes(n).len() > 0,
        digits_value(decimal_bytes(n)) == n,
    decreases n,
{
    if n < 10 {
        let s = decimal_bytes(n);
        assert(s.drop_last() =~= Seq::<u8>::empty());
        assert(digits_value(s.drop_last()) == 0);
    } else {
        lemma_decimal_bytes(n / 10);
        let s = decimal_bytes(n);
        assert(s.drop_last() =~= decimal_bytes(n / 10));
    }
}

/// Appends the decimal digits of `n`.
pub fn push_decimal(v: &mut Vec<u8>, n: u64)
    ensures
        final(v)@ == old(v)@ + decimal_bytes(n as nat),
    decreases n,
{
    if n < 10 {
        v.push(0x30 + n as u8);
        assert(v@ =~= old(v)@ + decimal_bytes(n as nat));
    } else {
        push_decimal(v, n / 10);
        v.push(0x30 + (n % 10) as u8);
        assert(v@ =~= old(v)@ + decimal_bytes(n as nat));
    }
}


/// The place of the first `b` in the text; the text's length where there
/// is none.
pub open spec fn first_index(s: Seq<u8>, b: u8) -> int
    decreases s.len(),
{
    if s.len() == 0 {
        0
    } else if s[0] == b {
        0
    } else {
        1 + first_index(s.drop_first(), b)
    }
}

/// The first place of a byte is the place before which it does not stand.
pub proof fn lemma_first_index(s: Seq<u8>, b: u8, k: int)
    requires
        0 <= k <= s.len(),
        forall|j: int| 0 <= j < k ==> s[j] != b,
        k == s.len() || s[k] == b,
    ensures
        first_index(s, b) == k,
    decreases s.len(),
{
    if s.len() > 0 && k > 0 {
        assert(s[0] != b);
        let rest = s.drop_first();
        assert forall|j: int| 0 <= j < k - 1 implies rest[j] != b by {
            assert(rest[j] == s[j + 1]);
        }
        lemma_first_index(rest, b, k - 1);
    }
}

/// Finds the first `b` in the text.
pub fn find_byte(s: &[u8], b: u8) -> (r: Option<usize>)
    ensures
        r == if first_index(s@, b) < s.len() {
            Some(first_index(s@, b) as usize)
        } else {
            None
        },
        0 <= first_index(s@, b) <= s.len(),
        r matches Some(i) ==> s@[i as int] == b,
{
    let mut k: usize = 0;
    while k < s.len()
        invariant
            k <= s.len(),
            forall|j: int| 0 <= j < k ==> s@[j] != b,
        decreases s.len() - k,
    {
        if s[k] == b {
            proof {
                lemma_first_index(s@, b, k as int);
            }
            return Some(k);
        }
        k += 1;
    }
    proof {
        lemma_first_index(s@, b, k as int);
    }
    None
}

} // verus!
