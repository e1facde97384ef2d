//! Text handling shared by the drive queries and the user-facing messages:
//! lossy UTF-16 and UTF-8 decoding, Unicode whitespace trimming and decimal
//! rendering of counts.

use vstd::prelude::*;
use vstd::utf8::{is_scalar, valid_utf8, decode_utf8};
use crate::utils::{utf16_encode, wide_string, lemma_utf16_encode_first, lemma_wide_string_single_nul};

verus! {

// ---------------------------------------------------------------------------
// Building strings
// ---------------------------------------------------------------------------

/// Appends one character to a string.
///
/// Trusted: calls `String::push`, which the standard library documents as
/// appending the given `char` to the end of the `String`.
#[verifier::external_body]
pub(crate) fn push_char(s: &mut String, c: char)
    ensures
        final(s)@ == old(s)@.push(c),
{
    s.push(c);
}

/// The scalar value with code point `v`, if there is one.
///
/// Trusted: calls `char::from_u32`, documented to return `Some` exactly when
/// `v` is a Unicode scalar value (at most 0x10FFFF and not a surrogate), and
/// `None` otherwise.
#[verifier::external_body]
fn char_from_u32(v: u32) -> (c: Option<char>)
    ensures
        is_scalar(v) ==> c == Some(v as char),
        !is_scalar(v) ==> c is None,
{
    char::from_u32(v)
}

// ---------------------------------------------------------------------------
// UTF-16 decoding
// ---------------------------------------------------------------------------

/// The character that replaces ill-formed input in lossy decoding.
pub const REPLACEMENT_CHARACTER: char = '\u{FFFD}';

pub open spec fn is_high_surrogate(u: u16) -> bool {
    0xD800 <= u <= 0xDBFF
}

pub open spec fn is_low_surrogate(u: u16) -> bool {
    0xDC00 <= u <= 0xDFFF
}

/// The code point that a high and a low surrogate stand for together.
pub open spec fn surrogate_pair_value(high: u16, low: u16) -> u32 {
    (0x10000 + (high - 0xD800) * 0x400 + (low - 0xDC00)) as u32
}

/// Lossy UTF-16 decoding: a high surrogate directly followed by a low
/// surrogate forms one character, any other surrogate becomes
/// `REPLACEMENT_CHARACTER`, and every other unit is its own character.
pub open spec fn utf16_decode_lossy(units: Seq<u16>) -> Seq<char>
    decreases units.len(),
{
    if units.len() == 0 {
        Seq::empty()
    } else if is_high_surrogate(units[0]) && units.len() > 1 && is_low_surrogate(units[1]) {
        seq![surrogate_pair_value(units[0], units[1]) as char] + utf16_decode_lossy(units.skip(2))
    } else if is_high_surrogate(units[0]) || is_low_surrogate(units[0]) {
        seq![REPLACEMENT_CHARACTER] + utf16_decode_lossy(units.skip(1))
    } else {
        seq![units[0] as char] + utf16_decode_lossy(units.skip(1))
    }
}

/// Decodes UTF-16 units into a string, replacing ill-formed surrogates with
/// `REPLACEMENT_CHARACTER`.
pub fn decode_utf16_lossy(units: &[u16]) -> (s: String)
    ensures
        s@ == utf16_decode_lossy(units@),
{
    let n: usize = units.len();
    let mut out = String::new();
    let mut i: usize = 0;
    assert(units@.skip(0) =~= units@);
    assert(out@ + utf16_decode_lossy(units@) =~= utf16_decode_lossy(units@));
    while i < n
        invariant
            n == units@.len(),
            i <= n,
            out@ + utf16_decode_lossy(units@.skip(i as int)) == utf16_decode_lossy(units@),
        decreases n - i,
    {
        let u: u16 = units[i];
        let ghost rest = units@.skip(i as int);
        if 0xD800 <= u && u <= 0xDBFF && i + 1 < n && 0xDC00 <= units[i + 1] && units[i + 1] <= 0xDFFF {
            let low: u16 = units[i + 1];
            let v: u32 = 0x10000 + (u as u32 - 0xD800) * 0x400 + (low as u32 - 0xDC00);
            assert(v == surrogate_pair_value(u, low));
            assert(is_scalar(v));
            match char_from_u32(v) {
                Some(c) => push_char(&mut out, c),
                None => {},
            }
            assert(rest.skip(2) =~= units@.skip(i + 2));
            assert(rest[1] == low);
            i = i + 2;
        } else {
            if 0xD800 <= u && u <= 0xDFFF {
                push_char(&mut out, REPLACEMENT_CHARACTER);
            } else {
                assert(is_scalar(u as u32));
                match char_from_u32(u as u32) {
                    Some(c) => push_char(&mut out, c),
                    None => {},
                }
            }
            assert(rest.skip(1) =~= units@.skip(i + 1));
            i = i + 1;
        }
    }
    assert(units@.skip(n as int) =~= Seq::<u16>::empty());
    assert(out@ + Seq::<char>::empty() =~= out@);
    out
}

/// Units that are not surrogates decode one character per unit, each with
/// the unit's code.
pub proof fn lemma_decode_plain_units(units: Seq<u16>)
    requires
        forall|k: int| 0 <= k < units.len() ==> !(0xD800 <= #[trigger] units[k] && units[k] <= 0xDFFF),
    ensures
        utf16_decode_lossy(units).len() == units.len(),
        forall|k: int| 0 <= k < units.len() ==> (#[trigger] utf16_decode_lossy(units)[k]) as u32
            == units[k],
    decreases units.len(),
{
    if units.len() > 0 {
        let rest = units.skip(1);
        assert forall|k: int| 0 <= k < rest.len() implies !(0xD800 <= #[trigger] rest[k] && rest[k]
            <= 0xDFFF) by {
            assert(rest[k] == units[k + 1]);
        }
        lemma_decode_plain_units(rest);
        let d = utf16_decode_lossy(units);
        assert(d == seq![units[0] as char] + utf16_decode_lossy(rest));
        assert forall|k: int| 0 <= k < units.len() implies (#[trigger] d[k]) as u32 == units[k] by {
            if k == 0 {
                assert(is_scalar(units[0] as u32));
                vstd::utf8::char_u32_cast(units[0] as u32 as char, units[0] as u32);
            } else {
                assert(d[k] == utf16_decode_lossy(rest)[k - 1]);
                assert(rest[k - 1] == units[k]);
            }
        }
    }
}

/// Lossy decoding replaces each surrogate that is not part of a high-low
/// pair by `REPLACEMENT_CHARACTER`: a lone surrogate decodes to exactly that
/// one character.
pub proof fn lemma_lone_surrogate(u: u16)
    requires
        0xD800 <= u <= 0xDFFF,
    ensures
        utf16_decode_lossy(seq![u]) == seq![REPLACEMENT_CHARACTER],
{
    assert(seq![u].skip(1) =~= Seq::<u16>::empty());
    assert(utf16_decode_lossy(Seq::<u16>::empty()) =~= Seq::<char>::empty());
    assert(seq![REPLACEMENT_CHARACTER] + Seq::<char>::empty() =~= seq![REPLACEMENT_CHARACTER]);
}

/// Lossy decoding of a UTF-16 encoding gives back the encoded characters.
pub proof fn lemma_utf16_round_trip(s: Seq<char>)
    ensures
        utf16_decode_lossy(utf16_encode(s)) == s,
    decreases s.len(),
{
    if s.len() == 0 {
        assert(utf16_encode(s) =~= Seq::<u16>::empty());
        assert(utf16_decode_lossy(Seq::<u16>::empty()) =~= s);
    } else {
        let c = s[0];
        let v = c as u32;
        let rest = utf16_encode(s.drop_first());
        lemma_utf16_encode_first(s);
        lemma_utf16_round_trip(s.drop_first());
        vstd::utf8::char_is_scalar(c);
        let e = utf16_encode(s);
        if v < 0x10000 {
            assert(e =~= seq![v as u16] + rest);
            assert(e.skip(1) =~= rest);
            assert((v as u16) as u32 == v);
            vstd::utf8::char_u32_cast(c, v);
            assert(((v as u16) as char) == c);
        } else {
            let w = (v - 0x10000) as int;
            let high = (0xD800 + w / 0x400) as u16;
            let low = (0xDC00 + w % 0x400) as u16;
            assert(e =~= seq![high, low] + rest);
            assert(e.skip(2) =~= rest);
            assert(0x10000 + (w / 0x400) * 0x400 + w % 0x400 == v) by (nonlinear_arith)
                requires
                    w == v - 0x10000,
                    w >= 0,
            ;
            assert(surrogate_pair_value(high, low) == v);
            vstd::utf8::char_u32_cast(c, v);
        }
        assert(utf16_decode_lossy(e) =~= s);
    }
}

/// Strict UTF-16 decoding: None when a surrogate is not part of a
/// high-low pair, else the characters.
pub open spec fn utf16_decode_strict(units: Seq<u16>) -> Option<Seq<char>>
    decreases units.len(),
{
    if units.len() == 0 {
        Some(Seq::empty())
    } else if is_high_surrogate(units[0]) && units.len() > 1 && is_low_surrogate(units[1]) {
        match utf16_decode_strict(units.skip(2)) {
            Some(rest) => Some(seq![surrogate_pair_value(units[0], units[1]) as char] + rest),
            None => None,
        }
    } else if is_high_surrogate(units[0]) || is_low_surrogate(units[0]) {
        None
    } else {
        match utf16_decode_strict(units.skip(1)) {
            Some(rest) => Some(seq![units[0] as char] + rest),
            None => None,
        }
    }
}

/// The UTF-16 encoding of any text is well formed: it decodes strictly, with
/// no unpaired surrogate, back to the text.
pub proof fn lemma_utf16_strict_round_trip(s: Seq<char>)
    ensures
        utf16_decode_strict(utf16_encode(s)) == Some(s),
    decreases s.len(),
{
    if s.len() == 0 {
        assert(utf16_encode(s) =~= Seq::<u16>::empty());
        assert(Seq::<char>::empty() =~= s);
    } else {
        let c = s[0];
        let v = c as u32;
        let rest = utf16_encode(s.drop_first());
        lemma_utf16_encode_first(s);
        lemma_utf16_strict_round_trip(s.drop_first());
        vstd::utf8::char_is_scalar(c);
        let e = utf16_encode(s);
        if v < 0x10000 {
            assert(e =~= seq![v as u16] + rest);
            assert(e.skip(1) =~= rest);
            vstd::utf8::char_u32_cast(c, v);
            assert(((v as u16) as char) == c);
        } else {
            let w = (v - 0x10000) as int;
            let high = (0xD800 + w / 0x400) as u16;
            let low = (0xDC00 + w % 0x400) as u16;
            assert(e =~= seq![high, low] + rest);
            assert(e.skip(2) =~= rest);
            assert(0x10000 + (w / 0x400) * 0x400 + w % 0x400 == v) by (nonlinear_arith)
                requires
                    w == v - 0x10000,
                    w >= 0,
            ;
            assert(surrogate_pair_value(high, low) == v);
            vstd::utf8::char_u32_cast(c, v);
        }
        assert(seq![c] + s.drop_first() =~= s);
    }
}

/// Text without NUL characters, written as a wide string, holds exactly one
/// zero unit, its last; the units before it decode strictly, and lossily,
/// back to the text.
pub proof fn lemma_wide_string_reads_back(s: Seq<char>)
    requires
        !s.contains('\0'),
    ensures
        wide_string(s).last() == 0u16,
        forall|k: int| 0 <= k < wide_string(s).len() - 1 ==> #[trigger] wide_string(s)[k] != 0u16,
        wide_string(s).drop_last() == utf16_encode(s),
        utf16_decode_strict(wide_string(s).drop_last()) == Some(s),
        utf16_decode_lossy(wide_string(s).drop_last()) == s,
{
    lemma_wide_string_single_nul(s);
    assert(wide_string(s).drop_last() =~= utf16_encode(s));
    lemma_utf16_strict_round_trip(s);
    lemma_utf16_round_trip(s);
}

// ---------------------------------------------------------------------------
// UTF-8 decoding
// ---------------------------------------------------------------------------

/// The characters that `String::from_utf8_lossy` makes of the given bytes.
pub uninterp spec fn utf8_decode_lossy(bytes: Seq<u8>) -> Seq<char>;

/// Decodes bytes as UTF-8, replacing invalid sequences.
///
/// Trusted: calls `String::from_utf8_lossy`. Its result is named by
/// `utf8_decode_lossy`; the documentation further states that well-formed
/// UTF-8 is returned unchanged, which the second clause states. How invalid
/// sequences are replaced is left to the name.
#[verifier::external_body]
pub(crate) fn utf8_lossy(bytes: &[u8]) -> (s: String)
    ensures
        s@ == utf8_decode_lossy(bytes@),
        valid_utf8(bytes@) ==> s@ == decode_utf8(bytes@),
{
    String::from_utf8_lossy(bytes).into_owned()
}

// ---------------------------------------------------------------------------
// Whitespace trimming
// ---------------------------------------------------------------------------

/// The Unicode `White_Space` property.
pub open spec fn is_white_space(c: char) -> bool {
    let v = c as u32;
    ||| 0x09 <= v <= 0x0D
    ||| v == 0x20
    ||| v == 0x85
    ||| v == 0xA0
    ||| v == 0x1680
    ||| 0x2000 <= v <= 0x200A
    ||| v == 0x2028
    ||| v == 0x2029
    ||| v == 0x202F
    ||| v == 0x205F
    ||| v == 0x3000
}

/// Whether `c` has the Unicode `White_Space` property.
pub fn white_space(c: char) -> (w: bool)
    ensures
        w == is_white_space(c),
{
    let v: u32 = c as u32;
    (0x09 <= v && v <= 0x0D) || v == 0x20 || v == 0x85 || v == 0xA0 || v == 0x1680 || (0x2000 <= v
        && v <= 0x200A) || v == 0x2028 || v == 0x2029 || v == 0x202F || v == 0x205F || v == 0x3000
}

/// `s` without its leading whitespace.
pub open spec fn trim_start(s: Seq<char>) -> Seq<char>
    decreases s.len(),
{
    if s.len() > 0 && is_white_space(s[0]) {
        trim_start(s.drop_first())
    } else {
        s
    }
}

/// `s` without its trailing whitespace.
pub open spec fn trim_end(s: Seq<char>) -> Seq<char>
    decreases s.len(),
{
    if s.len() > 0 && is_white_space(s.last()) {
        trim_end(s.drop_last())
    } else {
        s
    }
}

/// `s` without leading and trailing whitespace.
pub open spec fn trim(s: Seq<char>) -> Seq<char> {
    trim_end(trim_start(s))
}

/// Returns `s` with leading and trailing Unicode whitespace removed.
pub fn trim_whitespace(s: &str) -> (t: String)
    ensures
        t@ == trim(s@),
{
    let n: usize = s.unicode_len();
    let mut i: usize = 0;
    assert(s@.skip(0) =~= s@);
    while i < n && white_space(s.get_char(i))
        invariant
            n == s@.len(),
            i <= n,
            trim_start(s@) == trim_start(s@.skip(i as int)),
        decreases n - i,
    {
        assert(s@.skip(i as int).drop_first() =~= s@.skip(i + 1));
        i = i + 1;
    }
    assert(trim_start(s@) == s@.subrange(i as int, n as int)) by {
        assert(s@.skip(i as int) =~= s@.subrange(i as int, n as int));
    }
    let mut j: usize = n;
    while j > i && white_space(s.get_char(j - 1))
        invariant
            n == s@.len(),
            i <= j <= n,
            trim(s@) == trim_end(s@.subrange(i as int, j as int)),
        decreases j,
    {
        assert(s@.subrange(i as int, j as int).drop_last() =~= s@.subrange(i as int, j - 1));
        j = j - 1;
    }
    let mut t = String::new();
    let mut k: usize = i;
    while k < j
        invariant
            n == s@.len(),
            i <= k <= j <= n,
            t@ == s@.subrange(i as int, k as int),
        decreases j - k,
    {
        push_char(&mut t, s.get_char(k));
        assert(t@ =~= s@.subrange(i as int, k + 1));
        k = k + 1;
    }
    t
}

/// Trimming removes all leading whitespace.
pub proof fn lemma_trim_start_clean(s: Seq<char>)
    ensures
        trim_start(s).len() > 0 ==> !is_white_space(trim_start(s)[0]),
        trim_start(s).len() <= s.len(),
        exists|k: int| 0 <= k <= s.len() && trim_start(s) == s.skip(k),
    decreases s.len(),
{
    if s.len() > 0 && is_white_space(s[0]) {
        lemma_trim_start_clean(s.drop_first());
        let k = choose|k: int|
            0 <= k <= s.drop_first().len() && trim_start(s.drop_first()) == s.drop_first().skip(k);
        assert(s.drop_first().skip(k) =~= s.skip(k + 1));
    } else {
        assert(s.skip(0) =~= s);
    }
}

/// Trimming the end keeps a prefix, and removes all trailing whitespace.
pub proof fn lemma_trim_end_clean(s: Seq<char>)
    ensures
        trim_end(s).len() > 0 ==> !is_white_space(trim_end(s).last()),
        trim_end(s).len() <= s.len(),
        trim_end(s) == s.take(trim_end(s).len() as int),
    decreases s.len(),
{
    if s.len() > 0 && is_white_space(s.last()) {
        lemma_trim_end_clean(s.drop_last());
        let m = trim_end(s).len() as int;
        assert(s.drop_last().take(m) =~= s.take(m));
    } else {
        assert(s.take(s.len() as int) =~= s);
    }
}

/// Trimmed text neither starts nor ends with whitespace, and trimming it again
/// changes nothing.
pub proof fn lemma_trim_idempotent(s: Seq<char>)
    ensures
        trim(s).len() > 0 ==> !is_white_space(trim(s)[0]) && !is_white_space(trim(s).last()),
        trim(trim(s)) == trim(s),
{
    let a = trim_start(s);
    lemma_trim_start_clean(s);
    lemma_trim_end_clean(a);
    let t = trim_end(a);
    if t.len() > 0 {
        assert(t[0] == a[0]);
    }
    // t has no leading whitespace, so trim_start leaves it alone
    assert(trim_start(t) == t);
    // and no trailing whitespace, so trim_end leaves it alone
    assert(trim_end(t) == t);
}

/// Removing leading whitespace drops exactly the whitespace before the first
/// other character.
pub proof fn lemma_trim_start_exact(s: Seq<char>) -> (a: int)
    ensures
        0 <= a <= s.len(),
        trim_start(s) == s.skip(a),
        forall|k: int| 0 <= k < a ==> is_white_space(#[trigger] s[k]),
        a < s.len() ==> !is_white_space(s[a]),
    decreases s.len(),
{
    if s.len() > 0 && is_white_space(s[0]) {
        let a1 = lemma_trim_start_exact(s.drop_first());
        assert(s.drop_first().skip(a1) =~= s.skip(a1 + 1));
        assert forall|k: int| 0 <= k < a1 + 1 implies is_white_space(#[trigger] s[k]) by {
            if k > 0 {
                assert(s[k] == s.drop_first()[k - 1]);
            }
        }
        assert(a1 + 1 < s.len() ==> s[a1 + 1] == s.drop_first()[a1]);
        a1 + 1
    } else {
        assert(s.skip(0) =~= s);
        0
    }
}

/// Removing trailing whitespace drops exactly the whitespace after the last
/// other character.
pub proof fn lemma_trim_end_exact(s: Seq<char>) -> (b: int)
    ensures
        0 <= b <= s.len(),
        trim_end(s) == s.take(b),
        forall|k: int| b <= k < s.len() ==> is_white_space(#[trigger] s[k]),
        b > 0 ==> !is_white_space(s[b - 1]),
    decreases s.len(),
{
    if s.len() > 0 && is_white_space(s.last()) {
        let b1 = lemma_trim_end_exact(s.drop_last());
        assert(s.drop_last().take(b1) =~= s.take(b1));
        assert forall|k: int| b1 <= k < s.len() implies is_white_space(#[trigger] s[k]) by {
            if k < s.len() - 1 {
                assert(s[k] == s.drop_last()[k]);
            }
        }
        assert(b1 > 0 ==> s[b1 - 1] == s.drop_last()[b1 - 1]);
        b1
    } else {
        assert(s.take(s.len() as int) =~= s);
        s.len() as int
    }
}

/// Trimming only removes whitespace: the result is the text between the
/// leading and the trailing whitespace, which neither starts nor ends with
/// whitespace; text that consists of whitespace alone trims to nothing, and
/// text with no whitespace at either end is left unchanged.
pub proof fn lemma_trim_exact(s: Seq<char>)
    ensures
        exists|a: int, b: int|
            {
                &&& 0 <= a <= b <= s.len()
                &&& trim(s) == s.subrange(a, b)
                &&& forall|k: int| 0 <= k < a ==> is_white_space(#[trigger] s[k])
                &&& forall|k: int| b <= k < s.len() ==> is_white_space(#[trigger] s[k])
                &&& a < b ==> !is_white_space(s[a]) && !is_white_space(s[b - 1])
            },
        (s.len() == 0 || (!is_white_space(s[0]) && !is_white_space(s.last()))) ==> trim(s) == s,
{
    let a = lemma_trim_start_exact(s);
    let t = s.skip(a);
    let b1 = lemma_trim_end_exact(t);
    let b = a + b1;
    assert(t.take(b1) =~= s.subrange(a, b));
    assert forall|k: int| b <= k < s.len() implies is_white_space(#[trigger] s[k]) by {
        assert(s[k] == t[k - a]);
    }
    if a < b {
        assert(s[a] == t[0]);
        assert(s[b - 1] == t[b1 - 1]);
        if b1 > 0 && t.len() > 0 {
        }
    }
    assert(a < b ==> !is_white_space(s[a]) && !is_white_space(s[b - 1]));
    if s.len() == 0 || (!is_white_space(s[0]) && !is_white_space(s.last())) {
        if s.len() > 0 {
            assert(a == 0);
            assert(t =~= s);
            assert(b1 == s.len());
        }
        assert(s.subrange(a, b) =~= s);
    }
}

// ---------------------------------------------------------------------------
// Decimal numbers
// ---------------------------------------------------------------------------

/// The decimal digit character for `d` (below ten).
pub open spec fn digit_char(d: nat) -> char {
    ((48 + d) as u8) as char
}

/// The decimal representation of `n`, without leading zeros.
pub open spec fn decimal(n: nat) -> Seq<char>
    decreases n,
{
    if n < 10 {
        seq![digit_char(n)]
    } else {
        decimal(n / 10).push(digit_char(n % 10))
    }
}

/// Appends the decimal representation of `n` to `s`.
pub fn push_decimal(s: &mut String, n: usize)
    ensures
        final(s)@ == old(s)@ + decimal(n as nat),
    decreases n,
{
    if n >= 10 {
        push_decimal(s, n / 10);
    }
    let d: u8 = (n % 10) as u8;
    let c: char = (48u8 + d) as char;
    push_char(s, c);
    assert(final(s)@ =~= old(s)@ + decimal(n as nat));
}

/// The number that a sequence of decimal digit characters denotes.
pub open spec fn digits_value(s: Seq<char>) -> int
    decreases s.len(),
{
    if s.len() == 0 {
        0
    } else {
        digits_value(s.drop_last()) * 10 + (s.last() as u32 - 48)
    }
}

/// The decimal representation of `n` consists of digits `0` to `9` that
/// denote `n`, without a leading zero unless `n` is zero.
pub proof fn lemma_decimal_denotes(n: nat)
    ensures
        decimal(n).len() > 0,
        forall|k: int| 0 <= k < decimal(n).len() ==> '0' <= #[trigger] decimal(n)[k] <= '9',
        digits_value(decimal(n)) == n,
        n > 0 ==> decimal(n)[0] != '0',
    decreases n,
{
    if n < 10 {
        let c = digit_char(n);
        assert(((48 + n) as u8) == 48 + n);
        assert((c as u32) == 48 + n);
        assert(decimal(n).drop_last() =~= Seq::<char>::empty());
        assert(decimal(n).last() == c);
        assert(digits_value(Seq::<char>::empty()) == 0);
        assert(digits_value(decimal(n)) == digits_value(decimal(n).drop_last()) * 10 + (c as u32 - 48));
    } else {
        lemma_decimal_denotes(n / 10);
        let c = digit_char(n % 10);
        assert(((48 + n % 10) as u8) == 48 + n % 10);
        assert((c as u32) == 48 + n % 10);
        let d = decimal(n);
        assert(d.drop_last() =~= decimal(n / 10));
        assert(d[0] == decimal(n / 10)[0]);
        assert forall|k: int| 0 <= k < d.len() implies '0' <= #[trigger] d[k] <= '9' by {
            if k < d.len() - 1 {
                assert(d[k] == decimal(n / 10)[k]);
            }
        }
        assert(d.last() == c);
        assert(digits_value(d) == digits_value(decimal(n / 10)) * 10 + (c as u32 - 48));
        assert((n / 10) * 10 + n % 10 == n);
    }
}

} // verus!
