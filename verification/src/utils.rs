//! Bit tests and UTF-16 encoding of strings for wide-character system calls.

use vstd::prelude::*;
use vstd::utf8::is_scalar;

verus! {

/// Whether bit `bit` (counted from the least significant bit) of `value` is one.
pub open spec fn bit_is_set(value: u32, bit: u32) -> bool {
    (value >> bit) & 1u32 == 1u32
}

/// Returns true if the bit in position `bit` for `value` is set.
pub fn is_bit_set(value: u32, bit: u8) -> (set: bool)
    requires
        bit < 32,
    ensures
        set == bit_is_set(value, bit as u32),
{
    let b: u32 = bit as u32;
    assert((value & (1u32 << b)) != 0u32 <==> (value >> b) & 1u32 == 1u32) by (bit_vector)
        requires
            b < 32u32,
    ;
    (value & (1u32 << b)) != 0
}

/// The UTF-16 code units of one character: the code point itself below
/// 0x10000, otherwise a high surrogate followed by a low surrogate.
pub open spec fn utf16_units(c: char) -> Seq<u16> {
    let v = c as u32;
    if v < 0x10000 {
        seq![v as u16]
    } else {
        seq![(0xD800 + (v - 0x10000) / 0x400) as u16, (0xDC00 + (v - 0x10000) % 0x400) as u16]
    }
}

/// The UTF-16 encoding of a sequence of characters.
pub open spec fn utf16_encode(s: Seq<char>) -> Seq<u16>
    decreases s.len(),
{
    if s.len() == 0 {
        Seq::empty()
    } else {
        utf16_encode(s.drop_last()) + utf16_units(s.last())
    }
}

/// The NUL-terminated UTF-16 form of a string, as wide-character calls take it.
pub open spec fn wide_string(s: Seq<char>) -> Seq<u16> {
    utf16_encode(s).push(0u16)
}

/// Encoding a concatenation encodes each part in turn.
pub proof fn lemma_utf16_encode_concat(a: Seq<char>, b: Seq<char>)
    ensures
        utf16_encode(a + b) == utf16_encode(a) + utf16_encode(b),
    decreases b.len(),
{
    if b.len() == 0 {
        assert(a + b =~= a);
        assert(utf16_encode(b) =~= Seq::<u16>::empty());
        assert(utf16_encode(a) + utf16_encode(b) =~= utf16_encode(a));
    } else {
        lemma_utf16_encode_concat(a, b.drop_last());
        assert((a + b).drop_last() =~= a + b.drop_last());
        assert((a + b).last() == b.last());
        assert(utf16_encode(a) + utf16_encode(b) =~= utf16_encode(a) + utf16_encode(b.drop_last())
            + utf16_units(b.last()));
    }
}

/// Encoding peels off the first character.
pub proof fn lemma_utf16_encode_first(s: Seq<char>)
    requires
        s.len() > 0,
    ensures
        utf16_encode(s) == utf16_units(s[0]) + utf16_encode(s.drop_first()),
{
    lemma_utf16_encode_concat(seq![s[0]], s.drop_first());
    assert(seq![s[0]] + s.drop_first() =~= s);
    assert(seq![s[0]].drop_last() =~= Seq::<char>::empty());
    assert(utf16_encode(Seq::<char>::empty()) =~= Seq::<u16>::empty());
    assert(utf16_encode(seq![s[0]]) =~= utf16_units(s[0]));
}

/// A character's UTF-16 units hold a zero exactly when the character is NUL.
pub proof fn lemma_units_zero(c: char)
    ensures
        utf16_units(c).contains(0u16) <==> c == '\0',
{
    let v = c as u32;
    if v < 0x10000 {
        if utf16_units(c).contains(0u16) {
            assert(utf16_units(c)[0] == 0u16);
        }
        if c == '\0' {
            assert(utf16_units(c)[0] == 0u16);
        }
    } else {
        assert(!utf16_units(c).contains(0u16)) by {
            if utf16_units(c).contains(0u16) {
                let k = choose|k: int| 0 <= k < utf16_units(c).len() && utf16_units(c)[k] == 0u16;
                assert(k == 0 || k == 1);
            }
        }
    }
}

/// A string without NUL characters encodes to units without zeros.
pub proof fn lemma_encode_no_zero(s: Seq<char>)
    requires
        !s.contains('\0'),
    ensures
        !utf16_encode(s).contains(0u16),
    decreases s.len(),
{
    if s.len() > 0 {
        assert(!s.drop_last().contains('\0')) by {
            if s.drop_last().contains('\0') {
                let k = choose|k: int| 0 <= k < s.drop_last().len() && s.drop_last()[k] == '\0';
                assert(s[k] == '\0');
            }
        }
        lemma_encode_no_zero(s.drop_last());
        lemma_units_zero(s.last());
        let a = utf16_encode(s.drop_last());
        let b = utf16_units(s.last());
        assert(utf16_encode(s) == a + b);
        if (a + b).contains(0u16) {
            let k = choose|k: int| 0 <= k < (a + b).len() && (a + b)[k] == 0u16;
            if k < a.len() {
                assert(a[k] == 0u16);
            } else {
                assert(b[k - a.len()] == 0u16);
            }
        }
    }
}

/// The wide string of text without NUL characters holds exactly one zero
/// unit, its last.
pub proof fn lemma_wide_string_single_nul(s: Seq<char>)
    requires
        !s.contains('\0'),
    ensures
        wide_string(s).last() == 0u16,
        forall|k: int| 0 <= k < wide_string(s).len() - 1 ==> #[trigger] wide_string(s)[k] != 0u16,
{
    lemma_encode_no_zero(s);
    let e = utf16_encode(s);
    assert forall|k: int| 0 <= k < wide_string(s).len() - 1 implies #[trigger] wide_string(s)[k]
        != 0u16 by {
        assert(wide_string(s)[k] == e[k]);
        if e[k] == 0u16 {
            assert(e.contains(0u16));
        }
    }
}

/// Appends the UTF-16 code units of `c` to `out`.
fn push_utf16_units(out: &mut Vec<u16>, c: char)
    ensures
        final(out)@ == old(out)@ + utf16_units(c),
{
    let v: u32 = c as u32;
    proof {
        vstd::utf8::char_is_scalar(c);
        assert(is_scalar(v));
    }
    if v < 0x10000 {
        out.push(v as u16);
        assert(final(out)@ =~= old(out)@ + utf16_units(c)) by {
            assert(out@ =~= old(out)@ + seq![v as u16]);
        }
    } else {
        let w: u32 = v - 0x10000;
        let high: u16 = (0xD800 + w / 0x400) as u16;
        let low: u16 = (0xDC00 + w % 0x400) as u16;
        out.push(high);
        out.push(low);
        assert(out@ =~= old(out)@ + utf16_units(c));
    }
}

/// Converts a string literal to an UTF16 word array
///
/// The result is the UTF-16 encoding of `value` followed by one NUL unit.
pub fn str_to_utf16vec(value: &str) -> (wide: Vec<u16>)
    ensures
        wide@ == wide_string(value@),
{
    let n: usize = value.unicode_len();
    let mut out: Vec<u16> = Vec::new();
    let mut i: usize = 0;
    while i < n
        invariant
            n == value@.len(),
            i <= n,
            out@ == utf16_encode(value@.take(i as int)),
        decreases n - i,
    {
        let c = value.get_char(i);
        push_utf16_units(&mut out, c);
        proof {
            assert(value@.take(i + 1).drop_last() =~= value@.take(i as int));
            assert(value@.take(i + 1).last() == c);
        }
        i = i + 1;
    }
    assert(value@.take(n as int) =~= value@);
    out.push(0u16);
    out
}

} // verus!
