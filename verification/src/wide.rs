//! UTF-16 text as the Win32 API takes and returns it.

use vstd::prelude::*;

use crate::text::{string_of_chars, string_of_range, trim, trim_chars};

verus! {

/// The UTF-16 code units of one character.
pub open spec fn utf16_units(c: char) -> Seq<u16> {
    let u = c as u32;
    if u < 0x10000 {
        seq![u as u16]
    } else {
        seq![(0xD800 + (u - 0x10000) / 0x400) as u16, (0xDC00 + (u - 0x10000) % 0x400) as u16]
    }
}

/// The UTF-16 encoding of `s`.
pub open spec fn encode_utf16(s: Seq<char>) -> Seq<u16>
    decreases s.len(),
{
    if s.len() == 0 {
        Seq::empty()
    } else {
        utf16_units(s[0]) + encode_utf16(s.drop_first())
    }
}

proof fn lemma_encode_utf16_take_succ(s: Seq<char>, i: int)
    requires
        0 <= i < s.len(),
    ensures
        encode_utf16(s.take(i + 1)) == encode_utf16(s.take(i)) + utf16_units(s[i]),
    decreases i,
{
    if i == 0 {
        assert(s.take(1).drop_first() =~= Seq::<char>::empty());
        assert(s.take(0) =~= Seq::<char>::empty());
        assert(encode_utf16(s.take(1)) =~= utf16_units(s[0]));
    } else {
        lemma_encode_utf16_take_succ(s.drop_first(), i - 1);
        assert(s.take(i + 1).drop_first() =~= s.drop_first().take(i));
        assert(s.take(i).drop_first() =~= s.drop_first().take(i - 1));
        assert(s.take(i + 1)[0] == s[0]);
        assert(s.take(i)[0] == s[0]);
        assert(encode_utf16(s.take(i + 1)) =~= encode_utf16(s.take(i)) + utf16_units(s[i]));
    }
}

/// Encodes a string as UTF-16 with a trailing NUL, for `PCWSTR` parameters.
pub fn wide(s: &str) -> (r: Vec<u16>)
    ensures
        r@ == encode_utf16(s@).push(0),
{
    let cs = crate::text::chars_of(s);
    let mut r: Vec<u16> = Vec::new();
    let mut i: usize = 0;
    assert(cs@.take(0) =~= Seq::<char>::empty());
    while i < cs.len()
        invariant
            cs@ == s@,
            i <= cs@.len(),
            r@ == encode_utf16(cs@.take(i as int)),
        decreases cs@.len() - i,
    {
        let c = cs[i];
        let u = c as u32;
        proof {
            lemma_encode_utf16_take_succ(cs@, i as int);
            vstd::utf8::char_is_scalar(c);
        }
        if u < 0x10000 {
            r.push(u as u16);
        } else {
            let v = u - 0x10000;
            r.push((0xD800 + v / 0x400) as u16);
            r.push((0xDC00 + v % 0x400) as u16);
        }
        i = i + 1;
        assert(r@ =~= encode_utf16(cs@.take(i as int)));
    }
    assert(cs@.take(cs@.len() as int) =~= cs@);
    r.push(0);
    r
}

/// The character of a Unicode scalar value.
///
/// Trusted: wraps `char::from_u32`, which std documents as returning the
/// `char` whose value is `u` when `u` is a Unicode scalar value, and `None`
/// otherwise.
#[verifier::external_body]
fn char_from_u32(u: u32) -> (r: Option<char>)
    ensures
        match r {
            Some(c) => vstd::utf8::is_scalar(u) && c as u32 == u,
            None => !vstd::utf8::is_scalar(u),
        },
{
    char::from_u32(u)
}

/// Decodes UTF-16, replacing each unpaired surrogate by U+FFFD, as
/// `String::from_utf16_lossy` does.
pub open spec fn decode_utf16_lossy(u: Seq<u16>) -> Seq<char>
    decreases u.len(),
{
    if u.len() == 0 {
        Seq::empty()
    } else if u[0] < 0xD800 || u[0] > 0xDFFF {
        seq![(u[0] as u32) as char] + decode_utf16_lossy(u.drop_first())
    } else if u[0] <= 0xDBFF && u.len() >= 2 && 0xDC00 <= u[1] <= 0xDFFF {
        seq![(0x10000 + (u[0] - 0xD800) * 0x400 + (u[1] - 0xDC00)) as u32 as char]
            + decode_utf16_lossy(u.skip(2))
    } else {
        seq!['\u{FFFD}'] + decode_utf16_lossy(u.drop_first())
    }
}

/// The characters of UTF-16 text, with U+FFFD for unpaired surrogates.
pub fn utf16_to_chars(units: &[u16]) -> (r: Vec<char>)
    ensures
        r@ == decode_utf16_lossy(units@),
{
    let n = units.len();
    let mut r: Vec<char> = Vec::new();
    let mut i: usize = 0;
    assert(units@.skip(0) =~= units@);
    while i < n
        invariant
            n == units@.len(),
            i <= n,
            decode_utf16_lossy(units@) == r@ + decode_utf16_lossy(units@.skip(i as int)),
        decreases n - i,
    {
        let ghost rest = units@.skip(i as int);
        let ghost prev = r@;
        let a = units[i];
        assert(rest[0] == a);
        if a < 0xD800 || a > 0xDFFF {
            let c = match char_from_u32(a as u32) {
                Some(c) => c,
                None => '\u{FFFD}',
            };
            proof {
                vstd::utf8::char_u32_cast(c, a as u32);
            }
            r.push(c);
            assert(rest.drop_first() =~= units@.skip(i + 1));
            i = i + 1;
        } else if a <= 0xDBFF && i + 1 < n && 0xDC00 <= units[i + 1] && units[i + 1] <= 0xDFFF {
            let b = units[i + 1];
            assert(rest[1] == b);
            let v: u32 = 0x10000 + (a as u32 - 0xD800) * 0x400 + (b as u32 - 0xDC00);
            let c = match char_from_u32(v) {
                Some(c) => c,
                None => '\u{FFFD}',
            };
            proof {
                vstd::utf8::char_u32_cast(c, v);
            }
            r.push(c);
            assert(rest.skip(2) =~= units@.skip(i + 2));
            i = i + 2;
        } else {
            r.push('\u{FFFD}');
            assert(rest.drop_first() =~= units@.skip(i + 1));
            i = i + 1;
        }
        assert(r@ + decode_utf16_lossy(units@.skip(i as int)) =~= prev + decode_utf16_lossy(rest));
    }
    assert(units@.skip(n as int) =~= Seq::<u16>::empty());
    assert(r@ + Seq::<char>::empty() =~= r@);
    r
}

/// Decodes UTF-16 text into a string, with U+FFFD for unpaired surrogates.
pub fn utf16_to_string(units: &[u16]) -> (r: String)
    ensures
        r@ == decode_utf16_lossy(units@),
{
    let cs = utf16_to_chars(units);
    string_of_chars(cs.as_slice())
}

/// `s` without its trailing NUL characters.
pub open spec fn trim_trailing_nuls(s: Seq<char>) -> Seq<char>
    decreases s.len(),
{
    if s.len() > 0 && s.last() == '\0' {
        trim_trailing_nuls(s.drop_last())
    } else {
        s
    }
}

/// The little-endian 16-bit units of `data`, ignoring an odd last byte.
pub open spec fn le_units(data: Seq<u8>) -> Seq<u16> {
    Seq::new(data.len() / 2, |i: int| (data[2 * i] as int + 256 * data[2 * i + 1] as int) as u16)
}

/// The string held by a `REG_SZ` registry value: its bytes read as
/// little-endian UTF-16, without trailing NULs.
pub fn reg_sz_value(data: &[u8]) -> (r: String)
    ensures
        r@ == trim_trailing_nuls(decode_utf16_lossy(le_units(data@))),
{
    let dn = data.len();
    let n = dn / 2;
    let mut units: Vec<u16> = Vec::new();
    let mut i: usize = 0;
    while i < n
        invariant
            dn == data@.len(),
            n == data@.len() / 2,
            i <= n,
            units@ == le_units(data@).take(i as int),
        decreases n - i,
    {
        let lo = data[2 * i] as u16;
        let hi = data[2 * i + 1] as u16;
        units.push(lo + 256 * hi);
        i = i + 1;
        assert(units@ =~= le_units(data@).take(i as int));
    }
    assert(units@ =~= le_units(data@));
    let cs = utf16_to_chars(units.as_slice());
    let mut end = cs.len();
    assert(cs@.take(end as int) =~= cs@);
    while end > 0 && cs[end - 1] == '\0'
        invariant
            end <= cs@.len(),
            trim_trailing_nuls(cs@) == trim_trailing_nuls(cs@.take(end as int)),
        decreases end,
    {
        assert(cs@.take(end as int).drop_last() =~= cs@.take(end - 1));
        end = end - 1;
    }
    assert(trim_trailing_nuls(cs@.take(end as int)) == cs@.take(end as int)) by {
        if end > 0 {
            assert(cs@.take(end as int).last() == cs@[end - 1]);
        }
    }
    assert(cs@.take(end as int) =~= cs@.subrange(0, end as int));
    string_of_range(&cs, 0, end)
}

/// The text of a version resource string: UTF-16 without surrounding
/// whitespace.
pub fn version_text(units: &[u16]) -> (r: String)
    ensures
        r@ == trim(decode_utf16_lossy(units@)),
{
    let cs = utf16_to_chars(units);
    let t = trim_chars(cs.as_slice());
    string_of_chars(t.as_slice())
}

} // verus!
