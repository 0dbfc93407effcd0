//! The text of a plugin manifest, in whatever encoding it comes.
use vstd::prelude::*;
use vstd::utf8::*;
use crate::json;
use crate::json::{merge, parse_json, Json, JsonView};
use crate::text;
use crate::text::{trim_start_char, utf8_text};

verus! {

/// Why the bytes of a manifest are no text.
#[derive(Clone, Copy, PartialEq, Eq, Structural, Debug)]
pub enum ManifestTextError {
    /// The manifest is in a binary format of its vendor.
    Protected,
    /// What follows the byte order mark is no UTF-8.
    InvalidUtf8,
    OddUtf16Length,
    InvalidUtf16,
    InvalidUtf32Length,
    InvalidCodepoint,
    UnsupportedEncoding,
}

/// `n` is the code point of a character.
pub open spec fn is_code_point(n: u32) -> bool {
    n <= 0xd7ff || 0xe000 <= n <= 0x10ffff
}

/// `char::from_u32`: the character with a code point, where there is one.
pub assume_specification[ char::from_u32 ](i: u32) -> (r: Option<char>)
    ensures
        r is Some <==> is_code_point(i),
        r matches Some(c) ==> c as u32 == i,
;

// ---------------------------------------------------------------------------
// UTF-16
// ---------------------------------------------------------------------------

/// The character that a pair of surrogates stands for.
pub open spec fn surrogate_pair(hi: u16, lo: u16) -> u32 {
    (0x10000 + (hi - 0xd800) * 0x400 + (lo - 0xdc00)) as u32
}

/// The text that 16-bit units stand for, where each surrogate has its partner.
pub open spec fn utf16_decoded(u: Seq<u16>) -> Option<Seq<char>>
    decreases u.len(),
{
    if u.len() == 0 {
        Some(Seq::empty())
    } else if u[0] < 0xd800 || u[0] > 0xdfff {
        match utf16_decoded(u.drop_first()) {
            Some(rest) => Some(seq![u[0] as char] + rest),
            None => None,
        }
    } else if u[0] <= 0xdbff && u.len() > 1 && 0xdc00 <= u[1] <= 0xdfff {
        match utf16_decoded(u.skip(2)) {
            Some(rest) => Some(seq![surrogate_pair(u[0], u[1]) as char] + rest),
            None => None,
        }
    } else {
        None
    }
}

/// The text that 16-bit units stand for.
pub fn decode_units(u: &Vec<u16>) -> (r: Option<String>)
    ensures
        text::opt_text(r) == utf16_decoded(u@),
{
    let mut out = String::new();
    let mut i: usize = 0;
    assert(u@.skip(0) =~= u@);
    while i < u.len()
        invariant
            i <= u@.len(),
            match utf16_decoded(u@.skip(i as int)) {
                Some(rest) => utf16_decoded(u@) == Some(out@ + rest),
                None => utf16_decoded(u@) is None,
            },
        decreases u@.len() - i,
    {
        let ghost rest = u@.skip(i as int);
        let ghost before = out@;
        let a = u[i];
        assert(rest[0] == a);
        if a < 0xd800 || a > 0xdfff {
            match char::from_u32(a as u32) {
                Some(c) => {
                    out.push(c);
                    assert(rest.drop_first() =~= u@.skip(i + 1));
                    proof {
                        char_u32_cast(c, a as u32);
                    }
                    assert(c == a as char);
                    assert forall|t: Seq<char>| #[trigger] (before + (seq![c] + t)) == out@ + t by {
                        assert(before + (seq![c] + t) =~= out@ + t);
                    }
                },
                None => {},
            }
            i = i + 1;
        } else {
            if a > 0xdbff || u.len() - i <= 1 {
                return None;
            }
            let b = u[i + 1];
            assert(rest[1] == b);
            if b < 0xdc00 || b > 0xdfff {
                return None;
            }
            let n: u32 = 0x10000u32 + (a as u32 - 0xd800u32) * 0x400u32 + (b as u32 - 0xdc00u32);
            assert(n == surrogate_pair(a, b));
            match char::from_u32(n) {
                Some(c) => {
                    out.push(c);
                    assert(rest.skip(2) =~= u@.skip(i + 2));
                    proof {
                        char_u32_cast(c, n);
                    }
                    assert(c == n as char);
                    assert forall|t: Seq<char>| #[trigger] (before + (seq![c] + t)) == out@ + t by {
                        assert(before + (seq![c] + t) =~= out@ + t);
                    }
                },
                None => {},
            }
            i = i + 2;
        }
    }
    assert(u@.skip(i as int) =~= Seq::<u16>::empty());
    assert(out@ + Seq::<char>::empty() =~= out@);
    Some(out)
}

/// The 16-bit units of bytes, two each.
pub open spec fn units_of(b: Seq<u8>, le: bool) -> Seq<u16> {
    Seq::new(
        b.len() / 2,
        |i: int|
            if le {
                (b[2 * i] + 256 * b[2 * i + 1]) as u16
            } else {
                (256 * b[2 * i] + b[2 * i + 1]) as u16
            },
    )
}

/// The text that bytes stand for in UTF-16. One NUL byte too many at the end is
/// left out.
pub open spec fn decoded_utf16(b: Seq<u8>, le: bool) -> Result<Seq<char>, ManifestTextError> {
    if b.len() % 2 != 0 && b.last() != 0 {
        Err(ManifestTextError::OddUtf16Length)
    } else {
        let even = if b.len() % 2 != 0 {
            b.drop_last()
        } else {
            b
        };
        match utf16_decoded(units_of(even, le)) {
            Some(t) => Ok(t),
            None => Err(ManifestTextError::InvalidUtf16),
        }
    }
}

/// The model of a decoded text.
pub open spec fn text_result(r: Result<String, ManifestTextError>) -> Result<
    Seq<char>,
    ManifestTextError,
> {
    match r {
        Ok(s) => Ok(s@),
        Err(e) => Err(e),
    }
}

fn units(data: &[u8], from: usize, to: usize, le: bool) -> (r: Vec<u16>)
    requires
        from <= to <= data@.len(),
        (to - from) % 2 == 0,
    ensures
        r@ == units_of(data@.subrange(from as int, to as int), le),
{
    let ghost b = data@.subrange(from as int, to as int);
    let mut out: Vec<u16> = Vec::new();
    let mut i: usize = from;
    while i < to
        invariant
            from <= i <= to <= data@.len(),
            (to - from) % 2 == 0,
            (i - from) % 2 == 0,
            b == data@.subrange(from as int, to as int),
            out@.len() == (i - from) / 2,
            forall|k: int| 0 <= k < out@.len() ==> #[trigger] out@[k] == units_of(b, le)[k],
        decreases to - i,
    {
        let x = data[i] as u16;
        let y = data[i + 1] as u16;
        let ghost k = ((i - from) / 2) as int;
        assert(b[2 * k] == data@[i as int]);
        assert(b[2 * k + 1] == data@[i + 1]);
        let v: u16 = if le {
            x + 256 * y
        } else {
            256 * x + y
        };
        out.push(v);
        assert(v == units_of(b, le)[k]);
        i = i + 2;
    }
    assert(out@ =~= units_of(b, le));
    out
}

/// The text that `data[from..]` stands for in UTF-16.
pub fn decode_utf16(data: &[u8], from: usize, le: bool) -> (r: Result<String, ManifestTextError>)
    requires
        from <= data@.len(),
    ensures
        text_result(r) == decoded_utf16(data@.skip(from as int), le),
{
    let ghost b = data@.skip(from as int);
    let mut to: usize = data.len();
    if (to - from) % 2 != 0 {
        assert(b.last() == data@[to - 1]);
        if data[to - 1] == 0 {
            to = to - 1;
            assert(b.drop_last() =~= data@.subrange(from as int, to as int));
        } else {
            return Err(ManifestTextError::OddUtf16Length);
        }
    } else {
        assert(b =~= data@.subrange(from as int, to as int));
    }
    let u = units(data, from, to, le);
    match decode_units(&u) {
        Some(s) => Ok(s),
        None => Err(ManifestTextError::InvalidUtf16),
    }
}

// ---------------------------------------------------------------------------
// UTF-32
// ---------------------------------------------------------------------------

/// The bytes without NUL bytes at the end, as far as is needed for their number
/// to be a multiple of four.
pub open spec fn without_padding(b: Seq<u8>) -> Seq<u8>
    decreases b.len(),
{
    if b.len() % 4 != 0 && b.last() == 0 {
        without_padding(b.drop_last())
    } else {
        b
    }
}

/// The code point in the four bytes at `at`.
pub open spec fn code_point_at(b: Seq<u8>, at: int, le: bool) -> u32 {
    if le {
        (b[at] + 256 * b[at + 1] + 65536 * b[at + 2] + 16777216 * b[at + 3]) as u32
    } else {
        (16777216 * b[at] + 65536 * b[at + 1] + 256 * b[at + 2] + b[at + 3]) as u32
    }
}

/// Every code point of the bytes is that of a character.
pub open spec fn all_code_points(b: Seq<u8>, le: bool) -> bool {
    forall|i: int|
        0 <= i < b.len() as int / 4 ==> is_code_point(#[trigger] code_point_at(b, 4 * i, le))
}

/// The text that bytes stand for in UTF-32.
pub open spec fn decoded_utf32(b: Seq<u8>, le: bool) -> Result<Seq<char>, ManifestTextError> {
    let d = without_padding(b);
    if d.len() % 4 != 0 {
        Err(ManifestTextError::InvalidUtf32Length)
    } else if all_code_points(d, le) {
        Ok(Seq::new((d.len() / 4) as nat, |i: int| code_point_at(d, 4 * i, le) as char))
    } else {
        Err(ManifestTextError::InvalidCodepoint)
    }
}

fn code_point(data: &[u8], at: usize, le: bool) -> (r: u32)
    requires
        at + 4 <= data@.len(),
    ensures
        r == code_point_at(data@, at as int, le),
{
    let a = data[at] as u32;
    let b = data[at + 1] as u32;
    let c = data[at + 2] as u32;
    let d = data[at + 3] as u32;
    if le {
        a + 256 * b + 65536 * c + 16777216 * d
    } else {
        16777216 * a + 65536 * b + 256 * c + d
    }
}

/// The text that `data[from..]` stands for in UTF-32.
pub fn decode_utf32(data: &[u8], from: usize, le: bool) -> (r: Result<String, ManifestTextError>)
    requires
        from <= data@.len(),
    ensures
        text_result(r) == decoded_utf32(data@.skip(from as int), le),
{
    let ghost b = data@.skip(from as int);
    let mut to: usize = data.len();
    assert(b =~= data@.subrange(from as int, to as int));
    while to > from && (to - from) % 4 != 0 && data[to - 1] == 0
        invariant
            from <= to <= data@.len(),
            without_padding(b) == without_padding(data@.subrange(from as int, to as int)),
        decreases to,
    {
        let ghost cur = data@.subrange(from as int, to as int);
        assert(cur.last() == data@[to - 1]);
        assert(cur.drop_last() =~= data@.subrange(from as int, to - 1));
        to = to - 1;
    }
    let ghost d = data@.subrange(from as int, to as int);
    proof {
        if d.len() > 0 {
            assert(d.last() == data@[to - 1]);
        }
        assert(without_padding(b) == d);
    }
    if (to - from) % 4 != 0 {
        return Err(ManifestTextError::InvalidUtf32Length);
    }
    let mut out = String::new();
    let mut i: usize = from;
    while i < to
        invariant
            from <= i <= to <= data@.len(),
            d == data@.subrange(from as int, to as int),
            without_padding(b) == d,
            d.len() % 4 == 0,
            (i - from) % 4 == 0,
            (to - from) % 4 == 0,
            b == data@.skip(from as int),
            out@.len() == (i - from) / 4,
            forall|k: int|
                0 <= k < out@.len() ==> is_code_point(#[trigger] code_point_at(d, 4 * k, le)),
            forall|k: int|
                0 <= k < out@.len() ==> #[trigger] out@[k] == code_point_at(
                    d,
                    4 * k,
                    le,
                ) as char,
        decreases to - i,
    {
        let ghost k = ((i - from) / 4) as int;
        let n = code_point(data, i, le);
        assert(n == code_point_at(d, 4 * k, le));
        match char::from_u32(n) {
            Some(c) => {
                let ghost before = out@;
                out.push(c);
                proof {
                    char_u32_cast(c, n);
                }
                assert(c == n as char);
                assert forall|j: int| 0 <= j < out@.len() implies is_code_point(
                    #[trigger] code_point_at(d, 4 * j, le),
                ) by {
                    if j < before.len() {
                    }
                }
                assert forall|j: int| 0 <= j < out@.len() implies #[trigger] out@[j]
                    == code_point_at(d, 4 * j, le) as char by {
                    if j < before.len() {
                        assert(out@[j] == before[j]);
                    }
                }
            },
            None => {
                assert(0 <= k < d.len() as int / 4);
                assert(!is_code_point(code_point_at(d, 4 * k, le)));
                return Err(ManifestTextError::InvalidCodepoint);
            },
        }
        i = i + 4;
    }
    assert(out@.len() == d.len() / 4);
    assert(out@ =~= Seq::new((d.len() / 4) as nat, |i: int| code_point_at(d, 4 * i, le) as char));
    Ok(out)
}

// ---------------------------------------------------------------------------
// Any encoding
// ---------------------------------------------------------------------------

/// The number of NUL bytes among `b`.
pub open spec fn nul_count(b: Seq<u8>) -> nat
    decreases b.len(),
{
    if b.len() == 0 {
        0
    } else {
        nul_count(b.drop_last()) + if b.last() == 0 {
            1nat
        } else {
            0
        }
    }
}

/// The first 256 bytes.
pub open spec fn head_of(b: Seq<u8>) -> Seq<u8> {
    if b.len() > 256 {
        b.take(256)
    } else {
        b
    }
}

/// Byte `i` exists and is `x`.
pub open spec fn byte_is(b: Seq<u8>, i: int, x: u8) -> bool {
    i < b.len() && b[i] == x
}

/// Bytes that may be UTF-16: two NUL bytes near the start, or `{` as a unit.
pub open spec fn looks_utf16(b: Seq<u8>) -> bool {
    ||| nul_count(head_of(b)) >= 2
    ||| byte_is(b, 0, 0x7b) && byte_is(b, 1, 0)
    ||| byte_is(b, 0, 0) && byte_is(b, 1, 0x7b)
}

/// Bytes that may be UTF-32: eight NUL bytes near the start, or `{` as a code
/// point.
pub open spec fn looks_utf32(b: Seq<u8>) -> bool {
    ||| nul_count(head_of(b)) >= 8
    ||| byte_is(b, 0, 0x7b) && byte_is(b, 1, 0) && byte_is(b, 2, 0) && byte_is(b, 3, 0)
    ||| byte_is(b, 0, 0) && byte_is(b, 1, 0) && byte_is(b, 2, 0) && byte_is(b, 3, 0x7b)
}

/// The first of two texts that could be decoded.
pub open spec fn first_decoded(
    a: Result<Seq<char>, ManifestTextError>,
    b: Result<Seq<char>, ManifestTextError>,
) -> Option<Seq<char>> {
    match (a, b) {
        (Ok(s), _) => Some(s),
        (Err(_), Ok(s)) => Some(s),
        _ => None,
    }
}

/// The text of bytes without a byte order mark, in the encoding that they look
/// like.
pub open spec fn guessed_text(b: Seq<u8>) -> Result<Seq<char>, ManifestTextError> {
    let le32 = byte_is(b, 1, 0) && byte_is(b, 2, 0) && byte_is(b, 3, 0);
    let wide = if looks_utf32(b) {
        first_decoded(decoded_utf32(b, le32), decoded_utf32(b, !le32))
    } else {
        None
    };
    let le16 = byte_is(b, 1, 0);
    let narrow = if looks_utf16(b) {
        first_decoded(decoded_utf16(b, le16), decoded_utf16(b, !le16))
    } else {
        None
    };
    match (wide, narrow) {
        (Some(s), _) => Ok(s),
        (None, Some(s)) => Ok(s),
        (None, None) => Err(ManifestTextError::UnsupportedEncoding),
    }
}

/// The text of a manifest. A byte order mark says how it is encoded, the longest
/// that is there. Without one it is UTF-8, unless it looks like another encoding
/// and can be decoded so: text in UTF-16 or UTF-32 may be valid UTF-8 with NUL
/// characters in it, which a manifest never has.
pub open spec fn manifest_text(b: Seq<u8>) -> Result<Seq<char>, ManifestTextError> {
    if seq![0x45u8, 0x4c, 0x47, 0x41, 0x54, 0x4f].is_prefix_of(b) {
        Err(ManifestTextError::Protected)
    } else if seq![0xefu8, 0xbb, 0xbf].is_prefix_of(b) {
        if valid_utf8(b.skip(3)) {
            Ok(decode_utf8(b.skip(3)))
        } else {
            Err(ManifestTextError::InvalidUtf8)
        }
    } else if seq![0xffu8, 0xfe, 0, 0].is_prefix_of(b) {
        decoded_utf32(b.skip(4), true)
    } else if seq![0xffu8, 0xfe].is_prefix_of(b) {
        decoded_utf16(b.skip(2), true)
    } else if seq![0xfeu8, 0xff].is_prefix_of(b) {
        decoded_utf16(b.skip(2), false)
    } else if seq![0u8, 0, 0xfe, 0xff].is_prefix_of(b) {
        decoded_utf32(b.skip(4), false)
    } else if valid_utf8(b) && (!looks_utf16(b) || guessed_text(b) is Err) {
        Ok(decode_utf8(b))
    } else {
        guessed_text(b)
    }
}

fn bytes_start_with(data: &[u8], p: &Vec<u8>) -> (r: bool)
    ensures
        r == p@.is_prefix_of(data@),
{
    if data.len() < p.len() {
        return false;
    }
    let mut i: usize = 0;
    while i < p.len()
        invariant
            i <= p@.len() <= data@.len(),
            forall|k: int| 0 <= k < i ==> data@[k] == p@[k],
        decreases p@.len() - i,
    {
        if data[i] != p[i] {
            assert(data@.subrange(0, p@.len() as int)[i as int] != p@[i as int]);
            return false;
        }
        i = i + 1;
    }
    assert(data@.subrange(0, p@.len() as int) =~= p@);
    true
}

fn copy_from(data: &[u8], from: usize) -> (r: Vec<u8>)
    requires
        from <= data@.len(),
    ensures
        r@ == data@.skip(from as int),
{
    let mut out: Vec<u8> = Vec::new();
    let mut i: usize = from;
    while i < data.len()
        invariant
            from <= i <= data@.len(),
            out@ == data@.subrange(from as int, i as int),
        decreases data@.len() - i,
    {
        out.push(data[i]);
        i = i + 1;
        assert(data@.subrange(from as int, i as int) =~= data@.subrange(from as int, i - 1).push(
            data@[i - 1],
        ));
    }
    assert(out@ =~= data@.skip(from as int));
    out
}

fn count_nuls(data: &[u8]) -> (r: usize)
    ensures
        r == nul_count(head_of(data@)),
{
    let n: usize = if data.len() > 256 {
        256
    } else {
        data.len()
    };
    let mut count: usize = 0;
    let mut i: usize = 0;
    assert(data@.take(0) =~= Seq::<u8>::empty());
    while i < n
        invariant
            i <= n <= data@.len(),
            count <= i,
            count == nul_count(data@.take(i as int)),
        decreases n - i,
    {
        if data[i] == 0 {
            count = count + 1;
        }
        i = i + 1;
        assert(data@.take(i as int).drop_last() =~= data@.take(i - 1));
    }
    assert(data@.take(n as int) =~= head_of(data@));
    count
}

fn byte_at_is(data: &[u8], i: usize, x: u8) -> (r: bool)
    ensures
        r == byte_is(data@, i as int, x),
{
    i < data.len() && data[i] == x
}

fn may_be_utf16(data: &[u8]) -> (r: bool)
    ensures
        r == looks_utf16(data@),
{
    count_nuls(data) >= 2 || (byte_at_is(data, 0, 0x7b) && byte_at_is(data, 1, 0)) || (byte_at_is(
        data,
        0,
        0,
    ) && byte_at_is(data, 1, 0x7b))
}

fn guess_text(data: &[u8]) -> (r: Result<String, ManifestTextError>)
    ensures
        text_result(r) == guessed_text(data@),
{
    assert(data@.skip(0) =~= data@);
    let nuls = count_nuls(data);
    let wide = nuls >= 8 || (byte_at_is(data, 0, 0x7b) && byte_at_is(data, 1, 0) && byte_at_is(
        data,
        2,
        0,
    ) && byte_at_is(data, 3, 0)) || (byte_at_is(data, 0, 0) && byte_at_is(data, 1, 0)
        && byte_at_is(data, 2, 0) && byte_at_is(data, 3, 0x7b));
    let narrow = may_be_utf16(data);
    if wide {
        let le = byte_at_is(data, 1, 0) && byte_at_is(data, 2, 0) && byte_at_is(data, 3, 0);
        match decode_utf32(data, 0, le) {
            Ok(s) => {
                return Ok(s);
            },
            Err(_) => {},
        }
        match decode_utf32(data, 0, !le) {
            Ok(s) => {
                return Ok(s);
            },
            Err(_) => {},
        }
    }
    if narrow {
        let le = byte_at_is(data, 1, 0);
        match decode_utf16(data, 0, le) {
            Ok(s) => {
                return Ok(s);
            },
            Err(_) => {},
        }
        match decode_utf16(data, 0, !le) {
            Ok(s) => {
                return Ok(s);
            },
            Err(_) => {},
        }
    }
    Err(ManifestTextError::UnsupportedEncoding)
}

/// Decodes the bytes of a manifest.
pub fn decode_manifest(data: &[u8]) -> (r: Result<String, ManifestTextError>)
    ensures
        text_result(r) == manifest_text(data@),
{
    let protected = vec![0x45u8, 0x4c, 0x47, 0x41, 0x54, 0x4f];
    assert(protected@ =~= seq![0x45u8, 0x4c, 0x47, 0x41, 0x54, 0x4f]);
    if bytes_start_with(data, &protected) {
        return Err(ManifestTextError::Protected);
    }
    let utf8_mark = vec![0xefu8, 0xbb, 0xbf];
    assert(utf8_mark@ =~= seq![0xefu8, 0xbb, 0xbf]);
    if bytes_start_with(data, &utf8_mark) {
        let rest = copy_from(data, 3);
        return match utf8_text(rest) {
            Some(s) => Ok(s),
            None => Err(ManifestTextError::InvalidUtf8),
        };
    }
    let le32 = vec![0xffu8, 0xfe, 0, 0];
    assert(le32@ =~= seq![0xffu8, 0xfe, 0, 0]);
    if bytes_start_with(data, &le32) {
        return decode_utf32(data, 4, true);
    }
    let le16 = vec![0xffu8, 0xfe];
    assert(le16@ =~= seq![0xffu8, 0xfe]);
    if bytes_start_with(data, &le16) {
        return decode_utf16(data, 2, true);
    }
    let be16 = vec![0xfeu8, 0xff];
    assert(be16@ =~= seq![0xfeu8, 0xff]);
    if bytes_start_with(data, &be16) {
        return decode_utf16(data, 2, false);
    }
    let be32 = vec![0u8, 0, 0xfe, 0xff];
    assert(be32@ =~= seq![0u8, 0, 0xfe, 0xff]);
    if bytes_start_with(data, &be32) {
        return decode_utf32(data, 4, false);
    }
    let all = copy_from(data, 0);
    assert(data@.skip(0) =~= data@);
    match utf8_text(all) {
        Some(s) => {
            if may_be_utf16(data) {
                match guess_text(data) {
                    Ok(t) => Ok(t),
                    Err(_) => Ok(s),
                }
            } else {
                Ok(s)
            }
        },
        None => guess_text(data),
    }
}

proof fn lemma_code_of_other(c: char)
    requires
        c != '\0',
    ensures
        c as u32 != 0,
{
}

proof fn lemma_no_nul_bytes(s: Seq<char>)
    requires
        !s.contains('\0'),
    ensures
        forall|i: int| 0 <= i < encode_utf8(s).len() ==> #[trigger] encode_utf8(s)[i] != 0,
    decreases s.len(),
{
    if s.len() > 0 {
        let rest = s.drop_first();
        let c = s[0] as u32;
        assert(!rest.contains('\0')) by {
            if rest.contains('\0') {
                let k = choose|k: int| 0 <= k < rest.len() && rest[k] == '\0';
                assert(s[k + 1] == '\0');
            }
        }
        assert(s.contains(s[0]));
        lemma_code_of_other(s[0]);
        lemma_no_nul_bytes(rest);
        assert(0 < c <= 0x7f ==> (c & 0x7f) as u8 != 0) by (bit_vector);
        assert(0xc0u8 | ((c >> 6) & 0x1f) as u8 != 0) by (bit_vector);
        assert(0xe0u8 | ((c >> 12) & 0x0f) as u8 != 0) by (bit_vector);
        assert(0xf0u8 | ((c >> 18) & 0x7) as u8 != 0) by (bit_vector);
        assert(0x80u8 | (c & 0x3f) as u8 != 0) by (bit_vector);
        assert(0x80u8 | ((c >> 6) & 0x3f) as u8 != 0) by (bit_vector);
        assert(0x80u8 | ((c >> 12) & 0x3f) as u8 != 0) by (bit_vector);
        let head = encode_scalar(c);
        assert forall|i: int| 0 <= i < head.len() implies #[trigger] head[i] != 0 by {}
        let whole = encode_utf8(s);
        assert(whole == head + encode_utf8(rest));
        assert forall|i: int| 0 <= i < whole.len() implies #[trigger] whole[i] != 0 by {
            if i >= head.len() {
                assert(whole[i] == encode_utf8(rest)[i - head.len()]);
            } else {
                assert(whole[i] == head[i]);
            }
        }
    }
}

proof fn lemma_no_nuls(b: Seq<u8>)
    requires
        forall|i: int| 0 <= i < b.len() ==> #[trigger] b[i] != 0,
    ensures
        nul_count(b) == 0,
    decreases b.len(),
{
    if b.len() > 0 {
        lemma_no_nuls(b.drop_last());
    }
}

/// A text in plain UTF-8 that begins like no other encoding, and has no NUL
/// characters, is decoded to itself.
pub proof fn law_plain_utf8_decodes(s: Seq<char>)
    requires
        s.len() > 0,
        s[0] == '{',
        !s.contains('\0'),
    ensures
        manifest_text(encode_utf8(s)) == Ok::<_, ManifestTextError>(s),
{
    let b = encode_utf8(s);
    encode_utf8_valid_utf8(s);
    encode_utf8_decode_utf8(s);
    let c = s[0] as u32;
    assert(c == 0x7b);
    assert(leading_byte_width_1(0x7bu32) == 0x7b) by (bit_vector);
    assert(b[0] == 0x7b);
    assert(seq![0x45u8, 0x4c, 0x47, 0x41, 0x54, 0x4f][0] == 0x45);
    let marks = seq![
        seq![0x45u8, 0x4c, 0x47, 0x41, 0x54, 0x4f],
        seq![0xefu8, 0xbb, 0xbf],
        seq![0xffu8, 0xfe, 0, 0],
        seq![0xffu8, 0xfe],
        seq![0xfeu8, 0xff],
        seq![0u8, 0, 0xfe, 0xff],
    ];
    assert forall|k: int| 0 <= k < marks.len() implies !(#[trigger] marks[k]).is_prefix_of(b) by {
        if marks[k].is_prefix_of(b) {
            assert(b.subrange(0, marks[k].len() as int)[0] == marks[k][0]);
        }
    }
    assert(!marks[0].is_prefix_of(b));
    assert(!marks[1].is_prefix_of(b));
    assert(!marks[2].is_prefix_of(b));
    assert(!marks[3].is_prefix_of(b));
    assert(!marks[4].is_prefix_of(b));
    assert(!marks[5].is_prefix_of(b));
    lemma_no_nul_bytes(s);
    lemma_no_nuls(head_of(b));
    assert(!looks_utf16(b));
}

/// A text in UTF-32 behind its mark, with the low bytes first, is decoded to
/// itself.
pub proof fn law_marked_utf32_decodes(b: Seq<u8>, s: Seq<char>)
    requires
        b.len() == 4 + 4 * s.len(),
        seq![0xffu8, 0xfe, 0, 0].is_prefix_of(b),
        forall|i: int|
            0 <= i < s.len() ==> {
                let n = code_point_at(b.skip(4), 4 * i, true);
                is_code_point(n) && (#[trigger] s[i]) == n as char
            },
    ensures
        manifest_text(b) == Ok::<_, ManifestTextError>(s),
{
    let d = b.skip(4);
    assert(b[0] == 0xff) by {
        assert(b.subrange(0, 4)[0] == seq![0xffu8, 0xfe, 0, 0][0]);
    }
    let marks = seq![seq![0x45u8, 0x4c, 0x47, 0x41, 0x54, 0x4f], seq![0xefu8, 0xbb, 0xbf]];
    assert forall|k: int| 0 <= k < marks.len() implies !(#[trigger] marks[k]).is_prefix_of(b) by {
        if marks[k].is_prefix_of(b) {
            assert(b.subrange(0, marks[k].len() as int)[0] == marks[k][0]);
        }
    }
    assert(!marks[0].is_prefix_of(b));
    assert(!marks[1].is_prefix_of(b));
    assert(without_padding(d) == d);
    assert forall|i: int| 0 <= i < d.len() as int / 4 implies is_code_point(
        #[trigger] code_point_at(d, 4 * i, true),
    ) by {
        assert(s[i] == code_point_at(d, 4 * i, true) as char);
    }
    assert(decoded_utf32(d, true)->Ok_0 =~= s);
}

/// A text in UTF-32 without a mark that begins with `{`, with the low bytes
/// first, is decoded to itself.
pub proof fn law_unmarked_utf32_decodes(b: Seq<u8>, s: Seq<char>)
    requires
        s.len() > 0,
        s[0] == '{',
        b.len() == 4 * s.len(),
        forall|i: int|
            0 <= i < s.len() ==> {
                let n = code_point_at(b, 4 * i, true);
                is_code_point(n) && (#[trigger] s[i]) == n as char
            },
    ensures
        manifest_text(b) == Ok::<_, ManifestTextError>(s),
{
    assert(s[0] == code_point_at(b, 0, true) as char);
    assert(code_point_at(b, 0, true) == 0x7b);
    assert(b[0] == 0x7b && b[1] == 0 && b[2] == 0 && b[3] == 0);
    let marks = seq![
        seq![0x45u8, 0x4c, 0x47, 0x41, 0x54, 0x4f],
        seq![0xefu8, 0xbb, 0xbf],
        seq![0xffu8, 0xfe, 0, 0],
        seq![0xffu8, 0xfe],
        seq![0xfeu8, 0xff],
        seq![0u8, 0, 0xfe, 0xff],
    ];
    assert forall|k: int| 0 <= k < marks.len() implies !(#[trigger] marks[k]).is_prefix_of(b) by {
        if marks[k].is_prefix_of(b) {
            assert(b.subrange(0, marks[k].len() as int)[0] == marks[k][0]);
        }
    }
    assert(!marks[0].is_prefix_of(b));
    assert(!marks[1].is_prefix_of(b));
    assert(!marks[2].is_prefix_of(b));
    assert(!marks[3].is_prefix_of(b));
    assert(!marks[4].is_prefix_of(b));
    assert(!marks[5].is_prefix_of(b));
    assert(without_padding(b) == b);
    assert forall|i: int| 0 <= i < b.len() as int / 4 implies is_code_point(
        #[trigger] code_point_at(b, 4 * i, true),
    ) by {
        assert(s[i] == code_point_at(b, 4 * i, true) as char);
    }
    assert(decoded_utf32(b, true)->Ok_0 =~= s);
    assert(looks_utf32(b));
}

// ---------------------------------------------------------------------------
// The manifest as JSON
// ---------------------------------------------------------------------------

/// Why there is no manifest.
#[derive(Clone, Copy, PartialEq, Eq, Structural, Debug)]
pub enum ManifestError {
    Text(ManifestTextError),
    InvalidJson,
}

/// The JSON text in a decoded manifest: what follows byte order marks.
pub open spec fn json_text_of(s: Seq<char>) -> Seq<u8> {
    encode_utf8(text::trim_start_where(s, |c: char| c == '\u{feff}'))
}

/// The manifest in `raw`, patched by `overrides` where these are JSON.
pub open spec fn manifest_json(raw: Seq<u8>, overrides: Option<Seq<u8>>) -> Result<
    JsonView,
    ManifestError,
> {
    match manifest_text(raw) {
        Err(e) => Err(ManifestError::Text(e)),
        Ok(s) => match json::parsed_json(json_text_of(s)) {
            None => Err(ManifestError::InvalidJson),
            Some(j) => Ok(patched(j, overrides)),
        },
    }
}

/// A manifest patched by `overrides` where these are JSON.
pub open spec fn patched(j: JsonView, overrides: Option<Seq<u8>>) -> JsonView {
    match overrides {
        Some(o) => match json::parsed_json(o) {
            Some(p) => json::merged(j, p),
            None => j,
        },
        None => j,
    }
}

/// Patches a manifest by the overrides of a platform, where there are any.
pub fn apply_overrides(manifest: Json, overrides: &Option<Vec<u8>>) -> (r: Json)
    ensures
        r@ == patched(
            manifest@,
            match overrides {
                Some(o) => Some(o@),
                None => None,
            },
        ),
{
    match overrides {
        Some(o) => match parse_json(o.as_slice()) {
            Some(p) => merge(manifest, &p),
            None => manifest,
        },
        None => manifest,
    }
}

/// Reads a manifest, given its bytes and those of the overrides of the platform.
pub fn read_manifest(raw: &[u8], overrides: &Option<Vec<u8>>) -> (r: Result<Json, ManifestError>)
    ensures
        ({
            let o = match overrides {
                Some(o) => Some(o@),
                None => None,
            };
            match r {
                Ok(j) => manifest_json(raw@, o) == Ok::<_, ManifestError>(j@),
                Err(e) => manifest_json(raw@, o) == Err::<JsonView, _>(e),
            }
        }),
{
    match decode_manifest(raw) {
        Err(e) => Err(ManifestError::Text(e)),
        Ok(s) => {
            let t = trim_start_char(&s, '\u{feff}');
            match parse_json(t.as_str().as_bytes()) {
                None => Err(ManifestError::InvalidJson),
                Some(j) => Ok(apply_overrides(j, overrides)),
            }
        },
    }
}

/// The units stand for characters by themselves, one each.
pub open spec fn plain_units(u: Seq<u16>, s: Seq<char>) -> bool {
    u.len() == s.len() && forall|i: int|
        0 <= i < u.len() ==> ((#[trigger] u[i]) < 0xd800 || u[i] > 0xdfff) && s[i] == u[i] as char
}

proof fn lemma_plain_units(u: Seq<u16>, s: Seq<char>)
    requires
        plain_units(u, s),
    ensures
        utf16_decoded(u) == Some(s),
    decreases u.len(),
{
    if u.len() == 0 {
        assert(s =~= Seq::empty());
    } else {
        let v = u.drop_first();
        let t = s.drop_first();
        assert forall|i: int| 0 <= i < v.len() implies ((#[trigger] v[i]) < 0xd800 || v[i]
            > 0xdfff) && t[i] == v[i] as char by {
            assert(v[i] == u[i + 1]);
        }
        lemma_plain_units(v, t);
        assert(u[0] < 0xd800 || u[0] > 0xdfff);
        assert(seq![u[0] as char] + t =~= s);
    }
}

/// Text that is marked as UTF-16 is read as such, with the bytes of each unit in the
/// order that the mark says.
#[verifier::rlimit(50)]
pub proof fn law_marked_utf16_decodes(b: Seq<u8>, s: Seq<char>, le: bool)
    requires
        b.len() == 2 + 2 * s.len(),
        le ==> b[0] == 0xff && b[1] == 0xfe,
        !le ==> b[0] == 0xfe && b[1] == 0xff,
        b.len() >= 4 ==> b[2] != 0 || b[3] != 0,
        forall|i: int|
            #![trigger s[i]]
            0 <= i < s.len() ==> {
                let low = if le {
                    b[2 + 2 * i]
                } else {
                    b[3 + 2 * i]
                };
                let high = if le {
                    b[3 + 2 * i]
                } else {
                    b[2 + 2 * i]
                };
                let n = low + 256 * high;
                (n < 0xd800 || n > 0xdfff) && s[i] == n as char
            },
    ensures
        manifest_text(b) == Ok::<_, ManifestTextError>(s),
{
    let d = b.skip(2);
    let u = units_of(d, le);
    assert(u.len() == s.len());
    assert forall|i: int| 0 <= i < u.len() implies ((#[trigger] u[i]) < 0xd800 || u[i] > 0xdfff)
        && s[i] == u[i] as char by {
        assert(d[2 * i] == b[2 + 2 * i]);
        assert(d[2 * i + 1] == b[3 + 2 * i]);
        let c = s[i];
    }
    lemma_plain_units(u, s);
    assert(d.len() % 2 == 0);
    let protected = seq![0x45u8, 0x4c, 0x47, 0x41, 0x54, 0x4f];
    if protected.is_prefix_of(b) {
        assert(b.subrange(0, 6)[0] == b[0]);
    }
    if seq![0xefu8, 0xbb, 0xbf].is_prefix_of(b) {
        assert(b.subrange(0, 3)[0] == b[0]);
    }
    if seq![0xffu8, 0xfe, 0, 0].is_prefix_of(b) {
        assert(b.subrange(0, 4)[2] == b[2]);
        assert(b.subrange(0, 4)[3] == b[3]);
    }
    if le {
        assert(b.subrange(0, 2) =~= seq![0xffu8, 0xfe]);
    } else {
        assert(b.subrange(0, 2) =~= seq![0xfeu8, 0xff]);
        if seq![0xffu8, 0xfe].is_prefix_of(b) {
            assert(b.subrange(0, 2)[0] == b[0]);
        }
    }
}

/// Two surrogates stand for the character beyond the first 65536 that they name, and
/// one without its partner for none.
pub proof fn law_surrogates_name_a_character(hi: u16, lo: u16)
    requires
        0xd800 <= hi <= 0xdbff,
        0xdc00 <= lo <= 0xdfff,
    ensures
        utf16_decoded(seq![hi, lo]) == Some(
            seq![(0x10000 + (hi - 0xd800) * 1024 + (lo - 0xdc00)) as char],
        ),
        utf16_decoded(seq![hi]) is None,
        utf16_decoded(seq![lo]) is None,
        utf16_decoded(seq![lo, hi]) is None,
{
    let u = seq![hi, lo];
    assert(u.skip(2) =~= Seq::empty());
    let n: Seq<char> = Seq::empty();
    assert(utf16_decoded(Seq::empty()) == Some(n));
    assert(surrogate_pair(hi, lo) == 0x10000 + (hi - 0xd800) * 1024 + (lo - 0xdc00));
    assert(seq![surrogate_pair(hi, lo) as char] + n =~= seq![
        (0x10000 + (hi - 0xd800) * 1024 + (lo - 0xdc00)) as char,
    ]);
    assert(seq![hi].len() == 1);
    assert(seq![lo].len() == 1);
}

/// A protected manifest is told apart from one that cannot be read.
pub proof fn law_protected_manifest(rest: Seq<u8>)
    ensures
        manifest_text(seq![0x45u8, 0x4c, 0x47, 0x41, 0x54, 0x4f] + rest) == Err::<
            Seq<char>,
            ManifestTextError,
        >(ManifestTextError::Protected),
{
    let p = seq![0x45u8, 0x4c, 0x47, 0x41, 0x54, 0x4f];
    assert((p + rest).subrange(0, 6) =~= p);
}

/// A byte order mark before the JSON of a manifest does not count.
pub proof fn law_mark_does_not_count(s: Seq<char>)
    ensures
        json_text_of(seq!['\u{feff}'] + s) == json_text_of(s),
        s.len() > 0 && s[0] != '\u{feff}' ==> json_text_of(s) == encode_utf8(s),
{
    let m = seq!['\u{feff}'] + s;
    assert(m.drop_first() =~= s);
}

/// Overrides that are JSON are merged into the manifest, and others leave it as it is.
pub proof fn law_overrides_are_merged(j: JsonView, overrides: Seq<u8>)
    ensures
        patched(j, None) == j,
        json::parsed_json(overrides) is None ==> patched(j, Some(overrides)) == j,
        json::parsed_json(overrides) matches Some(p) ==> patched(j, Some(overrides))
            == json::merged(j, p),
{
}

/// Bytes of an odd number are no UTF-16, but for one NUL byte too many.
pub proof fn law_odd_bytes(b: Seq<u8>, le: bool)
    requires
        b.len() % 2 == 0,
    ensures
        decoded_utf16(b.push(0), le) == decoded_utf16(b, le),
        decoded_utf16(b.push(1), le) == Err::<Seq<char>, ManifestTextError>(
            ManifestTextError::OddUtf16Length,
        ),
        b.len() % 4 == 0 ==> decoded_utf32(b.push(0), le) == decoded_utf32(b, le),
        b.len() % 4 == 0 ==> decoded_utf32(b.push(1), le) == Err::<Seq<char>, ManifestTextError>(
            ManifestTextError::InvalidUtf32Length,
        ),
{
    assert(b.push(0).drop_last() =~= b);
    assert(b.push(1).last() == 1);
    assert(b.push(0).last() == 0);
}

} // verus!
