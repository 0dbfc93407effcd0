//! Deep links and access tokens of the Elgato marketplace.
use vstd::prelude::*;
use vstd::utf8::*;
use crate::json;
use crate::json::{parse_json, Json, JsonView};
use crate::text;
use crate::text::{
    byte_len, chars_of, concat2, concat3, contains, ends_with, find_char, same_text, split,
    starts_with, strip_prefix, text_of_range, to_lowercase, trim, utf8_text,
};

verus! {

// ---------------------------------------------------------------------------
// Links
// ---------------------------------------------------------------------------

/// The parts of a URL that the library reads.
pub struct Link {
    /// The whole URL in its normal form.
    pub href: String,
    pub host: Option<String>,
    pub path: String,
    /// The decoded name and value of each query parameter.
    pub query: Vec<(String, String)>,
    pub fragment: Option<String>,
}

/// The model of a `Link`.
pub struct LinkView {
    pub href: Seq<char>,
    pub host: Option<Seq<char>>,
    pub path: Seq<char>,
    pub query: Seq<(Seq<char>, Seq<char>)>,
    pub fragment: Option<Seq<char>>,
}

impl View for Link {
    type V = LinkView;

    open spec fn view(&self) -> LinkView {
        LinkView {
            href: self.href@,
            host: text::opt_text(self.host),
            path: self.path@,
            query: self.query@.map_values(|p: (String, String)| (p.0@, p.1@)),
            fragment: text::opt_text(self.fragment),
        }
    }
}

/// The URL that a text stands for.
pub uninterp spec fn parsed_url(s: Seq<char>) -> Option<LinkView>;

/// `reqwest::Url::parse`, and of its result `as_str`, `host_str`, `path`,
/// `query_pairs` and `fragment`: a function of the text alone; `None` where the
/// text is no absolute URL.
#[verifier::external_body]
fn read_url(s: &str) -> (r: Option<Link>)
    ensures
        match r {
            Some(l) => parsed_url(s@) == Some(l@),
            None => parsed_url(s@) is None,
        },
{
    reqwest::Url::parse(s).ok().map(|u| Link {
        href: u.as_str().to_owned(),
        host: u.host_str().map(str::to_owned),
        path: u.path().to_owned(),
        query: u.query_pairs().into_owned().collect(),
        fragment: u.fragment().map(str::to_owned),
    })
}

/// The pieces of a URL path behind its leading `/`; `None` where it has none.
pub open spec fn segments_of(path: Seq<char>) -> Option<Seq<Seq<char>>> {
    if path.len() > 0 && path[0] == '/' {
        Some(text::split_on(path.drop_first(), '/'))
    } else {
        None
    }
}

impl Link {
    /// Reads an absolute URL.
    pub fn parse(s: &str) -> (r: Option<Link>)
        ensures
            match r {
                Some(l) => parsed_url(s@) == Some(l@),
                None => parsed_url(s@) is None,
            },
    {
        read_url(s)
    }

    /// The segments of the path.
    pub fn path_segments(&self) -> (r: Option<Vec<String>>)
        ensures
            r is Some <==> segments_of(self@.path) is Some,
            r is Some ==> Some(text::texts(r->0@)) == segments_of(self@.path),
    {
        proof {
            reveal_strlit("/");
            assert("/"@ =~= seq!['/']);
        }
        match strip_prefix(&self.path, "/") {
            Some(rest) => {
                assert(self.path@[0] == "/"@[0]);
                assert(rest@ =~= self.path@.drop_first());
                Some(split(&rest, '/'))
            },
            None => {
                assert(self.path@.len() > 0 && self.path@[0] == '/' ==> "/"@ =~= self.path@.subrange(0, 1));
                None
            },
        }
    }
}

// ---------------------------------------------------------------------------
// Download URLs
// ---------------------------------------------------------------------------

/// `s` reads as the address of a plugin or icon pack archive.
pub open spec fn is_download_url(s: Seq<char>) -> bool {
    let l = text::lowercased(s);
    &&& "https://"@.is_prefix_of(l) || "http://"@.is_prefix_of(l)
    &&& {
        ||| text::contains_text(l, "streamdeckplugin"@)
        ||| text::contains_text(l, "streamdeckiconpack"@)
        ||| ".zip"@.is_suffix_of(l)
        ||| text::contains_text(l, "content-disposition"@) && text::contains_text(l, ".zip"@)
    }
}

/// `s` reads as the address of a plugin or icon pack archive.
pub fn looks_like_download_url(s: &str) -> (r: bool)
    ensures
        r == is_download_url(s@),
{
    let l = to_lowercase(s);
    if !(starts_with(&l, "https://") || starts_with(&l, "http://")) {
        return false;
    }
    if contains(&l, "streamdeckplugin") || contains(&l, "streamdeckiconpack") || ends_with(
        &l,
        ".zip",
    ) {
        return true;
    }
    contains(&l, "content-disposition") && contains(&l, ".zip")
}

/// The value of a hexadecimal digit.
pub open spec fn hex_value(b: u8) -> Option<u8> {
    if 48 <= b <= 57 {
        Some((b - 48) as u8)
    } else if 97 <= b <= 102 {
        Some((b - 97 + 10) as u8)
    } else if 65 <= b <= 70 {
        Some((b - 65 + 10) as u8)
    } else {
        None
    }
}

/// The value of a hexadecimal digit.
fn hex(b: u8) -> (r: Option<u8>)
    ensures
        r == hex_value(b),
        r is Some ==> r->0 < 16,
{
    if 48 <= b && b <= 57 {
        Some(b - 48)
    } else if 97 <= b && b <= 102 {
        Some(b - 97 + 10)
    } else if 65 <= b && b <= 70 {
        Some(b - 65 + 10)
    } else {
        None
    }
}

/// `b` with each `%XY` turned into the byte it stands for and each `+` into a
/// space. A `%` with fewer than two bytes behind it stands for itself; one with
/// two bytes behind it that are no hexadecimal digits makes the whole undecodable.
pub open spec fn percent_decoded(b: Seq<u8>) -> Option<Seq<u8>>
    decreases b.len(),
{
    if b.len() == 0 {
        Some(Seq::empty())
    } else if b[0] == 37 && b.len() > 2 {
        match (hex_value(b[1]), hex_value(b[2]), percent_decoded(b.skip(3))) {
            (Some(hi), Some(lo), Some(rest)) => Some(seq![(hi * 16 + lo) as u8] + rest),
            _ => None,
        }
    } else {
        match percent_decoded(b.drop_first()) {
            Some(rest) => Some(
                seq![
                    if b[0] == 43 {
                        32u8
                    } else {
                        b[0]
                    },
                ] + rest,
            ),
            None => None,
        }
    }
}

/// The text that `s` stands for after percent-decoding, where it is UTF-8.
pub open spec fn percent_decoded_text(s: Seq<char>) -> Option<Seq<char>> {
    match percent_decoded(encode_utf8(s)) {
        Some(b) => if valid_utf8(b) {
            Some(decode_utf8(b))
        } else {
            None
        },
        None => None,
    }
}

/// Percent-decodes `s`.
pub fn percent_decode_best_effort(s: &str) -> (r: Option<String>)
    ensures
        text::opt_text(r) == percent_decoded_text(s@),
{
    let bytes = s.as_bytes();
    let mut out: Vec<u8> = Vec::new();
    let mut i: usize = 0;
    assert(bytes@.skip(0) =~= bytes@);
    while i < bytes.len()
        invariant
            bytes@ == encode_utf8(s@),
            i <= bytes@.len(),
            match percent_decoded(bytes@.skip(i as int)) {
                Some(rest) => percent_decoded(bytes@) == Some(out@ + rest),
                None => percent_decoded(bytes@) is None,
            },
        decreases bytes@.len() - i,
    {
        let ghost rest = bytes@.skip(i as int);
        let ghost before = out@;
        let b = bytes[i];
        assert(rest[0] == b);
        if b == 37 && bytes.len() - i > 2 {
            assert(rest[1] == bytes@[i + 1]);
            assert(rest[2] == bytes@[i + 2]);
            let hi = match hex(bytes[i + 1]) {
                Some(h) => h,
                None => {
                    return None;
                },
            };
            let lo = match hex(bytes[i + 2]) {
                Some(l) => l,
                None => {
                    return None;
                },
            };
            let byte: u8 = hi * 16 + lo;
            out.push(byte);
            assert(rest.skip(3) =~= bytes@.skip(i + 3));
            assert forall|t: Seq<u8>| #[trigger] (before + (seq![byte] + t)) == out@ + t by {
                assert(before + (seq![byte] + t) =~= out@ + t);
            }
            i = i + 3;
        } else {
            let byte: u8 = if b == 43 {
                32
            } else {
                b
            };
            out.push(byte);
            assert(rest.drop_first() =~= bytes@.skip(i + 1));
            assert forall|t: Seq<u8>| #[trigger] (before + (seq![byte] + t)) == out@ + t by {
                assert(before + (seq![byte] + t) =~= out@ + t);
            }
            i = i + 1;
        }
    }
    assert(bytes@.skip(i as int) =~= Seq::<u8>::empty());
    assert(out@ + Seq::<u8>::empty() =~= out@);
    utf8_text(out)
}

/// The first text in `j`, from the outside in and in order, that reads as a
/// download address.
pub open spec fn found_in_json(j: JsonView) -> Option<Seq<char>>
    decreases j, 0nat,
{
    match j {
        JsonView::Text(s) => if is_download_url(s) {
            Some(s)
        } else {
            None
        },
        JsonView::Array(a) => found_in_items(a, 0),
        JsonView::Object(o) => found_in_fields(o, 0),
        _ => None,
    }
}

/// The first download address in `a[i..]`.
pub open spec fn found_in_items(a: Seq<JsonView>, i: nat) -> Option<Seq<char>>
    decreases a, a.len() - i,
{
    if i < a.len() {
        match found_in_json(a[i as int]) {
            Some(s) => Some(s),
            None => found_in_items(a, i + 1),
        }
    } else {
        None
    }
}

/// The first download address in the values of `o[i..]`.
pub open spec fn found_in_fields(o: Seq<(Seq<char>, JsonView)>, i: nat) -> Option<Seq<char>>
    decreases o, o.len() - i,
{
    if i < o.len() {
        match found_in_json(o[i as int].1) {
            Some(s) => Some(s),
            None => found_in_fields(o, i + 1),
        }
    } else {
        None
    }
}

/// Finds the first download address in `v`.
pub fn find_in_json(v: &Json) -> (r: Option<String>)
    ensures
        text::opt_text(r) == found_in_json(v@),
    decreases v,
{
    broadcast use json::lemma_json_view;

    match v {
        Json::Text(s) => if looks_like_download_url(s) {
            Some(s.clone())
        } else {
            None
        },
        Json::Array(a) => {
            let ghost items = json::items_view(a@);
            let mut i: usize = 0;
            while i < a.len()
                invariant
                    i <= a@.len(),
                    decreases_to!(v => a),
                    items == json::items_view(a@),
                    found_in_json(v@) == found_in_items(items, i as nat),
                decreases a@.len() - i,
            {
                assert(decreases_to!(a => a@));
                assert(decreases_to!(a@ => a@[i as int]));
                let found = find_in_json(&a[i]);
                assert(items[i as int] == a@[i as int]@);
                if found.is_some() {
                    return found;
                }
                i = i + 1;
            }
            None
        },
        Json::Object(o) => {
            let ghost fields = json::fields_view(o@);
            let mut i: usize = 0;
            while i < o.len()
                invariant
                    i <= o@.len(),
                    decreases_to!(v => o),
                    fields == json::fields_view(o@),
                    found_in_json(v@) == found_in_fields(fields, i as nat),
                decreases o@.len() - i,
            {
                assert(decreases_to!(o => o@));
                assert(decreases_to!(o@ => o@[i as int]));
                assert(decreases_to!(o@[i as int] => o@[i as int].1));
                let found = find_in_json(&o[i].1);
                assert(fields[i as int].1 == o@[i as int].1@);
                if found.is_some() {
                    return found;
                }
                i = i + 1;
            }
            None
        },
        _ => None,
    }
}

/// What a text decodes to with the standard base64 alphabet.
pub uninterp spec fn base64_standard(s: Seq<char>) -> Option<Seq<u8>>;

/// What a text decodes to with the URL-safe base64 alphabet.
pub uninterp spec fn base64_url_safe(s: Seq<char>) -> Option<Seq<u8>>;

/// What a text decodes to with the URL-safe base64 alphabet without padding.
pub uninterp spec fn base64_url_safe_no_pad(s: Seq<char>) -> Option<Seq<u8>>;

/// The view of optional bytes.
pub open spec fn opt_bytes(b: Option<Vec<u8>>) -> Option<Seq<u8>> {
    match b {
        Some(v) => Some(v@),
        None => None,
    }
}

/// `Engine::decode` of the `base64` crate with `general_purpose::STANDARD`, a
/// function of the text alone; `None` where it gives an error.
#[verifier::external_body]
pub(crate) fn decode_standard(s: &str) -> (r: Option<Vec<u8>>)
    ensures
        opt_bytes(r) == base64_standard(s@),
{
    base64::Engine::decode(&base64::engine::general_purpose::STANDARD, s).ok()
}

/// `Engine::decode` of the `base64` crate with `general_purpose::URL_SAFE`, a
/// function of the text alone; `None` where it gives an error.
#[verifier::external_body]
fn decode_url_safe(s: &str) -> (r: Option<Vec<u8>>)
    ensures
        opt_bytes(r) == base64_url_safe(s@),
{
    base64::Engine::decode(&base64::engine::general_purpose::URL_SAFE, s).ok()
}

/// `Engine::decode` of the `base64` crate with
/// `general_purpose::URL_SAFE_NO_PAD`, a function of the text alone; `None`
/// where it gives an error.
#[verifier::external_body]
fn decode_url_safe_no_pad(s: &str) -> (r: Option<Vec<u8>>)
    ensures
        opt_bytes(r) == base64_url_safe_no_pad(s@),
{
    base64::Engine::decode(&base64::engine::general_purpose::URL_SAFE_NO_PAD, s).ok()
}

/// The download address that a JSON text holds.
pub open spec fn found_in_json_text(bytes: Seq<u8>) -> Option<Seq<char>> {
    match json::parsed_json(bytes) {
        Some(j) => found_in_json(j),
        None => None,
    }
}

/// The download address in bytes that are a JSON text or the address itself.
pub open spec fn found_in_bytes(bytes: Seq<u8>) -> Option<Seq<char>> {
    match found_in_json_text(bytes) {
        Some(s) => Some(s),
        None => if valid_utf8(bytes) && is_download_url(decode_utf8(bytes)) {
            Some(decode_utf8(bytes))
        } else {
            None
        },
    }
}

/// The first of two answers that is one.
pub open spec fn first_of(a: Option<Seq<char>>, b: Option<Seq<char>>) -> Option<Seq<char>> {
    if a is Some {
        a
    } else {
        b
    }
}

/// The download address in what a text decodes to.
pub open spec fn found_in_decoded(bytes: Option<Seq<u8>>) -> Option<Seq<char>> {
    match bytes {
        Some(b) => found_in_bytes(b),
        None => None,
    }
}

/// The download address that `s` holds in base64.
pub open spec fn found_in_base64(s: Seq<char>) -> Option<Seq<char>> {
    if 16 <= encode_utf8(s).len() <= 16384 {
        first_of(
            found_in_decoded(base64_standard(s)),
            first_of(
                found_in_decoded(base64_url_safe(s)),
                found_in_decoded(base64_url_safe_no_pad(s)),
            ),
        )
    } else {
        None
    }
}

/// Finds the download address in decoded bytes.
pub fn find_in_bytes(bytes: Vec<u8>) -> (r: Option<String>)
    ensures
        text::opt_text(r) == found_in_bytes(bytes@),
{
    match parse_json(bytes.as_slice()) {
        Some(j) => {
            let found = find_in_json(&j);
            if found.is_some() {
                return found;
            }
        },
        None => {},
    }
    match utf8_text(bytes) {
        Some(s) => if looks_like_download_url(&s) {
            Some(s)
        } else {
            None
        },
        None => None,
    }
}

/// Finds the download address that `s` holds in base64.
pub fn find_in_base64(s: &str) -> (r: Option<String>)
    ensures
        text::opt_text(r) == found_in_base64(s@),
{
    let n = byte_len(s);
    if n < 16 || n > 16384 {
        return None;
    }
    if let Some(bytes) = decode_standard(s) {
        let found = find_in_bytes(bytes);
        if found.is_some() {
            return found;
        }
    }
    if let Some(bytes) = decode_url_safe(s) {
        let found = find_in_bytes(bytes);
        if found.is_some() {
            return found;
        }
    }
    if let Some(bytes) = decode_url_safe_no_pad(s) {
        let found = find_in_bytes(bytes);
        if found.is_some() {
            return found;
        }
    }
    None
}

/// The number of `+` among `b`.
pub open spec fn plus_count(b: Seq<u8>) -> nat
    decreases b.len(),
{
    if b.len() == 0 {
        0
    } else {
        plus_count(b.drop_first()) + if b[0] == 43 {
            1nat
        } else {
            0
        }
    }
}

/// A size of a text that every step of the search makes smaller.
pub open spec fn weight(s: Seq<char>) -> nat {
    encode_utf8(s).len() + plus_count(encode_utf8(s))
}

proof fn lemma_plus_count_concat(a: Seq<u8>, b: Seq<u8>)
    ensures
        plus_count(a + b) == plus_count(a) + plus_count(b),
    decreases a.len(),
{
    if a.len() == 0 {
        assert(a + b =~= b);
    } else {
        lemma_plus_count_concat(a.drop_first(), b);
        assert((a + b).drop_first() =~= a.drop_first() + b);
    }
}

proof fn lemma_weight_concat(a: Seq<char>, b: Seq<char>)
    ensures
        weight(a + b) == weight(a) + weight(b),
        weight(a) >= a.len(),
{
    text::lemma_encode_concat(a, b);
    lemma_plus_count_concat(encode_utf8(a), encode_utf8(b));
    lemma_encode_len(a);
}

proof fn lemma_encode_len(a: Seq<char>)
    ensures
        encode_utf8(a).len() >= a.len(),
    decreases a.len(),
{
    if a.len() > 0 {
        lemma_encode_len(a.drop_first());
    }
}

/// A piece of a text weighs no more than the text, and less by at least the
/// characters left out.
proof fn lemma_weight_part(s: Seq<char>, i: int, j: int)
    requires
        0 <= i <= j <= s.len(),
    ensures
        weight(s.subrange(i, j)) + (s.len() - (j - i)) <= weight(s),
{
    let a = s.subrange(0, i);
    let m = s.subrange(i, j);
    let b = s.subrange(j, s.len() as int);
    assert(s =~= a + (m + b));
    lemma_weight_concat(a, m + b);
    lemma_weight_concat(m, b);
    lemma_weight_concat(b, a);
}

/// Trimming takes a piece.
pub proof fn lemma_trimmed_part(s: Seq<char>)
    ensures
        weight(text::trimmed(s)) <= weight(s),
        exists|i: int, j: int| 0 <= i <= j <= s.len() && text::trimmed(s) == #[trigger] s.subrange(i, j),
{
    let ws = |c: char| text::is_white_space(c);
    lemma_trim_start_part(s, ws);
    let t = text::trim_start_where(s, ws);
    let i = choose|i: int| 0 <= i <= s.len() && t == #[trigger] s.skip(i);
    lemma_trim_end_part(t, ws);
    let k = choose|k: int| 0 <= k <= t.len() && text::trim_end_where(t, ws) == #[trigger] t.take(k);
    assert(t.take(k) =~= s.subrange(i, i + k));
    lemma_weight_part(s, i, i + k);
}

proof fn lemma_trim_start_part(s: Seq<char>, d: spec_fn(char) -> bool)
    ensures
        exists|i: int| 0 <= i <= s.len() && text::trim_start_where(s, d) == #[trigger] s.skip(i),
    decreases s.len(),
{
    if s.len() > 0 && d(s[0]) {
        let t = s.drop_first();
        lemma_trim_start_part(t, d);
        let i = choose|i: int| 0 <= i <= t.len() && text::trim_start_where(t, d) == #[trigger] t.skip(i);
        assert(t.skip(i) =~= s.skip(i + 1));
    } else {
        assert(s.skip(0) =~= s);
    }
}

proof fn lemma_trim_end_part(s: Seq<char>, d: spec_fn(char) -> bool)
    ensures
        exists|i: int| 0 <= i <= s.len() && text::trim_end_where(s, d) == #[trigger] s.take(i),
    decreases s.len(),
{
    if s.len() > 0 && d(s.last()) {
        let t = s.drop_last();
        lemma_trim_end_part(t, d);
        let i = choose|i: int| 0 <= i <= t.len() && text::trim_end_where(t, d) == #[trigger] t.take(i);
        assert(t.take(i) =~= s.take(i));
    } else {
        assert(s.take(s.len() as int) =~= s);
    }
}

/// Percent-decoding that changes anything makes the bytes lighter.
proof fn lemma_percent_decoded_lighter(b: Seq<u8>)
    requires
        percent_decoded(b) is Some,
    ensures
        percent_decoded(b)->0.len() + plus_count(percent_decoded(b)->0) <= b.len() + plus_count(b),
        percent_decoded(b)->0 != b ==> percent_decoded(b)->0.len() + plus_count(
            percent_decoded(b)->0,
        ) < b.len() + plus_count(b),
    decreases b.len(),
{
    let d = percent_decoded(b)->0;
    if b.len() == 0 {
        assert(d =~= b);
    } else if b[0] == 37 && b.len() > 2 {
        let r = percent_decoded(b.skip(3))->0;
        lemma_percent_decoded_lighter(b.skip(3));
        assert(d.drop_first() =~= r);
        assert(b.drop_first().drop_first().drop_first() =~= b.skip(3));
        assert(b.drop_first()[0] == b[1]);
        assert(b.drop_first().drop_first()[0] == b[2]);
        reveal_with_fuel(plus_count, 4);
    } else {
        let r = percent_decoded(b.drop_first())->0;
        lemma_percent_decoded_lighter(b.drop_first());
        assert(d.drop_first() =~= r);
        if b[0] != 43 && r == b.drop_first() {
            assert(d =~= b);
        }
    }
}

/// Percent-decoding a text and trimming it makes it lighter, unless nothing
/// changes.
pub proof fn lemma_decoded_lighter(t: Seq<char>)
    requires
        percent_decoded_text(t) is Some,
        text::trimmed(percent_decoded_text(t)->0) != t,
        t == text::trimmed(t),
    ensures
        weight(text::trimmed(percent_decoded_text(t)->0)) < weight(t),
{
    let b = percent_decoded(encode_utf8(t))->0;
    let d = percent_decoded_text(t)->0;
    lemma_percent_decoded_lighter(encode_utf8(t));
    decode_utf8_encode_utf8(b);
    lemma_trimmed_part(d);
    if b == encode_utf8(t) {
        encode_utf8_decode_utf8(t);
        assert(d == t);
    }
}

proof fn lemma_trim_end_fixed(s: Seq<char>, d: spec_fn(char) -> bool)
    ensures
        ({
            let t = text::trim_end_where(s, d);
            t.len() == 0 || !d(t.last())
        }),
    decreases s.len(),
{
    if s.len() > 0 && d(s.last()) {
        lemma_trim_end_fixed(s.drop_last(), d);
    }
}

proof fn lemma_trim_start_fixed(s: Seq<char>, d: spec_fn(char) -> bool)
    ensures
        ({
            let t = text::trim_start_where(s, d);
            t.len() == 0 || !d(t[0])
        }),
    decreases s.len(),
{
    if s.len() > 0 && d(s[0]) {
        lemma_trim_start_fixed(s.drop_first(), d);
    }
}

/// A trimmed text has nothing left to trim.
pub proof fn lemma_trimmed_fixed(s: Seq<char>)
    ensures
        text::trimmed(text::trimmed(s)) == text::trimmed(s),
{
    let ws = |c: char| text::is_white_space(c);
    let t = text::trim_start_where(s, ws);
    lemma_trim_start_fixed(s, ws);
    lemma_trim_end_fixed(t, ws);
    lemma_trim_end_part(t, ws);
    let u = text::trim_end_where(t, ws);
    let k = choose|k: int| 0 <= k <= t.len() && u == #[trigger] t.take(k);
    if u.len() > 0 {
        assert(u[0] == t[0]);
    }
    assert(text::trim_start_where(u, ws) == u);
    assert(text::trim_end_where(u, ws) == u);
}

/// The value of the first pair of `t`, and what follows the first pair, are
/// lighter than `t`.
pub proof fn lemma_pairs_lighter(t: Seq<char>)
    ensures
        ({
            let k = text::index_of_char(t, '&');
            let part = t.take(k);
            let e = text::index_of_char(part, '=');
            &&& 0 <= k <= t.len()
            &&& 0 <= e <= part.len()
            &&& e < part.len() ==> weight(part.skip(e + 1)) < weight(t)
            &&& k < t.len() ==> weight(t.skip(k + 1)) < weight(t)
        }),
{
    text::lemma_index_of_char(t, '&');
    let k = text::index_of_char(t, '&');
    let part = t.take(k);
    text::lemma_index_of_char(part, '=');
    let e = text::index_of_char(part, '=');
    if e < part.len() {
        assert(part.skip(e + 1) =~= t.subrange(e + 1, k));
        lemma_weight_part(t, e + 1, k);
    }
    if k < t.len() {
        assert(t.skip(k + 1) =~= t.subrange(k + 1, t.len() as int));
        lemma_weight_part(t, k + 1, t.len() as int);
    }
}

/// The download address that the text `s` holds: `s` itself, or what the value
/// of one of its `name=value` pairs holds, or what its JSON, its base64 or its
/// percent-decoded form holds, in this order.
pub open spec fn candidate(s: Seq<char>) -> Option<Seq<char>>
    decreases weight(s), 1nat,
{
    proof {
        lemma_trimmed_part(s);
        lemma_trimmed_fixed(s);
        let t = text::trimmed(s);
        if percent_decoded_text(t) is Some && text::trimmed(percent_decoded_text(t)->0) != t {
            lemma_decoded_lighter(t);
        }
    }
    let t = text::trimmed(s);
    if t.len() == 0 {
        None
    } else if is_download_url(t) {
        Some(t)
    } else {
        let pairs = if t.contains('=') {
            candidate_in_pairs(t)
        } else {
            None
        };
        let json = if t[0] == '{' && t.last() == '}' {
            found_in_json_text(encode_utf8(t))
        } else {
            None
        };
        let decoded = match percent_decoded_text(t) {
            Some(d) => if text::trimmed(d) != t {
                candidate(text::trimmed(d))
            } else {
                None
            },
            None => None,
        };
        first_of(pairs, first_of(json, first_of(found_in_base64(t), decoded)))
    }
}

/// The download address that the value of one of the `&`-separated
/// `name=value` pairs of `t` holds.
pub open spec fn candidate_in_pairs(t: Seq<char>) -> Option<Seq<char>>
    decreases weight(t), 0nat,
{
    proof {
        lemma_pairs_lighter(t);
    }
    let k = text::index_of_char(t, '&');
    let part = t.take(k);
    let e = text::index_of_char(part, '=');
    let here = if e < part.len() {
        candidate(part.skip(e + 1))
    } else {
        None
    };
    if here is Some {
        here
    } else if k < t.len() {
        candidate_in_pairs(t.skip(k + 1))
    } else {
        None
    }
}

/// Finds the download address that `s` holds.
pub fn try_candidate(s: &str) -> (r: Option<String>)
    ensures
        text::opt_text(r) == candidate(s@),
    decreases weight(s@), 1nat,
{
    proof {
        lemma_trimmed_part(s@);
        lemma_trimmed_fixed(s@);
    }
    let t = trim(s);
    let v = chars_of(&t);
    if v.len() == 0 {
        return None;
    }
    if looks_like_download_url(&t) {
        return Some(t);
    }
    let k = find_char(&v, '=');
    if k < v.len() {
        assert(t@[k as int] == '=');
        let found = try_pairs(&t);
        if found.is_some() {
            return found;
        }
    } else {
        assert(!t@.contains('='));
    }
    if v[0] == '{' && v[v.len() - 1] == '}' {
        match parse_json(t.as_str().as_bytes()) {
            Some(j) => {
                let found = find_in_json(&j);
                if found.is_some() {
                    return found;
                }
            },
            None => {},
        }
    }
    let found = find_in_base64(&t);
    if found.is_some() {
        return found;
    }
    match percent_decode_best_effort(&t) {
        Some(d) => {
            let d = trim(&d);
            if !same_text(&d, &t) {
                proof {
                    lemma_decoded_lighter(t@);
                }
                try_candidate(&d)
            } else {
                None
            }
        },
        None => None,
    }
}

/// Finds the download address that the value of a pair of `t` holds.
fn try_pairs(t: &str) -> (r: Option<String>)
    ensures
        text::opt_text(r) == candidate_in_pairs(t@),
    decreases weight(t@), 0nat,
{
    proof {
        lemma_pairs_lighter(t@);
    }
    let v = chars_of(t);
    let k = find_char(&v, '&');
    let part = text_of_range(&v, 0, k);
    assert(part@ =~= t@.take(k as int));
    let p = chars_of(&part);
    let e = find_char(&p, '=');
    if e < p.len() {
        let value = text_of_range(&p, e + 1, p.len());
        assert(value@ =~= part@.skip(e + 1));
        let found = try_candidate(&value);
        if found.is_some() {
            return found;
        }
    }
    if k < v.len() {
        let rest = text_of_range(&v, k + 1, v.len());
        assert(rest@ =~= t@.skip(k + 1));
        try_pairs(&rest)
    } else {
        None
    }
}

/// The first download address that one of `parts[i..]` holds.
pub open spec fn first_candidate(parts: Seq<Seq<char>>, i: nat) -> Option<Seq<char>>
    decreases parts.len() - i,
{
    if i < parts.len() {
        first_of(candidate(parts[i as int]), first_candidate(parts, i + 1))
    } else {
        None
    }
}

/// The values of query parameters.
pub open spec fn query_values(query: Seq<(Seq<char>, Seq<char>)>) -> Seq<Seq<char>> {
    query.map_values(|p: (Seq<char>, Seq<char>)| p.1)
}

/// The download address that a link holds: the link itself, or what the value
/// of a query parameter, the fragment or a path segment holds, in this order.
pub open spec fn download_url(l: LinkView) -> Option<Seq<char>> {
    if is_download_url(l.href) {
        Some(l.href)
    } else {
        let fragment = match l.fragment {
            Some(f) => candidate(f),
            None => None,
        };
        let path = match segments_of(l.path) {
            Some(segments) => first_candidate(segments, 0),
            None => None,
        };
        first_of(first_candidate(query_values(l.query), 0), first_of(fragment, path))
    }
}

/// Extracts the address of a downloadable archive from a marketplace deep
/// link.
pub fn extract_download_url(url: &Link) -> (r: Option<String>)
    ensures
        text::opt_text(r) == download_url(url@),
{
    if looks_like_download_url(&url.href) {
        return Some(url.href.clone());
    }
    let ghost values = query_values(url@.query);
    let mut i: usize = 0;
    while i < url.query.len()
        invariant
            i <= url.query@.len(),
            values == query_values(url@.query),
            !is_download_url(url@.href),
            first_candidate(values, 0) == first_candidate(values, i as nat),
        decreases url.query@.len() - i,
    {
        assert(values[i as int] == url.query@[i as int].1@);
        let found = try_candidate(&url.query[i].1);
        if found.is_some() {
            return found;
        }
        i = i + 1;
    }
    match &url.fragment {
        Some(f) => {
            let found = try_candidate(f);
            if found.is_some() {
                return found;
            }
        },
        None => {},
    }
    match url.path_segments() {
        Some(segments) => {
            let ghost parts = text::texts(segments@);
            let mut i: usize = 0;
            while i < segments.len()
                invariant
                    i <= segments@.len(),
                    parts == text::texts(segments@),
                    first_candidate(parts, 0) == first_candidate(parts, i as nat),
                    download_url(url@) == first_candidate(parts, 0),
                decreases segments@.len() - i,
            {
                assert(parts[i as int] == segments@[i as int]@);
                let found = try_candidate(&segments[i]);
                if found.is_some() {
                    return found;
                }
                i = i + 1;
            }
            None
        },
        None => None,
    }
}

/// Extracts the address of a downloadable archive from the text of a deep link.
pub fn extract_download_url_from_text(link: &str) -> (r: Option<String>)
    ensures
        text::opt_text(r) == match parsed_url(link@) {
            Some(l) => download_url(l),
            None => None,
        },
{
    match Link::parse(link) {
        Some(l) => extract_download_url(&l),
        None => None,
    }
}

/// An address found in a candidate text reads as a download address.
pub proof fn law_candidate_is_download_url(s: Seq<char>)
    ensures
        candidate(s) is Some ==> is_download_url(candidate(s)->0),
    decreases weight(s), 1nat,
{
    lemma_trimmed_part(s);
    lemma_trimmed_fixed(s);
    let t = text::trimmed(s);
    if t.len() > 0 && !is_download_url(t) {
        if t.contains('=') {
            lemma_candidate_in_pairs_is_download_url(t);
        }
        if parsed_json_is(encode_utf8(t)) {
            lemma_found_in_json_is_download_url(json::parsed_json(encode_utf8(t))->0);
        }
        lemma_found_in_decoded(base64_standard(t));
        lemma_found_in_decoded(base64_url_safe(t));
        lemma_found_in_decoded(base64_url_safe_no_pad(t));
        if percent_decoded_text(t) is Some && text::trimmed(percent_decoded_text(t)->0) != t {
            lemma_decoded_lighter(t);
            law_candidate_is_download_url(text::trimmed(percent_decoded_text(t)->0));
        }
    }
}

spec fn parsed_json_is(bytes: Seq<u8>) -> bool {
    json::parsed_json(bytes) is Some
}

proof fn lemma_candidate_in_pairs_is_download_url(t: Seq<char>)
    ensures
        candidate_in_pairs(t) is Some ==> is_download_url(candidate_in_pairs(t)->0),
    decreases weight(t), 0nat,
{
    lemma_pairs_lighter(t);
    let k = text::index_of_char(t, '&');
    let part = t.take(k);
    let e = text::index_of_char(part, '=');
    if e < part.len() {
        law_candidate_is_download_url(part.skip(e + 1));
    }
    if k < t.len() {
        lemma_candidate_in_pairs_is_download_url(t.skip(k + 1));
    }
}

proof fn lemma_found_in_decoded(b: Option<Seq<u8>>)
    ensures
        found_in_decoded(b) is Some ==> is_download_url(found_in_decoded(b)->0),
{
    if b is Some && parsed_json_is(b->0) {
        lemma_found_in_json_is_download_url(json::parsed_json(b->0)->0);
    }
}

proof fn lemma_found_in_json_is_download_url(j: JsonView)
    ensures
        found_in_json(j) is Some ==> is_download_url(found_in_json(j)->0),
    decreases j, 0nat,
{
    match j {
        JsonView::Array(a) => {
            lemma_found_in_items(a, 0);
        },
        JsonView::Object(o) => {
            lemma_found_in_fields(o, 0);
        },
        _ => {},
    }
}

proof fn lemma_found_in_items(a: Seq<JsonView>, i: nat)
    ensures
        found_in_items(a, i) is Some ==> is_download_url(found_in_items(a, i)->0),
    decreases a, a.len() - i,
{
    if i < a.len() {
        lemma_found_in_json_is_download_url(a[i as int]);
        lemma_found_in_items(a, i + 1);
    }
}

proof fn lemma_found_in_fields(o: Seq<(Seq<char>, JsonView)>, i: nat)
    ensures
        found_in_fields(o, i) is Some ==> is_download_url(found_in_fields(o, i)->0),
    decreases o, o.len() - i,
{
    if i < o.len() {
        lemma_found_in_json_is_download_url(o[i as int].1);
        lemma_found_in_fields(o, i + 1);
    }
}

/// Whatever is extracted from a link reads as the address of an archive.
pub proof fn law_extracted_is_download_url(l: LinkView)
    ensures
        download_url(l) is Some ==> is_download_url(download_url(l)->0),
{
    lemma_first_candidate_is_download_url(query_values(l.query), 0);
    if l.fragment is Some {
        law_candidate_is_download_url(l.fragment->0);
    }
    if segments_of(l.path) is Some {
        lemma_first_candidate_is_download_url(segments_of(l.path)->0, 0);
    }
}

proof fn lemma_first_candidate_is_download_url(parts: Seq<Seq<char>>, i: nat)
    ensures
        first_candidate(parts, i) is Some ==> is_download_url(first_candidate(parts, i)->0),
    decreases parts.len() - i,
{
    if i < parts.len() {
        law_candidate_is_download_url(parts[i as int]);
        lemma_first_candidate_is_download_url(parts, i + 1);
    }
}

// ---------------------------------------------------------------------------
// Items and access tokens
// ---------------------------------------------------------------------------

/// Metadata of a marketplace item.
pub struct MarketplaceItemLite {
    pub origin: Option<String>,
    pub extension: Option<String>,
    pub name: Option<String>,
    pub product_name: Option<String>,
    pub slug: Option<String>,
    pub variant_id: Option<String>,
    pub is_free: Option<bool>,
    pub needs_license: Option<bool>,
}

/// The links through which a purchased item is installed.
pub struct PurchaseLink {
    pub deep_link: Option<String>,
    pub direct_link: Option<String>,
}

/// The record of the access token on disk.
pub struct MarketplaceTokenDisk {
    pub token: String,
    /// The `exp` claim of the token, in seconds since the epoch.
    pub exp: Option<u64>,
    pub saved_at: u64,
}

/// A trimmed id that can be looked up: not empty and at most 128 bytes.
pub open spec fn is_variant_id(t: Seq<char>) -> bool {
    t.len() > 0 && encode_utf8(t).len() <= 128
}

/// A trimmed token that is kept: not empty and at most 16 KiB.
pub open spec fn is_token(t: Seq<char>) -> bool {
    t.len() > 0 && encode_utf8(t).len() <= 16384
}

/// The address at which the metadata of an item is found; `None` where the id
/// is empty or longer than 128 bytes.
pub fn lookup_item_url(variant_id: &str) -> (r: Option<String>)
    ensures
        text::opt_text(r) == if is_variant_id(text::trimmed(variant_id@)) {
            Some("https://mp-gateway.elgato.com/allitems?ids="@ + text::trimmed(variant_id@))
        } else {
            None
        },
{
    let id = trim(variant_id);
    if id.as_str().is_empty() || byte_len(&id) > 128 {
        return None;
    }
    Some(concat2("https://mp-gateway.elgato.com/allitems?ids=", &id))
}

/// The address of the purchase link of an item.
pub open spec fn purchase_base(id: Seq<char>) -> Seq<char> {
    "https://mp-gateway.elgato.com/items/"@ + id + "/purchase-link"@
}

/// The addresses to ask, in order, for the purchase link of an item; `None`
/// where the token or the id is empty or too long.
pub fn purchase_link_urls(token: &str, variant_id: &str) -> (r: Option<Vec<String>>)
    ensures
        r is Some <==> is_token(text::trimmed(token@)) && is_variant_id(
            text::trimmed(variant_id@),
        ),
        r is Some ==> text::texts(r->0@) == seq![
            purchase_base(text::trimmed(variant_id@)),
            purchase_base(text::trimmed(variant_id@)) + "?standard=streamdeck"@,
            purchase_base(text::trimmed(variant_id@)) + "?standard=true"@,
        ],
{
    let tok = trim(token);
    let id = trim(variant_id);
    if tok.as_str().is_empty() || byte_len(&tok) > 16384 {
        return None;
    }
    if id.as_str().is_empty() || byte_len(&id) > 128 {
        return None;
    }
    let base = concat3("https://mp-gateway.elgato.com/items/", &id, "/purchase-link");
    let streamdeck = concat2(&base, "?standard=streamdeck");
    let plain = concat2(&base, "?standard=true");
    let mut urls: Vec<String> = Vec::new();
    urls.push(base);
    urls.push(streamdeck);
    urls.push(plain);
    assert(text::texts(urls@) =~= seq![base@, streamdeck@, plain@]);
    Some(urls)
}

/// The `exp` claim of a JSON web token, whose second `.`-separated part is
/// base64 of a JSON object.
pub open spec fn token_exp(token: Seq<char>) -> Option<u64> {
    let parts = text::split_on(token, '.');
    if parts.len() < 2 || !(8 <= encode_utf8(parts[1]).len() <= 16384) {
        None
    } else {
        match base64_url_safe_no_pad(parts[1]) {
            Some(bytes) => exp_claim(json::parsed_json(bytes)),
            None => None,
        }
    }
}

/// The `exp` claim in the claims of a token.
pub open spec fn exp_claim(claims: Option<JsonView>) -> Option<u64> {
    match claims {
        Some(j) => match json::field_of(j, "exp"@) {
            Some(x) => json::json_u64(x),
            None => None,
        },
        None => None,
    }
}

/// The `exp` claim in the claims of a token.
pub fn exp_of_claims(claims: &Option<Json>) -> (r: Option<u64>)
    ensures
        r == exp_claim(
            match claims {
                Some(j) => Some(j@),
                None => None,
            },
        ),
{
    match claims {
        Some(j) => match j.get("exp") {
            Some(x) => x.as_u64(),
            None => None,
        },
        None => None,
    }
}

/// The `exp` claim of a JSON web token.
pub fn jwt_exp(token: &str) -> (r: Option<u64>)
    ensures
        r == token_exp(token@),
{
    let parts = split(token, '.');
    assert(parts@.len() == text::texts(parts@).len());
    if parts.len() < 2 {
        return None;
    }
    assert(text::texts(parts@)[1] == parts@[1]@);
    let n = byte_len(&parts[1]);
    if n < 8 || n > 16384 {
        return None;
    }
    match decode_url_safe_no_pad(&parts[1]) {
        Some(bytes) => {
            let claims = parse_json(bytes.as_slice());
            exp_of_claims(&claims)
        },
        None => None,
    }
}

/// Takes `token` as the access token in `held`, unless it is empty or longer
/// than 16 KiB, and returns the record to keep of it on disk.
pub fn set_marketplace_access_token(held: &mut Option<String>, token: &str, now: u64) -> (r: Option<
    MarketplaceTokenDisk,
>)
    ensures
        ({
            let t = text::trimmed(token@);
            if is_token(t) {
                &&& text::opt_text(*final(held)) == Some(t)
                &&& r matches Some(disk) && disk.token@ == t && disk.exp == token_exp(t)
                    && disk.saved_at == now
            } else {
                r is None && *final(held) == *old(held)
            }
        }),
{
    let tok = trim(token);
    if tok.as_str().is_empty() || byte_len(&tok) > 16384 {
        return None;
    }
    let exp = jwt_exp(&tok);
    *held = Some(tok.clone());
    Some(MarketplaceTokenDisk { token: tok, exp, saved_at: now })
}

/// The access token that is held.
pub fn marketplace_access_token(held: &Option<String>) -> (r: Option<String>)
    ensures
        text::opt_text(r) == text::opt_text(*held),
{
    text::clone_opt(held)
}

/// A stored token that is not empty and does not expire within 30 seconds.
pub open spec fn is_live(disk: MarketplaceTokenDisk, now: u64) -> bool {
    let limit = if now + 30 > u64::MAX {
        u64::MAX as int
    } else {
        now + 30
    };
    text::trimmed(disk.token@).len() > 0 && (disk.exp matches Some(exp) ==> exp > limit)
}

/// Takes the stored token as the access token in `held`, where it is live.
/// Returns whether it was.
pub fn load_marketplace_access_token_from_disk(
    held: &mut Option<String>,
    disk: &MarketplaceTokenDisk,
    now: u64,
) -> (r: bool)
    ensures
        r == is_live(*disk, now),
        text::opt_text(*final(held)) == if r {
            Some(text::trimmed(disk.token@))
        } else {
            text::opt_text(*old(held))
        },
{
    let tok = trim(&disk.token);
    if tok.as_str().is_empty() {
        return false;
    }
    if let Some(exp) = disk.exp {
        if exp <= now.saturating_add(30) {
            return false;
        }
    }
    *held = Some(tok);
    true
}

/// A token that was taken is loaded again from its record as the same token,
/// for as long as it is live.
pub proof fn law_token_reload(token: Seq<char>, disk: MarketplaceTokenDisk, now: u64)
    requires
        is_token(text::trimmed(token)),
        disk.token@ == text::trimmed(token),
        disk.exp == token_exp(text::trimmed(token)),
    ensures
        text::trimmed(disk.token@) == text::trimmed(token),
        disk.exp is None ==> is_live(disk, now),
{
    lemma_trimmed_fixed(token);
}

/// A text that is a download address holds that address, without the white space round
/// it.
pub proof fn law_address_is_its_own_candidate(s: Seq<char>)
    requires
        text::trimmed(s).len() > 0,
        is_download_url(text::trimmed(s)),
    ensures
        candidate(s) == Some(text::trimmed(s)),
{
}

/// A link is the address itself where it is one; else the first of its query values
/// that holds one gives it, before its fragment and its path.
pub proof fn law_link_before_its_parts(l: LinkView, k: int)
    ensures
        is_download_url(l.href) ==> download_url(l) == Some(l.href),
        !is_download_url(l.href) && 0 <= k < l.query.len() && candidate(l.query[k].1) is Some && (
        forall|j: int| 0 <= j < k ==> candidate((#[trigger] l.query[j]).1) is None)
            ==> download_url(l) == candidate(l.query[k].1),
{
    if 0 <= k < l.query.len() && candidate(l.query[k].1) is Some && (forall|j: int|
        0 <= j < k ==> candidate((#[trigger] l.query[j]).1) is None) {
        let values = query_values(l.query);
        assert forall|j: int| 0 <= j < k implies candidate(#[trigger] values[j]) is None by {
            assert(values[j] == l.query[j].1);
        }
        lemma_first_candidate_at(values, 0, k);
    }
}

proof fn lemma_first_candidate_at(parts: Seq<Seq<char>>, i: nat, k: int)
    requires
        i <= k < parts.len(),
        candidate(parts[k]) is Some,
        forall|j: int| i <= j < k ==> candidate(#[trigger] parts[j]) is None,
    ensures
        first_candidate(parts, i) == candidate(parts[k]),
    decreases k - i,
{
    if i < k {
        assert(candidate(parts[i as int]) is None);
        lemma_first_candidate_at(parts, i + 1, k);
    }
}

/// The hexadecimal digit of a number below 16.
pub open spec fn hex_digit(d: nat, upper: bool) -> u8 {
    if d < 10 {
        (48 + d) as u8
    } else if upper {
        (55 + d) as u8
    } else {
        (87 + d) as u8
    }
}

/// Each byte is read back from its percent-encoding, in either case of its letters, and
/// a `+` stands for a space.
pub proof fn law_percent_encoding_reads_back(v: u8, upper: bool, rest: Seq<u8>)
    requires
        percent_decoded(rest) is Some,
    ensures
        percent_decoded(
            seq![37u8, hex_digit((v / 16) as nat, upper), hex_digit((v % 16) as nat, upper)] + rest,
        ) == Some(seq![v] + percent_decoded(rest)->0),
        percent_decoded(seq![43u8] + rest) == Some(seq![32u8] + percent_decoded(rest)->0),
        v != 37 && v != 43 ==> percent_decoded(seq![v] + rest) == Some(
            seq![v] + percent_decoded(rest)->0,
        ),
{
    let hi = hex_digit((v / 16) as nat, upper);
    let lo = hex_digit((v % 16) as nat, upper);
    let b = seq![37u8, hi, lo] + rest;
    assert(b.skip(3) =~= rest);
    assert(b[0] == 37 && b[1] == hi && b[2] == lo);
    assert(hex_value(hi) == Some((v / 16) as u8));
    assert(hex_value(lo) == Some((v % 16) as u8));
    assert(((v / 16) * 16 + v % 16) as u8 == v);
    assert((seq![43u8] + rest).drop_first() =~= rest);
    assert((seq![v] + rest).drop_first() =~= rest);
}

/// A text of a JSON value is found wherever it stands: by itself, and as the first
/// address in an array or an object.
pub proof fn law_address_in_json_is_found(
    s: Seq<char>,
    rest: Seq<JsonView>,
    key: Seq<char>,
    more: Seq<(Seq<char>, JsonView)>,
)
    requires
        is_download_url(s),
    ensures
        found_in_json(JsonView::Text(s)) == Some(s),
        found_in_json(JsonView::Array(seq![JsonView::Text(s)] + rest)) == Some(s),
        found_in_json(JsonView::Object(seq![(key, JsonView::Text(s))] + more)) == Some(s),
        found_in_json(JsonView::Null) is None,
{
    let a = seq![JsonView::Text(s)] + rest;
    assert(a[0] == JsonView::Text(s));
    assert(found_in_items(a, 0) == Some(s));
    let o = seq![(key, JsonView::Text(s))] + more;
    assert(o[0] == (key, JsonView::Text(s)));
    assert(found_in_fields(o, 0) == Some(s));
}

/// A stored token is used as long as it has more than half a minute left, or says
/// nothing of its end; a blank one never is.
pub proof fn law_live_tokens(disk: MarketplaceTokenDisk, now: u64)
    ensures
        text::trimmed(disk.token@).len() == 0 ==> !is_live(disk, now),
        text::trimmed(disk.token@).len() > 0 && disk.exp is None ==> is_live(disk, now),
        disk.exp matches Some(e) ==> now < 0xffff_ffff_ffff && text::trimmed(disk.token@).len() > 0
            ==> (is_live(disk, now) <==> e > now + 30),
{
}

/// The purchase of an item is looked up under its id, at the gateway.
pub proof fn law_purchase_names_its_item(a: Seq<char>, b: Seq<char>)
    ensures
        "https://mp-gateway.elgato.com/items/"@.is_prefix_of(purchase_base(a)),
        purchase_base(a) == purchase_base(b) ==> a == b,
{
    let p = "https://mp-gateway.elgato.com/items/"@;
    let e = "/purchase-link"@;
    assert(purchase_base(a).subrange(0, p.len() as int) =~= p);
    if purchase_base(a) == purchase_base(b) {
        let x = purchase_base(a);
        let y = purchase_base(b);
        assert(x.len() == p.len() + a.len() + e.len());
        assert(y.len() == p.len() + b.len() + e.len());
        assert(x.subrange(p.len() as int, (p.len() + a.len()) as int) =~= a);
        assert(y.subrange(p.len() as int, (p.len() + b.len()) as int) =~= b);
    }
}

/// An address is a download only on the web; a file of a plugin or of an icon pack and
/// an archive are downloads there.
pub proof fn law_downloads_are_on_the_web(s: Seq<char>, rest: Seq<char>)
    requires
        text::lowercased(s) == s,
    ensures
        is_download_url(s) ==> "https://"@.is_prefix_of(s) || "http://"@.is_prefix_of(s),
        s == "https://"@ + rest + ".zip"@ ==> is_download_url(s),
        s == "http://"@ + rest + ".zip"@ ==> is_download_url(s),
        "https://"@.is_prefix_of(s) && text::contains_text(s, "streamdeckplugin"@)
            ==> is_download_url(s),
        "https://"@.is_prefix_of(s) && text::contains_text(s, "streamdeckiconpack"@)
            ==> is_download_url(s),
{
    let z = ".zip"@;
    let a = "https://"@ + rest + z;
    assert(a.subrange(0, "https://"@.len() as int) =~= "https://"@);
    assert(a.subrange(a.len() - z.len(), a.len() as int) =~= z);
    let b = "http://"@ + rest + z;
    assert(b.subrange(0, "http://"@.len() as int) =~= "http://"@);
    assert(b.subrange(b.len() - z.len(), b.len() as int) =~= z);
}

/// An id is looked up, and a token kept, where it is not empty and not longer than such
/// are.
pub proof fn law_lengths_of_ids_and_tokens(t: Seq<char>)
    ensures
        is_variant_id(t) <==> t.len() > 0 && encode_utf8(t).len() < 129,
        is_token(t) <==> t.len() > 0 && encode_utf8(t).len() < 16385,
{
}

} // verus!
