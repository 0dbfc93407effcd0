//! Text operations over the characters of a string, each with an exact result.
use vstd::prelude::*;
use vstd::utf8::*;

verus! {

// ---------------------------------------------------------------------------
// Models
// ---------------------------------------------------------------------------

/// The characters with Unicode's `White_Space` property.
pub open spec fn is_white_space(c: char) -> bool {
    let n = c as u32;
    ||| 0x9 <= n <= 0xd
    ||| n == 0x20
    ||| n == 0x85
    ||| n == 0xa0
    ||| n == 0x1680
    ||| 0x2000 <= n <= 0x200a
    ||| n == 0x2028
    ||| n == 0x2029
    ||| n == 0x202f
    ||| n == 0x205f
    ||| n == 0x3000
}

/// `s` without the leading characters for which `drop` holds.
pub open spec fn trim_start_where(s: Seq<char>, drop: spec_fn(char) -> bool) -> Seq<char>
    decreases s.len(),
{
    if s.len() > 0 && drop(s[0]) {
        trim_start_where(s.drop_first(), drop)
    } else {
        s
    }
}

/// `s` without the trailing characters for which `drop` holds.
pub open spec fn trim_end_where(s: Seq<char>, drop: spec_fn(char) -> bool) -> Seq<char>
    decreases s.len(),
{
    if s.len() > 0 && drop(s.last()) {
        trim_end_where(s.drop_last(), drop)
    } else {
        s
    }
}

/// `s` without white space at either end.
pub open spec fn trimmed(s: Seq<char>) -> Seq<char> {
    trim_end_where(
        trim_start_where(s, |c: char| is_white_space(c)),
        |c: char| is_white_space(c),
    )
}

/// `needle` stands in `s` at position `i`.
pub open spec fn occurs_at(s: Seq<char>, needle: Seq<char>, i: int) -> bool {
    &&& 0 <= i
    &&& i + needle.len() <= s.len()
    &&& s.subrange(i, i + needle.len()) == needle
}

/// `needle` stands somewhere in `s`.
pub open spec fn contains_text(s: Seq<char>, needle: Seq<char>) -> bool {
    exists|i: int| occurs_at(s, needle, i)
}

/// What follows the first occurrence of `needle` in `s`.
pub open spec fn behind(s: Seq<char>, needle: Seq<char>) -> Option<Seq<char>>
    decreases s.len(),
{
    if needle.is_prefix_of(s) {
        Some(s.skip(needle.len() as int))
    } else if s.len() == 0 {
        None
    } else {
        behind(s.drop_first(), needle)
    }
}

/// The position of the first `c` in `s`, or the length of `s` if there is none.
pub open spec fn index_of_char(s: Seq<char>, c: char) -> int
    decreases s.len(),
{
    if s.len() == 0 || s[0] == c {
        0
    } else {
        1 + index_of_char(s.drop_first(), c)
    }
}

/// The position of the last `c` in `s`, or -1 if there is none.
pub open spec fn last_index_of_char(s: Seq<char>, c: char) -> int
    decreases s.len(),
{
    if s.len() == 0 {
        -1
    } else if s.last() == c {
        s.len() - 1
    } else {
        last_index_of_char(s.drop_last(), c)
    }
}

/// The pieces of `s` between the occurrences of `c`; never empty.
pub open spec fn split_on(s: Seq<char>, c: char) -> Seq<Seq<char>>
    decreases s.len(),
    when 0 <= index_of_char(s, c)
{
    let k = index_of_char(s, c);
    if k >= s.len() {
        seq![s]
    } else {
        seq![s.take(k)] + split_on(s.skip(k + 1), c)
    }
}

/// The pieces of `parts` put together with `c` between them.
pub open spec fn join_with(parts: Seq<Seq<char>>, c: char) -> Seq<char>
    decreases parts.len(),
{
    if parts.len() == 0 {
        Seq::empty()
    } else if parts.len() == 1 {
        parts[0]
    } else {
        parts[0] + seq![c] + join_with(parts.drop_first(), c)
    }
}

/// `s` with each character `c` replaced by `by`.
pub open spec fn replace_char(s: Seq<char>, c: char, by: Seq<char>) -> Seq<char>
    decreases s.len(),
{
    if s.len() == 0 {
        Seq::empty()
    } else {
        replace_char(s.drop_last(), c, by) + if s.last() == c {
            by
        } else {
            seq![s.last()]
        }
    }
}

/// `s` with each occurrence of `needle`, found from left to right, replaced by
/// `by`.
pub open spec fn replace_all(s: Seq<char>, needle: Seq<char>, by: Seq<char>) -> Seq<char>
    decreases s.len(),
{
    if needle.len() == 0 || s.len() < needle.len() {
        s
    } else if needle.is_prefix_of(s) {
        by + replace_all(s.skip(needle.len() as int), needle, by)
    } else {
        seq![s[0]] + replace_all(s.drop_first(), needle, by)
    }
}

/// The lower-case form of an ASCII character; any other character itself.
pub open spec fn ascii_lower(c: char) -> char {
    if 'A' <= c <= 'Z' {
        (c as u32 + 32) as char
    } else {
        c
    }
}

/// `s` with each ASCII letter in lower case.
pub open spec fn ascii_lowered(s: Seq<char>) -> Seq<char> {
    s.map_values(|c: char| ascii_lower(c))
}

/// Every character of `s` is ASCII.
pub open spec fn all_ascii(s: Seq<char>) -> bool {
    forall|i: int| 0 <= i < s.len() ==> #[trigger] (s[i] as u32) < 128
}

/// The digit that stands for `d`.
pub open spec fn digit_char(d: nat) -> char
    recommends
        d < 10,
{
    ('0' as u32 + d) as char
}

pub open spec fn is_digit(c: char) -> bool {
    '0' <= c <= '9'
}

pub open spec fn digit_value(c: char) -> nat {
    (c as u32 - '0' as u32) as nat
}

/// `n` in decimal, without leading zeros.
pub open spec fn decimal(n: nat) -> Seq<char>
    decreases n,
{
    if n < 10 {
        seq![digit_char(n)]
    } else {
        decimal(n / 10).push(digit_char(n % 10))
    }
}

pub open spec fn all_digits(s: Seq<char>) -> bool {
    forall|i: int| 0 <= i < s.len() ==> is_digit(#[trigger] s[i])
}

/// The number that a row of decimal digits stands for.
pub open spec fn digits_value(s: Seq<char>) -> nat
    decreases s.len(),
{
    if s.len() == 0 {
        0
    } else {
        digits_value(s.drop_last()) * 10 + digit_value(s.last())
    }
}

/// What `s` reads as: an optional `+`, then at least one digit, at most `max`.
pub open spec fn parsed_unsigned(s: Seq<char>, max: nat) -> Option<nat> {
    let body = if s.len() > 0 && s[0] == '+' {
        s.drop_first()
    } else {
        s
    };
    if body.len() > 0 && all_digits(body) && digits_value(body) <= max {
        Some(digits_value(body))
    } else {
        None
    }
}

/// `a` comes before `b` in the order of their characters' code points.
pub open spec fn precedes(a: Seq<char>, b: Seq<char>) -> bool
    decreases a.len(),
{
    if b.len() == 0 {
        false
    } else if a.len() == 0 {
        true
    } else if a[0] == b[0] {
        precedes(a.drop_first(), b.drop_first())
    } else {
        a[0] < b[0]
    }
}

/// The position of the first `s` in `v`, or the length of `v`.
pub open spec fn first_index(v: Seq<Seq<char>>, s: Seq<char>) -> int
    decreases v.len(),
{
    if v.len() == 0 || v[0] == s {
        0
    } else {
        1 + first_index(v.drop_first(), s)
    }
}

/// The views of a row of strings.
pub open spec fn texts(v: Seq<String>) -> Seq<Seq<char>> {
    v.map_values(|s: String| s@)
}

/// The view of an optional string.
pub open spec fn opt_text(s: Option<String>) -> Option<Seq<char>> {
    match s {
        Some(t) => Some(t@),
        None => None,
    }
}

// ---------------------------------------------------------------------------
// Facts about the models
// ---------------------------------------------------------------------------

/// `index_of_char` is the first position that holds `c`.
pub proof fn lemma_index_of_char(s: Seq<char>, c: char)
    ensures
        0 <= index_of_char(s, c) <= s.len(),
        forall|j: int| 0 <= j < index_of_char(s, c) ==> s[j] != c,
        index_of_char(s, c) < s.len() ==> s[index_of_char(s, c)] == c,
    decreases s.len(),
{
    if s.len() == 0 || s[0] == c {
    } else {
        let t = s.drop_first();
        lemma_index_of_char(t, c);
        assert forall|j: int| 0 <= j < index_of_char(s, c) implies s[j] != c by {
            if j > 0 {
                assert(t[j - 1] == s[j]);
            }
        }
    }
}

/// A position that holds `c`, with none before it, is `index_of_char`.
pub proof fn lemma_index_of_char_is(s: Seq<char>, c: char, k: int)
    requires
        0 <= k <= s.len(),
        forall|j: int| 0 <= j < k ==> s[j] != c,
        k < s.len() ==> s[k] == c,
    ensures
        index_of_char(s, c) == k,
{
    lemma_index_of_char(s, c);
    let i = index_of_char(s, c);
    if i < k {
        assert(s[i] != c);
    } else if k < i {
        assert(s[k] != c);
    }
}

/// `last_index_of_char` is the last position that holds `c`.
pub proof fn lemma_last_index_of_char(s: Seq<char>, c: char)
    ensures
        -1 <= last_index_of_char(s, c) < s.len(),
        forall|j: int| last_index_of_char(s, c) < j < s.len() ==> s[j] != c,
        last_index_of_char(s, c) >= 0 ==> s[last_index_of_char(s, c)] == c,
    decreases s.len(),
{
    if s.len() > 0 && s.last() != c {
        let t = s.drop_last();
        lemma_last_index_of_char(t, c);
        assert forall|j: int| last_index_of_char(s, c) < j < s.len() implies s[j] != c by {
            if j < t.len() {
                assert(t[j] == s[j]);
            }
        }
    }
}

/// A position that holds `c`, with none behind it, is `last_index_of_char`.
pub proof fn lemma_last_index_of_char_is(s: Seq<char>, c: char, k: int)
    requires
        -1 <= k < s.len(),
        forall|j: int| k < j < s.len() ==> s[j] != c,
        k >= 0 ==> s[k] == c,
    ensures
        last_index_of_char(s, c) == k,
{
    lemma_last_index_of_char(s, c);
    let i = last_index_of_char(s, c);
    if i < k {
        assert(s[k] != c);
    } else if k < i {
        assert(s[i] != c);
    }
}

/// Of two different texts, one comes before the other, and not both do.
pub proof fn lemma_precedes_total(a: Seq<char>, b: Seq<char>)
    ensures
        a != b ==> precedes(a, b) != precedes(b, a),
        a == b ==> !precedes(a, b),
    decreases a.len(),
{
    if a.len() > 0 && b.len() > 0 && a[0] == b[0] {
        lemma_precedes_total(a.drop_first(), b.drop_first());
        if a.drop_first() == b.drop_first() {
            assert(a =~= seq![a[0]] + a.drop_first());
            assert(b =~= seq![b[0]] + b.drop_first());
        }
    } else if a.len() == 0 && b.len() == 0 {
        assert(a =~= b);
    }
}

/// What comes before a text that comes before another comes before that one.
pub proof fn lemma_precedes_transitive(a: Seq<char>, b: Seq<char>, c: Seq<char>)
    requires
        precedes(a, b),
        precedes(b, c),
    ensures
        precedes(a, c),
    decreases a.len(),
{
    if a.len() > 0 && b.len() > 0 && c.len() > 0 && a[0] == b[0] && b[0] == c[0] {
        lemma_precedes_transitive(a.drop_first(), b.drop_first(), c.drop_first());
    }
}

/// `first_index` is the first position that holds `s`.
pub proof fn lemma_first_index(v: Seq<Seq<char>>, s: Seq<char>)
    ensures
        0 <= first_index(v, s) <= v.len(),
        forall|j: int| 0 <= j < first_index(v, s) ==> v[j] != s,
        first_index(v, s) < v.len() ==> v[first_index(v, s)] == s,
        first_index(v, s) < v.len() <==> v.contains(s),
    decreases v.len(),
{
    if v.len() > 0 && v[0] != s {
        let t = v.drop_first();
        lemma_first_index(t, s);
        assert forall|j: int| 0 <= j < first_index(v, s) implies v[j] != s by {
            if j > 0 {
                assert(t[j - 1] == v[j]);
            }
        }
        if v.contains(s) {
            let j = choose|j: int| 0 <= j < v.len() && v[j] == s;
            assert(t[j - 1] == s);
        }
    }
}

/// A position that holds `s`, with none before it, is `first_index`.
pub proof fn lemma_first_index_is(v: Seq<Seq<char>>, s: Seq<char>, k: int)
    requires
        0 <= k <= v.len(),
        forall|j: int| 0 <= j < k ==> v[j] != s,
        k < v.len() ==> v[k] == s,
    ensures
        first_index(v, s) == k,
{
    lemma_first_index(v, s);
    let i = first_index(v, s);
    if i < k {
        assert(v[i] != s);
    } else if k < i {
        assert(v[k] != s);
    }
}

/// Splitting goes on behind the first separator.
pub proof fn lemma_split_on_step(s: Seq<char>, c: char)
    ensures
        split_on(s, c) == if index_of_char(s, c) >= s.len() {
            seq![s]
        } else {
            seq![s.take(index_of_char(s, c))] + split_on(s.skip(index_of_char(s, c) + 1), c)
        },
        split_on(s, c).len() >= 1,
{
    lemma_index_of_char(s, c);
    if index_of_char(s, c) < s.len() {
        lemma_index_of_char(s.skip(index_of_char(s, c) + 1), c);
    }
}

/// A text without the separator is its own single piece.
pub proof fn lemma_split_on_none(s: Seq<char>, c: char)
    requires
        !s.contains(c),
    ensures
        split_on(s, c) == seq![s],
{
    lemma_index_of_char_is(s, c, s.len() as int);
    lemma_split_on_step(s, c);
}

proof fn lemma_trim_end_keeps_first(s: Seq<char>, drop: spec_fn(char) -> bool)
    requires
        s.len() > 0,
        !drop(s[0]),
    ensures
        trim_end_where(s, drop).len() > 0,
        trim_end_where(s, drop)[0] == s[0],
    decreases s.len(),
{
    if drop(s.last()) {
        assert(s.len() > 1);
        lemma_trim_end_keeps_first(s.drop_last(), drop);
    }
}

/// A text that does not begin with white space begins alike when it is trimmed.
pub proof fn lemma_trimmed_keeps_first(s: Seq<char>)
    requires
        s.len() > 0,
        !is_white_space(s[0]),
    ensures
        trimmed(s).len() > 0,
        trimmed(s)[0] == s[0],
{
    lemma_trim_end_keeps_first(s, |c: char| is_white_space(c));
}

proof fn lemma_trim_end_behind(s: Seq<char>, t: Seq<char>, drop: spec_fn(char) -> bool)
    requires
        s.len() > 0,
        !drop(s.last()),
    ensures
        trim_end_where(s + t, drop) == s + trim_end_where(t, drop),
    decreases t.len(),
{
    if t.len() == 0 {
        assert(s + t =~= s);
        assert(s + trim_end_where(t, drop) =~= s);
    } else if drop(t.last()) {
        assert((s + t).drop_last() =~= s + t.drop_last());
        lemma_trim_end_behind(s, t.drop_last(), drop);
    }
}

/// Of a text that does not begin with white space, trimming takes nothing up to
/// a character that is none.
pub proof fn lemma_trimmed_behind(s: Seq<char>, t: Seq<char>)
    requires
        s.len() > 0,
        !is_white_space(s[0]),
        !is_white_space(s.last()),
    ensures
        trimmed(s + t) == s + trim_end_where(t, |c: char| is_white_space(c)),
{
    lemma_trim_end_behind(s, t, |c: char| is_white_space(c));
}

/// A first piece without the separator is split off as it is.
pub proof fn lemma_split_on_head(head: Seq<char>, c: char, rest: Seq<char>)
    requires
        !head.contains(c),
    ensures
        split_on(head + seq![c] + rest, c) == seq![head] + split_on(rest, c),
{
    let s = head + seq![c] + rest;
    assert forall|j: int| 0 <= j < head.len() implies s[j] != c by {
        assert(s[j] == head[j]);
    }
    lemma_index_of_char_is(s, c, head.len() as int);
    lemma_split_on_step(s, c);
    assert(s.take(head.len() as int) =~= head);
    assert(s.skip(head.len() as int + 1) =~= rest);
}

/// No piece holds the separator, and the pieces joined again give the text.
pub proof fn lemma_split_join(s: Seq<char>, c: char)
    ensures
        join_with(split_on(s, c), c) == s,
        forall|i: int| 0 <= i < split_on(s, c).len() ==> !(#[trigger] split_on(s, c)[i]).contains(c),
    decreases s.len(),
{
    lemma_split_on_step(s, c);
    lemma_index_of_char(s, c);
    let k = index_of_char(s, c);
    if k < s.len() {
        let rest = s.skip(k + 1);
        lemma_split_join(rest, c);
        lemma_split_on_step(rest, c);
        let parts = split_on(s, c);
        assert(parts.drop_first() =~= split_on(rest, c));
        assert(s.take(k) + seq![c] + rest =~= s);
        assert forall|i: int| 0 <= i < parts.len() implies !(#[trigger] parts[i]).contains(c) by {
            if i > 0 {
                assert(parts[i] == split_on(rest, c)[i - 1]);
            }
        }
    }
}

/// `decimal` is a non-empty row of digits whose value is the number.
pub proof fn lemma_decimal(n: nat)
    ensures
        decimal(n).len() > 0,
        all_digits(decimal(n)),
        digits_value(decimal(n)) == n,
    decreases n,
{
    if n < 10 {
        let s = decimal(n);
        assert(s.drop_last() =~= Seq::empty());
        assert(digits_value(s.drop_last()) == 0);
        assert(s.last() == digit_char(n));
    } else {
        lemma_decimal(n / 10);
        let s = decimal(n);
        assert(s.drop_last() =~= decimal(n / 10));
        assert(s.last() == digit_char(n % 10));
    }
}

/// A number written in decimal reads back as itself.
pub proof fn lemma_parse_decimal(n: nat, max: nat)
    requires
        n <= max,
    ensures
        parsed_unsigned(decimal(n), max) == Some(n),
        !decimal(n).contains('.'),
{
    lemma_decimal(n);
    let s = decimal(n);
    assert(is_digit(s[0]));
    assert forall|i: int| 0 <= i < s.len() implies s[i] != '.' by {
        assert(is_digit(s[i]));
    }
}

proof fn lemma_digits_value_grows(s: Seq<char>, k: int)
    requires
        0 <= k <= s.len(),
    ensures
        digits_value(s.take(k)) <= digits_value(s),
    decreases s.len(),
{
    if k == s.len() {
        assert(s.take(k) =~= s);
    } else {
        lemma_digits_value_grows(s.drop_last(), k);
        assert(s.drop_last().take(k) =~= s.take(k));
    }
}

// ---------------------------------------------------------------------------
// Outside functions
// ---------------------------------------------------------------------------

/// `String::push` appends one character.
pub assume_specification[ String::push ](s: &mut String, c: char)
    ensures
        final(s)@ == old(s)@.push(c),
;

/// What `str::to_lowercase` gives.
pub uninterp spec fn lowercased(s: Seq<char>) -> Seq<char>;

/// `str::to_lowercase`: the lower-case equivalent of a text by Unicode's
/// mapping, a function of the text alone. On ASCII text it lowers the letters
/// `A` to `Z` and keeps the rest.
#[verifier::external_body]
pub(crate) fn to_lowercase(s: &str) -> (r: String)
    ensures
        r@ == lowercased(s@),
        all_ascii(s@) ==> r@ == ascii_lowered(s@),
{
    s.to_lowercase()
}

/// `String::from_utf8`: the text that the bytes encode, where they are UTF-8.
#[verifier::external_body]
pub(crate) fn utf8_text(bytes: Vec<u8>) -> (r: Option<String>)
    ensures
        r is Some <==> valid_utf8(bytes@),
        r is Some ==> r->0@ == decode_utf8(bytes@),
{
    String::from_utf8(bytes).ok()
}

/// The encoding of two texts in a row is the row of their encodings.
pub proof fn lemma_encode_concat(a: Seq<char>, b: Seq<char>)
    ensures
        encode_utf8(a + b) == encode_utf8(a) + encode_utf8(b),
    decreases a.len(),
{
    if a.len() == 0 {
        assert(a + b =~= b);
        assert(encode_utf8(a) + encode_utf8(b) =~= encode_utf8(b));
    } else {
        lemma_encode_concat(a.drop_first(), b);
        assert((a + b).drop_first() =~= a.drop_first() + b);
        assert((a + b)[0] == a[0]);
        assert(encode_utf8(a + b) =~= encode_utf8(a) + encode_utf8(b));
    }
}

// ---------------------------------------------------------------------------
// Operations
// ---------------------------------------------------------------------------

/// The number of bytes of `s` in UTF-8.
pub fn byte_len(s: &str) -> (r: usize)
    ensures
        r == encode_utf8(s@).len(),
{
    s.as_bytes().len()
}

/// The characters of `s`.
pub fn chars_of(s: &str) -> (r: Vec<char>)
    ensures
        r@ == s@,
{
    let mut out: Vec<char> = Vec::new();
    for c in it: s.chars()
        invariant
            out@ == it.seq().take(it.index() as int),
            it.seq() == s@,
    {
        out.push(c);
    }
    out
}

/// The text of the characters `v[from..to]`.
pub fn text_of_range(v: &Vec<char>, from: usize, to: usize) -> (r: String)
    requires
        from <= to <= v@.len(),
    ensures
        r@ == v@.subrange(from as int, to as int),
{
    let mut out = String::new();
    let mut i: usize = from;
    while i < to
        invariant
            from <= i <= to <= v@.len(),
            out@ == v@.subrange(from as int, i as int),
        decreases to - i,
    {
        out.push(v[i]);
        i = i + 1;
        assert(v@.subrange(from as int, i as int) =~= v@.subrange(from as int, i - 1).push(
            v@[i - 1],
        ));
    }
    out
}

/// The text of the characters `v`.
pub fn text_of(v: &Vec<char>) -> (r: String)
    ensures
        r@ == v@,
{
    let r = text_of_range(v, 0, v.len());
    assert(v@.subrange(0, v@.len() as int) =~= v@);
    r
}

/// `v[at..]` starts with `p`.
fn range_is(v: &Vec<char>, at: usize, p: &Vec<char>) -> (r: bool)
    requires
        at + p@.len() <= v@.len(),
    ensures
        r == (v@.subrange(at as int, at + p@.len()) == p@),
{
    let n: usize = v.len();
    let mut i: usize = 0;
    while i < p.len()
        invariant
            i <= p@.len(),
            n == v@.len(),
            at + p@.len() <= v@.len(),
            forall|j: int| 0 <= j < i ==> v@[at + j] == p@[j],
        decreases p@.len() - i,
    {
        if v[at + i] != p[i] {
            assert(v@.subrange(at as int, at + p@.len())[i as int] != p@[i as int]);
            return false;
        }
        i = i + 1;
    }
    assert(v@.subrange(at as int, at + p@.len()) =~= p@);
    true
}

/// `a` and `b` hold the same characters.
pub fn same_text(a: &str, b: &str) -> (r: bool)
    ensures
        r == (a@ == b@),
{
    let x = chars_of(a);
    let y = chars_of(b);
    if x.len() != y.len() {
        return false;
    }
    let r = range_is(&x, 0, &y);
    assert(x@.subrange(0, x@.len() as int) =~= x@);
    r
}

/// An owned copy of `s`.
pub fn owned(s: &str) -> (r: String)
    ensures
        r@ == s@,
{
    s.to_owned()
}

/// `a` followed by `b`.
pub fn concat2(a: &str, b: &str) -> (r: String)
    ensures
        r@ == a@ + b@,
{
    let mut s = a.to_owned();
    s.append(b);
    s
}

/// `a`, `b` and `c` in a row.
pub fn concat3(a: &str, b: &str, c: &str) -> (r: String)
    ensures
        r@ == a@ + b@ + c@,
{
    let mut s = a.to_owned();
    s.append(b);
    s.append(c);
    s
}

/// `s` starts with `p`.
pub fn starts_with(s: &str, p: &str) -> (r: bool)
    ensures
        r == p@.is_prefix_of(s@),
{
    let x = chars_of(s);
    let y = chars_of(p);
    if x.len() < y.len() {
        return false;
    }
    range_is(&x, 0, &y)
}

/// `s` ends with `p`.
pub fn ends_with(s: &str, p: &str) -> (r: bool)
    ensures
        r == p@.is_suffix_of(s@),
{
    let x = chars_of(s);
    let y = chars_of(p);
    if x.len() < y.len() {
        return false;
    }
    let r = range_is(&x, x.len() - y.len(), &y);
    assert(x@.len() - y@.len() + y@.len() == x@.len());
    r
}

/// What follows the prefix `p` of `s`, if `s` starts with it.
pub fn strip_prefix(s: &str, p: &str) -> (r: Option<String>)
    ensures
        r is Some <==> p@.is_prefix_of(s@),
        r is Some ==> r->0@ == s@.skip(p@.len() as int),
{
    let x = chars_of(s);
    let y = chars_of(p);
    if x.len() < y.len() || !range_is(&x, 0, &y) {
        return None;
    }
    let t = text_of_range(&x, y.len(), x.len());
    Some(t)
}

/// What precedes the suffix `p` of `s`, if `s` ends with it.
pub fn strip_suffix(s: &str, p: &str) -> (r: Option<String>)
    ensures
        r is Some <==> p@.is_suffix_of(s@),
        r is Some ==> r->0@ == s@.take(s@.len() - p@.len()),
{
    if !ends_with(s, p) {
        return None;
    }
    let x = chars_of(s);
    let y = chars_of(p);
    let t = text_of_range(&x, 0, x.len() - y.len());
    Some(t)
}

/// `needle` stands in `s`.
pub fn contains(s: &str, needle: &str) -> (r: bool)
    ensures
        r == contains_text(s@, needle@),
{
    let x = chars_of(s);
    let y = chars_of(needle);
    if x.len() < y.len() {
        return false;
    }
    let last: usize = x.len() - y.len();
    let mut i: usize = 0;
    while i <= last
        invariant
            x@ == s@,
            y@ == needle@,
            last + y@.len() == x@.len(),
            i <= last + 1,
            forall|j: int| 0 <= j < i ==> !occurs_at(s@, needle@, j),
        decreases last + 1 - i,
    {
        if range_is(&x, i, &y) {
            assert(occurs_at(s@, needle@, i as int));
            return true;
        }
        if i == last {
            assert forall|j: int| !occurs_at(s@, needle@, j) by {}
            return false;
        }
        i = i + 1;
    }
    false
}

/// What follows the first occurrence of `needle` in `s`.
pub fn text_behind(s: &str, needle: &str) -> (r: Option<String>)
    ensures
        opt_text(r) == behind(s@, needle@),
{
    let v = chars_of(s);
    let p = chars_of(needle);
    let n: usize = v.len();
    let mut i: usize = 0;
    assert(v@.skip(0) =~= v@);
    while p.len() <= n - i
        invariant
            v@ == s@,
            p@ == needle@,
            n == v@.len(),
            i <= n,
            behind(v@.skip(i as int), needle@) == behind(s@, needle@),
        decreases n - i,
    {
        let ghost rest = v@.skip(i as int);
        assert(rest.subrange(0, p@.len() as int) =~= v@.subrange(i as int, i + p@.len()));
        if range_is(&v, i, &p) {
            let r = text_of_range(&v, i + p.len(), n);
            assert(r@ =~= rest.skip(p@.len() as int));
            return Some(r);
        }
        if i == n {
            return None;
        }
        assert(rest.drop_first() =~= v@.skip(i + 1));
        i = i + 1;
    }
    proof {
        lemma_behind_short(v@.skip(i as int), needle@);
    }
    None
}

proof fn lemma_behind_short(s: Seq<char>, needle: Seq<char>)
    requires
        s.len() < needle.len(),
    ensures
        behind(s, needle) is None,
    decreases s.len(),
{
    if s.len() > 0 {
        lemma_behind_short(s.drop_first(), needle);
    }
}

/// The first position of `c` in `v`, or its length.
pub fn find_char(v: &Vec<char>, c: char) -> (r: usize)
    ensures
        r == index_of_char(v@, c),
        r <= v@.len(),
        forall|j: int| 0 <= j < r ==> v@[j] != c,
        r < v@.len() ==> v@[r as int] == c,
{
    let mut i: usize = 0;
    while i < v.len()
        invariant
            i <= v@.len(),
            forall|j: int| 0 <= j < i ==> v@[j] != c,
        decreases v@.len() - i,
    {
        if v[i] == c {
            proof {
                lemma_index_of_char_is(v@, c, i as int);
            }
            return i;
        }
        i = i + 1;
    }
    proof {
        lemma_index_of_char_is(v@, c, i as int);
    }
    i
}

/// The character `c` stands in `s`.
pub fn contains_char(s: &str, c: char) -> (r: bool)
    ensures
        r == s@.contains(c),
{
    let v = chars_of(s);
    let k = find_char(&v, c);
    if k < v.len() {
        assert(s@[k as int] == c);
        true
    } else {
        false
    }
}

/// The pieces of `s` between the occurrences of `c`.
pub fn split(s: &str, c: char) -> (r: Vec<String>)
    ensures
        texts(r@) == split_on(s@, c),
        r@.len() >= 1,
{
    let v = chars_of(s);
    let mut out: Vec<String> = Vec::new();
    let mut start: usize = 0;
    let mut i: usize = 0;
    assert(v@.skip(0) =~= v@);
    assert(texts(out@) =~= Seq::<Seq<char>>::empty());
    while i < v.len()
        invariant
            v@ == s@,
            start <= i <= v@.len(),
            forall|j: int| start <= j < i ==> v@[j] != c,
            texts(out@) + split_on(v@.skip(start as int), c) == split_on(s@, c),
        decreases v@.len() - i,
    {
        if v[i] == c {
            let ghost rest = v@.skip(start as int);
            let piece = text_of_range(&v, start, i);
            proof {
                assert forall|j: int| 0 <= j < i - start implies rest[j] != c by {
                    assert(rest[j] == v@[start + j]);
                }
                assert(rest[i - start] == c);
                lemma_index_of_char_is(rest, c, i - start);
                lemma_split_on_step(rest, c);
                assert(rest.take(i - start) =~= v@.subrange(start as int, i as int));
                assert(rest.skip(i - start + 1) =~= v@.skip(i + 1));
            }
            let ghost before = out@;
            out.push(piece);
            assert(texts(out@) =~= texts(before).push(piece@));
            assert(texts(out@) + split_on(v@.skip(i + 1), c) =~= texts(before) + (seq![piece@]
                + split_on(v@.skip(i + 1), c)));
            start = i + 1;
        }
        i = i + 1;
    }
    let piece = text_of_range(&v, start, v.len());
    let ghost rest = v@.skip(start as int);
    proof {
        assert(rest =~= v@.subrange(start as int, v@.len() as int));
        assert forall|j: int| 0 <= j < rest.len() implies rest[j] != c by {
            assert(rest[j] == v@[start + j]);
        }
        lemma_index_of_char_is(rest, c, rest.len() as int);
        lemma_split_on_step(rest, c);
    }
    let ghost before = out@;
    out.push(piece);
    assert(texts(out@) =~= texts(before) + seq![piece@]);
    out
}

/// `s` cut at its first `c`, without it.
pub fn split_once(s: &str, c: char) -> (r: Option<(String, String)>)
    ensures
        r is Some <==> s@.contains(c),
        r matches Some(p) ==> p.0@ == s@.take(index_of_char(s@, c)) && p.1@ == s@.skip(
            index_of_char(s@, c) + 1,
        ),
{
    let v = chars_of(s);
    let k = find_char(&v, c);
    if k >= v.len() {
        return None;
    }
    let a = text_of_range(&v, 0, k);
    let b = text_of_range(&v, k + 1, v.len());
    assert(s@[k as int] == c);
    assert(v@.subrange(0, k as int) =~= s@.take(k as int));
    assert(v@.subrange(k + 1, v@.len() as int) =~= s@.skip(k + 1));
    Some((a, b))
}

/// The last position of `c` in `v`.
pub fn rfind_char(v: &Vec<char>, c: char) -> (r: Option<usize>)
    ensures
        r is None <==> last_index_of_char(v@, c) == -1,
        r is Some ==> r->0 == last_index_of_char(v@, c) && r->0 < v@.len() && v@[r->0 as int] == c,
        r is None ==> !v@.contains(c),
{
    let mut i: usize = v.len();
    while i > 0
        invariant
            i <= v@.len(),
            forall|j: int| i <= j < v@.len() ==> v@[j] != c,
        decreases i,
    {
        i = i - 1;
        if v[i] == c {
            proof {
                lemma_last_index_of_char_is(v@, c, i as int);
            }
            return Some(i);
        }
    }
    proof {
        lemma_last_index_of_char_is(v@, c, -1);
    }
    None
}

/// `c` has the `White_Space` property.
pub fn white_space(c: char) -> (r: bool)
    ensures
        r == is_white_space(c),
{
    let n: u32 = c as u32;
    (0x9 <= n && n <= 0xd) || n == 0x20 || n == 0x85 || n == 0xa0 || n == 0x1680 || (0x2000 <= n
        && n <= 0x200a) || n == 0x2028 || n == 0x2029 || n == 0x202f || n == 0x205f || n == 0x3000
}

/// The position behind the leading white space of `v`.
fn skip_white(v: &Vec<char>) -> (a: usize)
    ensures
        a <= v@.len(),
        v@.skip(a as int) == trim_start_where(v@, |c: char| is_white_space(c)),
{
    let ghost ws = |c: char| is_white_space(c);
    let mut a: usize = 0;
    assert(v@.skip(0) =~= v@);
    while a < v.len() && white_space(v[a])
        invariant
            ws == (|c: char| is_white_space(c)),
            a <= v@.len(),
            trim_start_where(v@, ws) == trim_start_where(v@.skip(a as int), ws),
        decreases v@.len() - a,
    {
        assert(v@.skip(a as int).drop_first() =~= v@.skip(a + 1));
        a = a + 1;
    }
    a
}

/// The position of the trailing white space of `v[a..]`.
fn skip_white_back(v: &Vec<char>, a: usize) -> (b: usize)
    requires
        a <= v@.len(),
    ensures
        a <= b <= v@.len(),
        v@.subrange(a as int, b as int) == trim_end_where(
            v@.skip(a as int),
            |c: char| is_white_space(c),
        ),
{
    let ghost ws = |c: char| is_white_space(c);
    let mut b: usize = v.len();
    assert(v@.subrange(a as int, b as int) =~= v@.skip(a as int));
    while b > a && white_space(v[b - 1])
        invariant
            ws == (|c: char| is_white_space(c)),
            a <= b <= v@.len(),
            trim_end_where(v@.skip(a as int), ws) == trim_end_where(
                v@.subrange(a as int, b as int),
                ws,
            ),
        decreases b,
    {
        assert(v@.subrange(a as int, b as int).drop_last() =~= v@.subrange(a as int, b - 1));
        b = b - 1;
    }
    b
}

/// `s` without white space at either end.
pub fn trim(s: &str) -> (r: String)
    ensures
        r@ == trimmed(s@),
{
    let v = chars_of(s);
    let a = skip_white(&v);
    let b = skip_white_back(&v, a);
    text_of_range(&v, a, b)
}

/// `s` without the characters `c` at its end.
pub fn trim_end_char(s: &str, c: char) -> (r: String)
    ensures
        r@ == trim_end_where(s@, |x: char| x == c),
{
    let v = chars_of(s);
    let ghost is_c = |x: char| x == c;
    let mut b: usize = v.len();
    assert(v@.take(b as int) =~= v@);
    while b > 0 && v[b - 1] == c
        invariant
            v@ == s@,
            is_c == (|x: char| x == c),
            b <= v@.len(),
            trim_end_where(v@, is_c) == trim_end_where(v@.take(b as int), is_c),
        decreases b,
    {
        assert(v@.take(b as int).drop_last() =~= v@.take(b - 1));
        b = b - 1;
    }
    assert(v@.take(b as int) =~= v@.subrange(0, b as int));
    text_of_range(&v, 0, b)
}

/// `s` without the characters `c` at its start.
pub fn trim_start_char(s: &str, c: char) -> (r: String)
    ensures
        r@ == trim_start_where(s@, |x: char| x == c),
{
    let v = chars_of(s);
    let ghost is_c = |x: char| x == c;
    let mut a: usize = 0;
    assert(v@.skip(0) =~= v@);
    while a < v.len() && v[a] == c
        invariant
            v@ == s@,
            is_c == (|x: char| x == c),
            a <= v@.len(),
            trim_start_where(v@, is_c) == trim_start_where(v@.skip(a as int), is_c),
        decreases v@.len() - a,
    {
        assert(v@.skip(a as int).drop_first() =~= v@.skip(a + 1));
        a = a + 1;
    }
    assert(v@.skip(a as int) =~= v@.subrange(a as int, v@.len() as int));
    text_of_range(&v, a, v.len())
}

/// `s` with each character `c` replaced by `by`.
pub fn replace(s: &str, c: char, by: &str) -> (r: String)
    ensures
        r@ == replace_char(s@, c, by@),
{
    let v = chars_of(s);
    let mut out = String::new();
    let mut i: usize = 0;
    assert(v@.take(0) =~= Seq::<char>::empty());
    while i < v.len()
        invariant
            v@ == s@,
            i <= v@.len(),
            out@ == replace_char(v@.take(i as int), c, by@),
        decreases v@.len() - i,
    {
        let ghost before = out@;
        if v[i] == c {
            out.append(by);
        } else {
            out.push(v[i]);
            assert(out@ =~= before + seq![v@[i as int]]);
        }
        i = i + 1;
        assert(v@.take(i as int).drop_last() =~= v@.take(i - 1));
        assert(v@.take(i as int).last() == v@[i - 1]);
    }
    assert(v@.take(i as int) =~= v@);
    out
}

/// `s` with each occurrence of `needle` replaced by `by`.
pub fn replace_text(s: &str, needle: &str, by: &str) -> (r: String)
    requires
        needle@.len() > 0,
    ensures
        r@ == replace_all(s@, needle@, by@),
{
    let v = chars_of(s);
    let n = chars_of(needle);
    let mut out = String::new();
    let mut i: usize = 0;
    assert(v@.skip(0) =~= v@);
    assert(out@ + replace_all(s@, needle@, by@) =~= replace_all(s@, needle@, by@));
    while n.len() <= v.len() - i
        invariant
            v@ == s@,
            n@ == needle@,
            n@.len() > 0,
            i <= v@.len(),
            out@ + replace_all(v@.skip(i as int), needle@, by@) == replace_all(s@, needle@, by@),
        decreases v@.len() - i,
    {
        let ghost before = out@;
        let ghost rest = v@.skip(i as int);
        if range_is(&v, i, &n) {
            assert(rest.subrange(0, n@.len() as int) =~= v@.subrange(i as int, i + n@.len()));
            out.append(by);
            i = i + n.len();
            assert(rest.skip(n@.len() as int) =~= v@.skip(i as int));
            assert(before + (by@ + replace_all(v@.skip(i as int), needle@, by@)) =~= out@
                + replace_all(v@.skip(i as int), needle@, by@));
        } else {
            assert(rest.subrange(0, n@.len() as int) =~= v@.subrange(i as int, i + n@.len()));
            out.push(v[i]);
            i = i + 1;
            assert(rest.drop_first() =~= v@.skip(i as int));
            assert(before + (seq![rest[0]] + replace_all(v@.skip(i as int), needle@, by@)) =~= out@
                + replace_all(v@.skip(i as int), needle@, by@));
        }
    }
    let tail = text_of_range(&v, i, v.len());
    assert(tail@ =~= v@.skip(i as int));
    out.append(&tail);
    out
}

/// `n` in decimal.
pub fn decimal_text(n: u64) -> (r: String)
    ensures
        r@ == decimal(n as nat),
    decreases n,
{
    let mut s = if n < 10 {
        String::new()
    } else {
        decimal_text(n / 10)
    };
    let d: u8 = (n % 10) as u8;
    let c: char = (48u8 + d) as char;
    assert(c == digit_char((n % 10) as nat));
    s.push(c);
    if n < 10 {
        assert(s@ =~= seq![digit_char(n as nat)]);
    }
    s
}

/// The unsigned number that `s` stands for, if it is at most `max`.
pub fn parse_unsigned(s: &str, max: u64) -> (r: Option<u64>)
    ensures
        r is Some <==> parsed_unsigned(s@, max as nat) is Some,
        r is Some ==> r->0 == parsed_unsigned(s@, max as nat)->0 && r->0 <= max,
{
    let v = chars_of(s);
    let start: usize = if v.len() > 0 && v[0] == '+' {
        1
    } else {
        0
    };
    let ghost body = if s@.len() > 0 && s@[0] == '+' {
        s@.drop_first()
    } else {
        s@
    };
    assert(body =~= v@.skip(start as int));
    if start == v.len() {
        return None;
    }
    let mut i: usize = start;
    let mut n: u64 = 0;
    assert(body.take(0) =~= Seq::<char>::empty());
    while i < v.len()
        invariant
            v@ == s@,
            start <= i <= v@.len(),
            start <= 1,
            body == v@.skip(start as int),
            body == (if s@.len() > 0 && s@[0] == '+' {
                s@.drop_first()
            } else {
                s@
            }),
            forall|j: int| 0 <= j < i - start ==> is_digit(#[trigger] body[j]),
            n == digits_value(body.take(i - start)),
            n <= max,
        decreases v@.len() - i,
    {
        let c = v[i];
        let ghost k = i - start;
        assert(body[k] == c);
        if !('0' <= c && c <= '9') {
            assert(!is_digit(body[k]));
            return None;
        }
        let d: u64 = (c as u32 - 48) as u64;
        assert(body.take(k + 1).drop_last() =~= body.take(k));
        assert(body.take(k + 1).last() == c);
        assert(digits_value(body.take(k + 1)) == n * 10 + d);
        if n > max / 10 || d > max - n * 10 {
            proof {
                assert(n * 10 + d > max);
                lemma_digits_value_grows(body, k + 1);
            }
            return None;
        }
        n = n * 10 + d;
        i = i + 1;
    }
    assert(body.take(i - start) =~= body);
    Some(n)
}

/// `a` comes before `b` in the order of their characters' code points.
pub fn comes_before(a: &str, b: &str) -> (r: bool)
    ensures
        r == precedes(a@, b@),
{
    let x = chars_of(a);
    let y = chars_of(b);
    let mut i: usize = 0;
    assert(x@.skip(0) =~= x@);
    assert(y@.skip(0) =~= y@);
    while i < x.len() && i < y.len() && x[i] == y[i]
        invariant
            i <= x@.len(),
            i <= y@.len(),
            precedes(x@, y@) == precedes(x@.skip(i as int), y@.skip(i as int)),
        decreases x@.len() - i,
    {
        assert(x@.skip(i as int).drop_first() =~= x@.skip(i + 1));
        assert(y@.skip(i as int).drop_first() =~= y@.skip(i + 1));
        i = i + 1;
    }
    if i == y.len() {
        false
    } else if i == x.len() {
        true
    } else {
        x[i] < y[i]
    }
}

/// A copy of a row of strings.
pub fn clone_texts(v: &Vec<String>) -> (r: Vec<String>)
    ensures
        texts(r@) == texts(v@),
        r@.len() == v@.len(),
{
    let mut out: Vec<String> = Vec::new();
    let mut i: usize = 0;
    while i < v.len()
        invariant
            i <= v@.len(),
            out@.len() == i,
            forall|j: int| 0 <= j < i ==> out@[j]@ == v@[j]@,
        decreases v@.len() - i,
    {
        out.push(v[i].clone());
        i = i + 1;
    }
    assert(texts(out@) =~= texts(v@));
    out
}

/// A copy of an optional string.
pub fn clone_opt(s: &Option<String>) -> (r: Option<String>)
    ensures
        opt_text(r) == opt_text(*s),
{
    match s {
        Some(t) => Some(t.clone()),
        None => None,
    }
}

/// `s` stands in the row `v`.
pub fn texts_contain(v: &Vec<String>, s: &str) -> (r: bool)
    ensures
        r == texts(v@).contains(s@),
{
    let mut i: usize = 0;
    while i < v.len()
        invariant
            i <= v@.len(),
            forall|j: int| 0 <= j < i ==> texts(v@)[j] != s@,
        decreases v@.len() - i,
    {
        if same_text(&v[i], s) {
            assert(texts(v@)[i as int] == s@);
            return true;
        }
        i = i + 1;
    }
    false
}

/// Trimming takes the white space at both ends, and nothing else.
pub proof fn law_trimmed_is_the_core(a: Seq<char>, s: Seq<char>, b: Seq<char>)
    requires
        s.len() > 0,
        !is_white_space(s[0]),
        !is_white_space(s.last()),
        forall|i: int| 0 <= i < a.len() ==> is_white_space(#[trigger] a[i]),
        forall|i: int| 0 <= i < b.len() ==> is_white_space(#[trigger] b[i]),
    ensures
        trimmed(a + s + b) == s,
    decreases a.len(),
{
    let w = |c: char| is_white_space(c);
    if a.len() > 0 {
        let t = a.drop_first();
        assert((a + s + b)[0] == a[0]);
        assert((a + s + b).drop_first() =~= t + s + b);
        assert forall|i: int| 0 <= i < t.len() implies is_white_space(#[trigger] t[i]) by {
            assert(t[i] == a[i + 1]);
        }
        law_trimmed_is_the_core(t, s, b);
    } else {
        assert(a + s + b =~= s + b);
        lemma_trimmed_behind(s, b);
        lemma_trim_end_all(b, w);
        assert(s + Seq::<char>::empty() =~= s);
    }
}

proof fn lemma_trim_end_all(b: Seq<char>, drop: spec_fn(char) -> bool)
    requires
        forall|i: int| 0 <= i < b.len() ==> drop(#[trigger] b[i]),
    ensures
        trim_end_where(b, drop) == Seq::<char>::empty(),
    decreases b.len(),
{
    if b.len() > 0 {
        let t = b.drop_last();
        assert forall|i: int| 0 <= i < t.len() implies drop(#[trigger] t[i]) by {
            assert(t[i] == b[i]);
        }
        lemma_trim_end_all(t, drop);
    } else {
        assert(b =~= Seq::<char>::empty());
    }
}

/// A text holds another exactly where it can be parted round it.
pub proof fn law_contained_text(a: Seq<char>, needle: Seq<char>, b: Seq<char>, s: Seq<char>)
    ensures
        contains_text(a + needle + b, needle),
        contains_text(s, needle) ==> s.len() >= needle.len(),
{
    let w = a + needle + b;
    let i = a.len() as int;
    assert(w.subrange(i, i + needle.len()) =~= needle);
    assert(occurs_at(w, needle, i));
}

/// What follows a text at the beginning of another is the rest of that, and nothing
/// follows a text that is not there.
pub proof fn law_behind_is_the_rest(needle: Seq<char>, b: Seq<char>, s: Seq<char>)
    ensures
        behind(needle + b, needle) == Some(b),
        behind(s, needle) is Some ==> contains_text(s, needle),
    decreases s.len(),
{
    let w = needle + b;
    assert(w.subrange(0, needle.len() as int) =~= needle);
    assert(w.skip(needle.len() as int) =~= b);
    if needle.is_prefix_of(s) {
        assert(occurs_at(s, needle, 0));
    } else if s.len() > 0 {
        let t = s.drop_first();
        law_behind_is_the_rest(needle, b, t);
        if behind(t, needle) is Some {
            let i = choose|i: int| occurs_at(t, needle, i);
            assert(t.subrange(i, i + needle.len()) =~= s.subrange(i + 1, i + 1 + needle.len()));
            assert(occurs_at(s, needle, i + 1));
        }
    }
}

/// Replacing a character replaces each of it and leaves the rest.
pub proof fn law_replaced_characters(a: Seq<char>, c: char, by: Seq<char>, b: Seq<char>)
    ensures
        replace_char(a + b, c, by) == replace_char(a, c, by) + replace_char(b, c, by),
        !a.contains(c) ==> replace_char(a, c, by) == a,
        replace_char(seq![c], c, by) == by,
    decreases a.len() + b.len(),
{
    if b.len() == 0 {
        assert(a + b =~= a);
        assert(replace_char(a, c, by) + Seq::<char>::empty() =~= replace_char(a, c, by));
        if a.len() > 0 && !a.contains(c) {
            let t = a.drop_last();
            assert(a.last() != c);
            assert(!t.contains(c)) by {
                if t.contains(c) {
                    let i = choose|i: int| 0 <= i < t.len() && t[i] == c;
                    assert(a[i] == c);
                }
            }
            law_replaced_characters(t, c, by, b);
            assert(t + seq![a.last()] =~= a);
        } else if a.len() == 0 {
            assert(replace_char(a, c, by) =~= a);
        }
    } else {
        law_replaced_characters(a, c, by, b.drop_last());
        assert((a + b).drop_last() =~= a + b.drop_last());
        assert((a + b).last() == b.last());
        let end = if b.last() == c {
            by
        } else {
            seq![b.last()]
        };
        assert(replace_char(a, c, by) + replace_char(b.drop_last(), c, by) + end
            =~= replace_char(a, c, by) + (replace_char(b.drop_last(), c, by) + end));
    }
    assert(seq![c].drop_last() =~= Seq::<char>::empty());
    reveal_with_fuel(replace_char, 2);
    assert(Seq::<char>::empty() + by =~= by);
}

/// Each occurrence of a text at the front is replaced, and a text that is shorter than
/// what is replaced stays.
pub proof fn law_replaced_text(needle: Seq<char>, by: Seq<char>, rest: Seq<char>)
    requires
        needle.len() > 0,
    ensures
        replace_all(needle + rest, needle, by) == by + replace_all(rest, needle, by),
        rest.len() < needle.len() ==> replace_all(rest, needle, by) == rest,
{
    let w = needle + rest;
    assert(w.subrange(0, needle.len() as int) =~= needle);
    assert(w.skip(needle.len() as int) =~= rest);
}

/// A capital letter of ASCII becomes its small one, and every other character stays.
pub proof fn law_lower_case(c: char)
    ensures
        'A' <= c <= 'Z' ==> ascii_lower(c) as u32 == c as u32 + 32,
        !('A' <= c <= 'Z') ==> ascii_lower(c) == c,
        ascii_lower('A') == 'a',
        ascii_lower('Z') == 'z',
{
}

} // verus!
