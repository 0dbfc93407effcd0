//! Paths as texts whose components stand between `/` characters.
//!
//! Empty pieces and `.` pieces are no components, except for the root of an
//! absolute path and a leading `.` of a relative one.
use vstd::prelude::*;
use crate::shared;
use crate::text;
use crate::text::{chars_of, owned, rfind_char, same_text, split, text_of_range};

verus! {

/// Piece `i` of a path is a component.
pub open spec fn is_component(pieces: Seq<Seq<char>>, i: int) -> bool {
    if i == 0 {
        pieces[0].len() > 0 || pieces.len() > 1
    } else {
        pieces[i].len() > 0 && pieces[i] != seq!['.']
    }
}

/// The components among the first `n` pieces. The root is the empty text.
pub open spec fn components(pieces: Seq<Seq<char>>, n: nat) -> Seq<Seq<char>>
    decreases n,
{
    if n == 0 || n > pieces.len() {
        Seq::empty()
    } else {
        let before = components(pieces, (n - 1) as nat);
        if is_component(pieces, n - 1) {
            before.push(pieces[n - 1])
        } else {
            before
        }
    }
}

/// The components of the path `p`.
pub open spec fn path_components(p: Seq<char>) -> Seq<Seq<char>> {
    components(text::split_on(p, '/'), text::split_on(p, '/').len())
}

/// `p` is relative, and no component of it leads upwards.
pub open spec fn stays_below(p: Seq<char>) -> bool {
    (p.len() > 0 ==> p[0] != '/') && !path_components(p).contains(seq!['.', '.'])
}

/// The number of pieces, from `from` on, up to and with component number `k`.
pub open spec fn after_components(pieces: Seq<Seq<char>>, k: nat, from: nat) -> nat
    decreases pieces.len() - from,
{
    if k == 0 || from >= pieces.len() {
        from
    } else if is_component(pieces, from as int) {
        after_components(pieces, (k - 1) as nat, from + 1)
    } else {
        after_components(pieces, k, from + 1)
    }
}

/// The first component from `from` on, or the number of pieces.
pub open spec fn next_component(pieces: Seq<Seq<char>>, from: nat) -> nat
    decreases pieces.len() - from,
{
    if from >= pieces.len() || is_component(pieces, from as int) {
        from
    } else {
        next_component(pieces, from + 1)
    }
}

/// One more than the last component below `to` that is not below `from`, or
/// `from`.
pub open spec fn end_of_components(pieces: Seq<Seq<char>>, from: nat, to: nat) -> nat
    decreases to,
{
    if to <= from {
        from
    } else if is_component(pieces, to - 1) {
        to
    } else {
        end_of_components(pieces, from, (to - 1) as nat)
    }
}

/// What follows the components of `base` in the path `p`, without leading or
/// trailing pieces that are no components; `None` where the components of
/// `base` do not begin `p`.
pub open spec fn relative_path(p: Seq<char>, base: Seq<char>) -> Option<Seq<char>> {
    let pieces = text::split_on(p, '/');
    let b = path_components(base);
    if !b.is_prefix_of(path_components(p)) {
        None
    } else {
        let start = if b.len() == 0 {
            0
        } else {
            next_component(pieces, after_components(pieces, b.len(), 0))
        };
        let end = end_of_components(pieces, start, pieces.len());
        if start == 0 && end == 1 && pieces[0].len() == 0 {
            Some(seq!['/'])
        } else {
            Some(text::join_with(pieces.subrange(start as int, end as int), '/'))
        }
    }
}

/// The name of the file at the path `p`: its last component, unless that is
/// the root, a leading `.` or `..`.
pub open spec fn file_name_of(p: Seq<char>) -> Option<Seq<char>> {
    let c = path_components(p);
    if c.len() == 0 || c.last().len() == 0 || c.last() == seq!['.'] || c.last() == seq!['.', '.'] {
        None
    } else {
        Some(c.last())
    }
}

/// The extension of the file at the path `p`: what follows the last dot of its
/// name, if a character precedes that dot.
pub open spec fn extension_of(p: Seq<char>) -> Option<Seq<char>> {
    match file_name_of(p) {
        Some(name) => if text::last_index_of_char(name, '.') <= 0 {
            None
        } else {
            Some(name.skip(text::last_index_of_char(name, '.') + 1))
        },
        None => None,
    }
}

/// Piece `i` is a component.
fn piece_is_component(pieces: &Vec<String>, i: usize) -> (r: bool)
    requires
        i < pieces@.len(),
    ensures
        r == is_component(text::texts(pieces@), i as int),
{
    proof {
        reveal_strlit(".");
        assert("."@ =~= seq!['.']);
        assert(text::texts(pieces@)[i as int] == pieces@[i as int]@);
    }
    if i == 0 {
        !pieces[0].as_str().is_empty() || pieces.len() > 1
    } else {
        !pieces[i].as_str().is_empty() && !same_text(&pieces[i], ".")
    }
}

/// The components of the path `p`.
pub fn components_of(p: &str) -> (r: Vec<String>)
    ensures
        text::texts(r@) == path_components(p@),
{
    let pieces = split(p, '/');
    let ghost parts = text::split_on(p@, '/');
    assert(parts.len() == pieces@.len());
    let mut out: Vec<String> = Vec::new();
    let mut i: usize = 0;
    assert(text::texts(out@) =~= Seq::<Seq<char>>::empty());
    while i < pieces.len()
        invariant
            i <= pieces@.len(),
            parts == text::texts(pieces@),
            text::texts(out@) == components(parts, i as nat),
        decreases pieces@.len() - i,
    {
        if piece_is_component(&pieces, i) {
            let ghost before = out@;
            assert(parts[i as int] == pieces@[i as int]@);
            out.push(pieces[i].clone());
            assert(text::texts(out@) =~= text::texts(before).push(parts[i as int]));
        }
        i = i + 1;
    }
    out
}

/// `p` is relative, and no component of it leads upwards.
pub fn is_safe_relative_path(p: &str) -> (r: bool)
    ensures
        r == stays_below(p@),
{
    proof {
        reveal_strlit("..");
        assert(".."@ =~= seq!['.', '.']);
    }
    let v = chars_of(p);
    if v.len() > 0 && v[0] == '/' {
        return false;
    }
    let c = components_of(p);
    !text::texts_contain(&c, "..")
}

/// `a` begins with the texts of `b`.
fn texts_start_with(a: &Vec<String>, b: &Vec<String>) -> (r: bool)
    ensures
        r == text::texts(b@).is_prefix_of(text::texts(a@)),
{
    let ghost x = text::texts(a@);
    let ghost y = text::texts(b@);
    if a.len() < b.len() {
        return false;
    }
    let mut i: usize = 0;
    while i < b.len()
        invariant
            i <= b@.len() <= a@.len(),
            x == text::texts(a@),
            y == text::texts(b@),
            forall|k: int| 0 <= k < i ==> x[k] == y[k],
        decreases b@.len() - i,
    {
        assert(x[i as int] == a@[i as int]@);
        assert(y[i as int] == b@[i as int]@);
        if !same_text(&a[i], &b[i]) {
            assert(x.subrange(0, y.len() as int)[i as int] != y[i as int]);
            return false;
        }
        i = i + 1;
    }
    assert(x.subrange(0, y.len() as int) =~= y);
    true
}

fn skip_components(pieces: &Vec<String>, k: usize) -> (r: usize)
    requires
        k > 0,
    ensures
        r <= pieces@.len(),
        r == next_component(
            text::texts(pieces@),
            after_components(text::texts(pieces@), k as nat, 0),
        ),
{
    let ghost parts = text::texts(pieces@);
    let mut left: usize = k;
    let mut i: usize = 0;
    while left > 0 && i < pieces.len()
        invariant
            i <= pieces@.len(),
            parts == text::texts(pieces@),
            after_components(parts, k as nat, 0) == after_components(parts, left as nat, i as nat),
        decreases pieces@.len() - i,
    {
        if piece_is_component(pieces, i) {
            left = left - 1;
        }
        i = i + 1;
    }
    while i < pieces.len() && !piece_is_component(pieces, i)
        invariant
            i <= pieces@.len(),
            parts == text::texts(pieces@),
            next_component(parts, after_components(parts, k as nat, 0)) == next_component(
                parts,
                i as nat,
            ),
        decreases pieces@.len() - i,
    {
        i = i + 1;
    }
    i
}

/// Joins `pieces[from..to]` with `/`.
fn join_pieces(pieces: &Vec<String>, from: usize, to: usize) -> (r: String)
    requires
        from <= to <= pieces@.len(),
    ensures
        r@ == text::join_with(
            text::texts(pieces@).subrange(from as int, to as int),
            '/',
        ),
    decreases to - from,
{
    let ghost parts = text::texts(pieces@).subrange(from as int, to as int);
    if from == to {
        return String::new();
    }
    assert(parts[0] == pieces@[from as int]@);
    if from + 1 == to {
        return pieces[from].clone();
    }
    let rest = join_pieces(pieces, from + 1, to);
    assert(parts.drop_first() =~= text::texts(pieces@).subrange(from + 1, to as int));
    let mut s = pieces[from].clone();
    s.push('/');
    s.append(&rest);
    assert(s@ =~= parts[0] + seq!['/'] + rest@);
    s
}

/// What follows the components of `base` in the path `p`.
pub fn relative_to(p: &str, base: &str) -> (r: Option<String>)
    ensures
        text::opt_text(r) == relative_path(p@, base@),
{
    proof {
        reveal_strlit("/");
        assert("/"@ =~= seq!['/']);
    }
    let a = components_of(p);
    let b = components_of(base);
    assert(text::texts(b@).len() == b@.len());
    if !texts_start_with(&a, &b) {
        return None;
    }
    let pieces = split(p, '/');
    let ghost parts = text::split_on(p@, '/');
    assert(parts.len() == pieces@.len());
    let start: usize = if b.len() == 0 {
        0
    } else {
        skip_components(&pieces, b.len())
    };
    let mut end: usize = pieces.len();
    while end > start && !piece_is_component(&pieces, end - 1)
        invariant
            start <= end <= pieces@.len(),
            parts == text::texts(pieces@),
            end_of_components(parts, start as nat, parts.len()) == end_of_components(
                parts,
                start as nat,
                end as nat,
            ),
        decreases end,
    {
        end = end - 1;
    }
    assert(parts[0] == pieces@[0]@);
    if start == 0 && end == 1 && pieces[0].as_str().is_empty() {
        Some(owned("/"))
    } else {
        Some(join_pieces(&pieces, start, end))
    }
}

/// The name of the file at the path `p`.
pub fn file_name(p: &str) -> (r: Option<String>)
    ensures
        text::opt_text(r) == file_name_of(p@),
{
    proof {
        reveal_strlit(".");
        reveal_strlit("..");
        assert("."@ =~= seq!['.']);
        assert(".."@ =~= seq!['.', '.']);
    }
    let c = components_of(p);
    assert(text::texts(c@).len() == c@.len());
    if c.len() == 0 {
        return None;
    }
    let last = &c[c.len() - 1];
    assert(text::texts(c@).last() == last@);
    if last.as_str().is_empty() || same_text(last, ".") || same_text(last, "..") {
        None
    } else {
        Some(last.clone())
    }
}

/// The extension of the file at the path `p`.
pub fn extension(p: &str) -> (r: Option<String>)
    ensures
        text::opt_text(r) == extension_of(p@),
{
    match file_name(p) {
        Some(name) => {
            let v = chars_of(&name);
            match rfind_char(&v, '.') {
                Some(k) => {
                    if k == 0 {
                        None
                    } else {
                        let n: usize = v.len();
                        let e = text_of_range(&v, k + 1, n);
                        assert(e@ =~= name@.skip(k + 1));
                        Some(e)
                    }
                },
                None => None,
            }
        },
        None => None,
    }
}

/// The path `p` with another extension for its file: in place of the one that it
/// has, or behind a name that has none. A path without a file stays.
pub open spec fn with_extension_of(p: Seq<char>, ext: Seq<char>) -> Seq<char> {
    match (file_name_of(p), extension_of(p)) {
        (Some(name), Some(old)) => p.take(p.len() - old.len()) + ext,
        (Some(name), None) => p + seq!['.'] + ext,
        _ => p,
    }
}

/// The path `p`, which ends in the name of its file, with another extension.
pub fn with_extension(p: &str, ext: &str) -> (r: String)
    requires
        file_name_of(p@) matches Some(name) ==> name.is_suffix_of(p@),
    ensures
        r@ == with_extension_of(p@, ext@),
{
    match (file_name(p), extension(p)) {
        (Some(name), Some(old)) => {
            let v = chars_of(p);
            let e = chars_of(&old);
            let n: usize = v.len();
            let m: usize = e.len();
            proof {
                text::lemma_last_index_of_char(name@, '.');
            }
            let stem = text_of_range(&v, 0, n - m);
            let r = text::concat2(&stem, ext);
            assert(stem@ =~= p@.take(p@.len() - old@.len()));
            r
        },
        (Some(_), None) => {
            proof {
                reveal_strlit(".");
            }
            let r = text::concat3(p, ".", ext);
            assert("."@ =~= seq!['.']);
            assert(r@ =~= p@ + seq!['.'] + ext@);
            r
        },
        _ => owned(p),
    }
}

proof fn lemma_components_concat(a: Seq<Seq<char>>, b: Seq<Seq<char>>, n: nat)
    requires
        a.len() > 1 || (a.len() == 1 && a[0].len() > 0),
        n <= b.len(),
        b.len() > 0,
    ensures
        components(a + b, a.len() + n) == components(a, a.len()) + components_behind(b, n),
    decreases n,
{
    if n == 0 {
        lemma_components_prefix(a, b, a.len());
        assert(components(a, a.len()) + components_behind(b, 0) =~= components(a, a.len()));
    } else {
        lemma_components_concat(a, b, (n - 1) as nat);
        let s = a + b;
        assert(s[a.len() + n - 1] == b[n - 1]);
        assert(components(s, a.len() + n) =~= components(a, a.len()) + components_behind(b, n));
    }
}

/// The components among the first `n` pieces of what is appended to a path.
pub open spec fn components_behind(b: Seq<Seq<char>>, n: nat) -> Seq<Seq<char>>
    decreases n,
{
    if n == 0 || n > b.len() {
        Seq::empty()
    } else {
        let before = components_behind(b, (n - 1) as nat);
        if b[n - 1].len() > 0 && b[n - 1] != seq!['.'] {
            before.push(b[n - 1])
        } else {
            before
        }
    }
}

proof fn lemma_components_prefix(a: Seq<Seq<char>>, b: Seq<Seq<char>>, n: nat)
    requires
        n <= a.len(),
        a.len() > 1 || (a.len() == 1 && a[0].len() > 0),
    ensures
        components(a + b, n) == components(a, n),
    decreases n,
{
    if n > 0 {
        lemma_components_prefix(a, b, (n - 1) as nat);
        assert((a + b)[n - 1] == a[n - 1]);
    }
}

proof fn lemma_split_concat(dir: Seq<char>, p: Seq<char>)
    ensures
        text::split_on(dir + seq!['/'] + p, '/') == text::split_on(dir, '/') + text::split_on(
            p,
            '/',
        ),
    decreases dir.len(),
{
    text::lemma_index_of_char(dir, '/');
    let k = text::index_of_char(dir, '/');
    text::lemma_split_on_step(dir, '/');
    if k >= dir.len() {
        assert(!dir.contains('/'));
        text::lemma_split_on_head(dir, '/', p);
    } else {
        let head = dir.take(k);
        let rest = dir.skip(k + 1);
        assert(!head.contains('/'));
        lemma_split_concat(rest, p);
        assert(dir + seq!['/'] + p =~= head + seq!['/'] + (rest + seq!['/'] + p));
        text::lemma_split_on_head(head, '/', rest + seq!['/'] + p);
        assert(seq![head] + (text::split_on(rest, '/') + text::split_on(p, '/')) =~= (seq![head]
            + text::split_on(rest, '/')) + text::split_on(p, '/'));
    }
}

proof fn lemma_no_parent_behind(b: Seq<Seq<char>>, n: nat)
    requires
        n <= b.len(),
        !components(b, n).contains(seq!['.', '.']),
    ensures
        !components_behind(b, n).contains(seq!['.', '.']),
    decreases n,
{
    if n > 0 {
        let x = components(b, (n - 1) as nat);
        let y = components_behind(b, (n - 1) as nat);
        let up = seq!['.', '.'];
        assert(!x.contains(up)) by {
            if x.contains(up) {
                let i = choose|i: int| 0 <= i < x.len() && x[i] == up;
                assert(components(b, n)[i] == up);
            }
        }
        lemma_no_parent_behind(b, (n - 1) as nat);
        if b[n - 1] == up {
            assert(is_component(b, n - 1));
            assert(components(b, n).last() == up);
        }
        let z = components_behind(b, n);
        assert forall|i: int| 0 <= i < z.len() implies z[i] != up by {
            if i < y.len() {
                assert(z[i] == y[i]);
            }
        }
    }
}

/// A path that stays below leads, joined to a directory, to a path that begins
/// with the components of that directory and goes upwards no further than the
/// directory's own path does.
pub proof fn law_safe_path_stays_in_directory(dir: Seq<char>, p: Seq<char>)
    requires
        dir.len() > 0,
        dir.last() != '/',
        stays_below(p),
    ensures
        ({
            let whole = path_components(crate::shared::joined(dir, p));
            let base = path_components(dir);
            &&& base.is_prefix_of(whole)
            &&& !whole.skip(base.len() as int).contains(seq!['.', '.'])
        }),
{
    let a = text::split_on(dir, '/');
    let b = text::split_on(p, '/');
    text::lemma_split_on_step(dir, '/');
    text::lemma_split_on_step(p, '/');
    text::lemma_index_of_char(dir, '/');
    if a.len() == 1 {
        text::lemma_split_join(dir, '/');
        assert(a[0] == dir);
    }
    lemma_split_concat(dir, p);
    lemma_components_concat(a, b, b.len());
    lemma_no_parent_behind(b, b.len());
    let whole = path_components(crate::shared::joined(dir, p));
    let base = path_components(dir);
    assert(whole == base + components_behind(b, b.len()));
    assert(whole.subrange(0, base.len() as int) =~= base);
    assert(whole.skip(base.len() as int) =~= components_behind(b, b.len()));
}

proof fn lemma_after_components(pieces: Seq<Seq<char>>, a: nat, from: nat, k: nat)
    requires
        from <= a <= pieces.len(),
        components(pieces, a).len() == components(pieces, from).len() + k,
    ensures
        from <= after_components(pieces, k, from) <= a,
        components(pieces, after_components(pieces, k, from)).len() == components(
            pieces,
            a,
        ).len(),
    decreases a - from,
{
    if k > 0 {
        if from == a {
        } else {
            assert(components(pieces, from + 1).len() == components(pieces, from).len() + if is_component(
                pieces,
                from as int,
            ) {
                1int
            } else {
                0int
            });
            lemma_components_grow(pieces, from + 1, a);
            if is_component(pieces, from as int) {
                lemma_after_components(pieces, a, from + 1, (k - 1) as nat);
            } else {
                lemma_after_components(pieces, a, from + 1, k);
            }
        }
    }
}

proof fn lemma_components_grow(pieces: Seq<Seq<char>>, from: nat, to: nat)
    requires
        from <= to <= pieces.len(),
    ensures
        components(pieces, from).len() <= components(pieces, to).len(),
    decreases to - from,
{
    if from < to {
        lemma_components_grow(pieces, from, (to - 1) as nat);
    }
}

proof fn lemma_next_component(pieces: Seq<Seq<char>>, from: nat, a: nat)
    requires
        from <= a < pieces.len(),
        components(pieces, from).len() == components(pieces, a).len(),
        is_component(pieces, a as int),
    ensures
        next_component(pieces, from) == a,
    decreases a - from,
{
    if from < a {
        lemma_components_grow(pieces, from + 1, a);
        if is_component(pieces, from as int) {
            assert(components(pieces, from + 1).len() == components(pieces, from).len() + 1);
        }
        lemma_next_component(pieces, from + 1, a);
    }
}

/// A relative path in its plain form: each piece of it is a name.
pub open spec fn is_plain(p: Seq<char>) -> bool {
    let pieces = text::split_on(p, '/');
    forall|i: int|
        0 <= i < pieces.len() ==> (#[trigger] pieces[i]).len() > 0 && pieces[i] != seq!['.']
}

/// What follows a directory in the path of a file below it is the path by which
/// the file was reached.
pub proof fn law_joined_path_is_relative(dir: Seq<char>, p: Seq<char>)
    requires
        dir.len() > 0,
        dir.last() != '/',
        is_plain(p),
    ensures
        shared::joined(dir, p) == dir + seq!['/'] + p,
        relative_path(shared::joined(dir, p), dir) == Some(p),
{
    let a = text::split_on(dir, '/');
    let b = text::split_on(p, '/');
    text::lemma_split_on_step(dir, '/');
    text::lemma_split_on_step(p, '/');
    text::lemma_index_of_char(dir, '/');
    text::lemma_index_of_char(p, '/');
    text::lemma_split_join(dir, '/');
    text::lemma_split_join(p, '/');
    assert(b[0].len() > 0);
    if p.len() > 0 && p[0] == '/' {
        text::lemma_index_of_char_is(p, '/', 0);
        assert(b[0] =~= p.take(0));
    }
    if a.len() == 1 {
        assert(a[0] == dir);
    }
    lemma_split_concat(dir, p);
    let pieces = a + b;
    let whole = shared::joined(dir, p);
    assert(whole == dir + seq!['/'] + p);
    assert(text::split_on(whole, '/') == pieces);
    lemma_components_concat(a, b, b.len());
    lemma_components_prefix(a, b, a.len());
    let base = path_components(dir);
    assert(path_components(whole) == base + components_behind(b, b.len()));
    assert(path_components(whole).subrange(0, base.len() as int) =~= base);
    assert(is_component(a, 0));
    lemma_components_grow(a, 1, a.len());
    assert(components(a, 0).len() == 0);
    assert(components(a, 1) == components(a, 0).push(a[0]));
    assert(components(pieces, 0).len() == 0);
    lemma_after_components(pieces, a.len(), 0, base.len());
    let from = after_components(pieces, base.len(), 0);
    assert(pieces[a.len() as int] == b[0]);
    assert(is_component(pieces, a.len() as int));
    lemma_next_component(pieces, from, a.len());
    assert(pieces[pieces.len() - 1] == b[b.len() - 1]);
    assert(is_component(pieces, pieces.len() - 1));
    assert(end_of_components(pieces, a.len(), pieces.len()) == pieces.len());
    assert(pieces.subrange(a.len() as int, pieces.len() as int) =~= b);
}

proof fn lemma_plain_prefix(pieces: Seq<Seq<char>>, n: nat)
    requires
        n <= pieces.len(),
        forall|i: int|
            0 <= i < pieces.len() ==> (#[trigger] pieces[i]).len() > 0 && pieces[i] != seq!['.'],
    ensures
        components(pieces, n) == pieces.take(n as int),
    decreases n,
{
    if n == 0 {
        assert(pieces.take(0) =~= Seq::<Seq<char>>::empty());
    } else {
        lemma_plain_prefix(pieces, (n - 1) as nat);
        assert(pieces[n - 1].len() > 0);
        assert(pieces.take(n as int) =~= pieces.take(n - 1).push(pieces[n - 1]));
    }
}

/// The components of a path in its plain form are its pieces.
pub proof fn lemma_plain_components(p: Seq<char>)
    requires
        is_plain(p),
    ensures
        path_components(p) == text::split_on(p, '/'),
{
    let pieces = text::split_on(p, '/');
    lemma_plain_prefix(pieces, pieces.len());
    assert(pieces.take(pieces.len() as int) =~= pieces);
}

proof fn lemma_components_agree(x: Seq<Seq<char>>, y: Seq<Seq<char>>, n: nat)
    requires
        n <= x.len(),
        n <= y.len(),
        x.len() > 1,
        y.len() > 1,
        forall|i: int| 0 <= i < n ==> x[i] == y[i],
    ensures
        components(x, n) == components(y, n),
    decreases n,
{
    if n > 0 {
        lemma_components_agree(x, y, (n - 1) as nat);
    }
}

proof fn lemma_components_appended(a: Seq<Seq<char>>, b: Seq<Seq<char>>, n: nat)
    requires
        a.len() > 0,
        n <= b.len(),
        forall|i: int| 0 <= i < b.len() ==> (#[trigger] b[i]).len() > 0 && b[i] != seq!['.'],
    ensures
        components(a + b, a.len() + n) == components(a + b, a.len()) + b.take(n as int),
    decreases n,
{
    let s = a + b;
    if n == 0 {
        assert(components(s, a.len()) + b.take(0) =~= components(s, a.len()));
    } else {
        lemma_components_appended(a, b, (n - 1) as nat);
        assert(s[a.len() + n - 1] == b[n - 1]);
        assert(b.take(n as int) =~= b.take(n - 1).push(b[n - 1]));
        assert(components(s, a.len() + n) =~= components(s, a.len()) + b.take(n as int));
    }
}

/// The components of a file below a directory are those of the directory and then
/// those of the path by which the file was reached.
pub proof fn law_joined_components(dir: Seq<char>, p: Seq<char>)
    requires
        is_plain(p),
    ensures
        path_components(shared::joined(dir, p)) == path_components(dir) + text::split_on(p, '/'),
{
    let b = text::split_on(p, '/');
    text::lemma_split_on_step(p, '/');
    text::lemma_index_of_char(p, '/');
    assert(b[0].len() > 0);
    if p.len() > 0 && p[0] == '/' {
        text::lemma_index_of_char_is(p, '/', 0);
        assert(b[0] =~= p.take(0));
    }
    assert(b.take(b.len() as int) =~= b);
    let whole = shared::joined(dir, p);
    if dir.len() == 0 {
        assert(whole =~= p);
        lemma_plain_components(p);
        text::lemma_split_on_none(dir, '/');
        assert(text::split_on(dir, '/') =~= seq![dir]);
        assert(components(seq![dir], 0) =~= Seq::<Seq<char>>::empty());
        assert(components(seq![dir], 1) =~= Seq::<Seq<char>>::empty());
        assert(path_components(dir) + b =~= b);
    } else if dir.last() == '/' {
        let d = dir.drop_last();
        let none = Seq::<char>::empty();
        assert(dir =~= d + seq!['/'] + none);
        assert(whole =~= d + seq!['/'] + p);
        lemma_split_concat(d, none);
        lemma_split_concat(d, p);
        text::lemma_split_on_none(none, '/');
        let a = text::split_on(d, '/');
        text::lemma_split_on_step(d, '/');
        text::lemma_index_of_char(d, '/');
        assert(a.len() > 0);
        let x = a + text::split_on(none, '/');
        assert(text::split_on(none, '/') =~= seq![none]);
        lemma_components_appended(a, b, b.len());
        lemma_components_agree(x, a + b, a.len());
        assert(x[a.len() as int] == none);
        assert(components(x, x.len()) == components(x, a.len()));
    } else {
        lemma_split_concat(dir, p);
        let a = text::split_on(dir, '/');
        text::lemma_split_on_step(dir, '/');
        text::lemma_index_of_char(dir, '/');
        if a.len() == 1 {
            text::lemma_split_join(dir, '/');
            assert(a[0] == dir);
        }
        lemma_components_appended(a, b, b.len());
        lemma_components_prefix(a, b, a.len());
    }
}

/// A name in front of a plain path gives a plain path.
pub proof fn lemma_plain_below(name: Seq<char>, p: Seq<char>)
    requires
        name.len() > 0,
        !name.contains('/'),
        name != seq!['.'],
        is_plain(p),
    ensures
        is_plain(name + seq!['/'] + p),
        text::split_on(name + seq!['/'] + p, '/') == seq![name] + text::split_on(p, '/'),
{
    text::lemma_split_on_head(name, '/', p);
    let pieces = text::split_on(name + seq!['/'] + p, '/');
    let rest = text::split_on(p, '/');
    assert forall|i: int| 0 <= i < pieces.len() implies (#[trigger] pieces[i]).len() > 0
        && pieces[i] != seq!['.'] by {
        if i > 0 {
            assert(pieces[i] == rest[i - 1]);
        }
    }
}

/// What is appended to a directory behind a `/` lies below that directory.
pub proof fn lemma_lies_below(dir: Seq<char>, q: Seq<char>)
    requires
        dir.len() > 0,
    ensures
        relative_path(dir + seq!['/'] + q, dir) is Some,
        path_components(dir).len() > 0,
{
    let a = text::split_on(dir, '/');
    let b = text::split_on(q, '/');
    text::lemma_split_on_step(dir, '/');
    text::lemma_split_on_step(q, '/');
    text::lemma_index_of_char(dir, '/');
    if a.len() == 1 {
        text::lemma_split_join(dir, '/');
        assert(a[0] == dir);
    }
    lemma_split_concat(dir, q);
    lemma_components_concat(a, b, b.len());
    let whole = path_components(dir + seq!['/'] + q);
    let base = path_components(dir);
    assert(whole == base + components_behind(b, b.len()));
    assert(whole.subrange(0, base.len() as int) =~= base);
    assert(is_component(a, 0));
    lemma_components_grow(a, 1, a.len());
    assert(components(a, 0).len() == 0);
    assert(components(a, 1) == components(a, 0).push(a[0]));
}

/// The components of a directory begin the path of what lies below it.
pub proof fn lemma_begins_what_is_below(dir: Seq<char>, rel: Seq<char>)
    requires
        dir.len() > 0,
        dir.last() != '/',
        rel.len() > 0 ==> rel[0] != '/',
    ensures
        path_components(dir).is_prefix_of(path_components(shared::joined(dir, rel))),
{
    let a = text::split_on(dir, '/');
    let b = text::split_on(rel, '/');
    text::lemma_split_on_step(dir, '/');
    text::lemma_split_on_step(rel, '/');
    text::lemma_index_of_char(dir, '/');
    if a.len() == 1 {
        text::lemma_split_join(dir, '/');
        assert(a[0] == dir);
    }
    lemma_split_concat(dir, rel);
    assert(shared::joined(dir, rel) =~= dir + seq!['/'] + rel);
    lemma_components_concat(a, b, b.len());
    assert(path_components(dir) =~= path_components(shared::joined(dir, rel)).take(
        path_components(dir).len() as int,
    ));
}

proof fn lemma_after_is_behind(pieces: Seq<Seq<char>>, k: nat, from: nat)
    ensures
        after_components(pieces, k, from) >= from,
        from <= pieces.len() ==> after_components(pieces, k, from) <= pieces.len(),
    decreases pieces.len() - from,
{
    if k > 0 && from < pieces.len() {
        if is_component(pieces, from as int) {
            lemma_after_is_behind(pieces, (k - 1) as nat, from + 1);
        } else {
            lemma_after_is_behind(pieces, k, from + 1);
        }
    }
}

proof fn lemma_next_is_component(pieces: Seq<Seq<char>>, from: nat)
    ensures
        next_component(pieces, from) >= from,
        from <= pieces.len() ==> next_component(pieces, from) <= pieces.len(),
        next_component(pieces, from) < pieces.len() ==> is_component(
            pieces,
            next_component(pieces, from) as int,
        ),
    decreases pieces.len() - from,
{
    if from < pieces.len() && !is_component(pieces, from as int) {
        lemma_next_is_component(pieces, from + 1);
    }
}

proof fn lemma_end_between(pieces: Seq<Seq<char>>, from: nat, to: nat)
    ensures
        end_of_components(pieces, from, to) >= from,
        end_of_components(pieces, from, to) <= if to > from {
            to
        } else {
            from
        },
    decreases to,
{
    if to > from && !is_component(pieces, to - 1) {
        lemma_end_between(pieces, from, (to - 1) as nat);
    }
}

/// What follows a directory in a path is a relative path.
pub proof fn lemma_rest_is_relative(p: Seq<char>, base: Seq<char>)
    requires
        base.len() > 0,
        relative_path(p, base) is Some,
    ensures
        ({
            let rel = relative_path(p, base)->0;
            rel.len() > 0 ==> rel[0] != '/'
        }),
{
    let pieces = text::split_on(p, '/');
    let b = path_components(base);
    lemma_lies_below(base, Seq::empty());
    text::lemma_split_on_step(p, '/');
    text::lemma_split_join(p, '/');
    if is_component(pieces, 0) {
        lemma_after_is_behind(pieces, (b.len() - 1) as nat, 1);
    } else {
        lemma_after_is_behind(pieces, b.len(), 1);
    }
    let after = after_components(pieces, b.len(), 0);
    assert(after >= 1);
    lemma_next_is_component(pieces, after);
    let start = next_component(pieces, after);
    lemma_end_between(pieces, start, pieces.len());
    let end = end_of_components(pieces, start, pieces.len());
    if start < end {
        let part = pieces.subrange(start as int, end as int);
        assert(part[0] == pieces[start as int]);
        assert(!part[0].contains('/'));
        assert(part[0].contains(part[0][0]));
        assert(text::join_with(part, '/')[0] == part[0][0]);
    } else {
        assert(pieces.subrange(start as int, end as int).len() == 0);
    }
}

/// A plain path below a plain path is plain.
pub proof fn lemma_plain_joined(dir: Seq<char>, p: Seq<char>)
    requires
        is_plain(dir),
        is_plain(p),
    ensures
        dir.len() > 0,
        dir.last() != '/',
        shared::joined(dir, p) == dir + seq!['/'] + p,
        is_plain(dir + seq!['/'] + p),
{
    let a = text::split_on(dir, '/');
    let b = text::split_on(p, '/');
    lemma_split_concat(dir, p);
    text::lemma_split_on_step(dir, '/');
    text::lemma_index_of_char(dir, '/');
    assert(a[0].len() > 0);
    if dir.last() == '/' {
        let front = dir.drop_last();
        let empty = Seq::<char>::empty();
        assert(dir =~= front + seq!['/'] + empty);
        lemma_split_concat(front, empty);
        text::lemma_split_on_none(empty, '/');
        assert(a[a.len() - 1].len() == 0);
    }
    let pieces = text::split_on(dir + seq!['/'] + p, '/');
    assert forall|i: int| 0 <= i < pieces.len() implies (#[trigger] pieces[i]).len() > 0
        && pieces[i] != seq!['.'] by {
        if i < a.len() {
            assert(pieces[i] == a[i]);
        } else {
            assert(pieces[i] == b[i - a.len()]);
        }
    }
    law_joined_path_is_relative(dir, p);
}

proof fn lemma_first_component(pieces: Seq<Seq<char>>, n: nat)
    requires
        0 < n <= pieces.len(),
        is_component(pieces, 0),
    ensures
        components(pieces, n).len() > 0,
        components(pieces, n)[0] == pieces[0],
    decreases n,
{
    if n == 1 {
        assert(components(pieces, 0) =~= Seq::<Seq<char>>::empty());
        assert(components(pieces, 1) == components(pieces, 0).push(pieces[0]));
    } else {
        lemma_first_component(pieces, (n - 1) as nat);
    }
}

/// A relative path does not lie below an absolute one.
pub proof fn lemma_relative_not_below(base: Seq<char>, p: Seq<char>)
    requires
        base.len() > 0,
        base[0] == '/',
        p.len() > 0,
        p[0] != '/',
    ensures
        relative_path(p, base) is None,
{
    let a = text::split_on(base, '/');
    let b = text::split_on(p, '/');
    text::lemma_index_of_char_is(base, '/', 0);
    text::lemma_index_of_char(p, '/');
    text::lemma_split_on_step(base, '/');
    text::lemma_split_on_step(p, '/');
    assert(a[0] =~= base.take(0));
    let rest = base.skip(1);
    text::lemma_split_on_step(rest, '/');
    assert(a.len() > 1);
    assert(b[0].len() > 0);
    lemma_first_component(a, a.len());
    lemma_first_component(b, b.len());
    if path_components(base).is_prefix_of(path_components(p)) {
        assert(path_components(p).subrange(0, path_components(base).len() as int)[0]
            == path_components(base)[0]);
        assert(path_components(p)[0] == path_components(base)[0]);
        assert(b[0].len() == a[0].len());
    }
}

/// The name of a file in a directory is what follows the directory, and its
/// extension what follows the last dot of its name.
pub proof fn law_name_and_extension(dir: Seq<char>, stem: Seq<char>, ext: Seq<char>)
    requires
        dir.len() > 0,
        dir.last() != '/',
        stem.len() > 0,
        !stem.contains('/'),
        !ext.contains('/'),
        !ext.contains('.'),
        stem != seq!['.'] || ext.len() > 0,
    ensures
        file_name_of(dir + seq!['/'] + stem + seq!['.'] + ext) == Some(stem + seq!['.'] + ext),
        extension_of(dir + seq!['/'] + stem + seq!['.'] + ext) == Some(ext),
{
    let name = stem + seq!['.'] + ext;
    assert forall|j: int| 0 <= j < name.len() implies #[trigger] name[j] != '/' by {
        if j < stem.len() {
            assert(name[j] == stem[j]);
        } else if j > stem.len() {
            assert(name[j] == ext[j - stem.len() - 1]);
        }
    }
    text::lemma_split_on_none(name, '/');
    assert(name.len() >= 2);
    assert(is_plain(name));
    law_joined_path_is_relative(dir, name);
    law_joined_components(dir, name);
    let whole = dir + seq!['/'] + name;
    assert(dir + seq!['/'] + stem + seq!['.'] + ext =~= whole);
    let c = path_components(whole);
    assert(c.last() == name);
    assert forall|j: int| stem.len() < j < name.len() implies #[trigger] name[j] != '.' by {
        assert(name[j] == ext[j - stem.len() - 1]);
    }
    text::lemma_last_index_of_char_is(name, '.', stem.len() as int);
    assert(name.skip(stem.len() as int + 1) =~= ext);
    if name == seq!['.', '.'] {
        assert(name[0] == stem[0]);
        assert(stem =~= seq!['.']);
    }
}

/// Giving a file another extension keeps its directory and its stem.
pub proof fn law_new_extension(dir: Seq<char>, stem: Seq<char>, ext: Seq<char>, new: Seq<char>)
    requires
        dir.len() > 0,
        dir.last() != '/',
        stem.len() > 0,
        !stem.contains('/'),
        !ext.contains('/'),
        !ext.contains('.'),
        stem != seq!['.'] || ext.len() > 0,
    ensures
        with_extension_of(dir + seq!['/'] + stem + seq!['.'] + ext, new) == dir + seq!['/'] + stem
            + seq!['.'] + new,
{
    law_name_and_extension(dir, stem, ext);
    let p = dir + seq!['/'] + stem + seq!['.'] + ext;
    assert(p.take(p.len() - ext.len()) + new =~= dir + seq!['/'] + stem + seq!['.'] + new);
}

} // verus!
