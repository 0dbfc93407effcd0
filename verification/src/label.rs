//! Labels on button images: how a text is broken into lines, at which size and
//! where it is drawn, and which of its pixels are set.
use vstd::prelude::*;
use crate::shared::TextPlacement;
use crate::text;
use crate::text::{chars_of, find_char, trim, white_space};

verus! {

// ---------------------------------------------------------------------------
// Words and lines
// ---------------------------------------------------------------------------

/// The length of the word at the start of `s`.
pub open spec fn word_len(s: Seq<char>) -> nat
    decreases s.len(),
{
    if s.len() == 0 || text::is_white_space(s[0]) {
        0
    } else {
        1 + word_len(s.drop_first())
    }
}

/// The words of a text: its longest pieces without white space.
pub open spec fn words(s: Seq<char>) -> Seq<Seq<char>>
    decreases s.len(),
{
    if s.len() == 0 {
        Seq::empty()
    } else if text::is_white_space(s[0]) {
        words(s.drop_first())
    } else {
        let n = 1 + word_len(s.drop_first());
        if n >= s.len() {
            seq![s]
        } else {
            seq![s.take(n as int)] + words(s.skip(n as int))
        }
    }
}

proof fn lemma_word_len(s: Seq<char>, n: nat)
    requires
        n <= s.len(),
        forall|i: int| 0 <= i < n ==> !text::is_white_space(#[trigger] s[i]),
        n < s.len() ==> text::is_white_space(s[n as int]),
    ensures
        word_len(s) == n,
    decreases s.len(),
{
    if n > 0 {
        let t = s.drop_first();
        assert(!text::is_white_space(s[0]));
        assert forall|i: int| 0 <= i < n - 1 implies !text::is_white_space(#[trigger] t[i]) by {
            assert(t[i] == s[i + 1]);
        }
        lemma_word_len(t, (n - 1) as nat);
    }
}

/// The words of a text.
pub fn split_words(s: &str) -> (r: Vec<Vec<char>>)
    ensures
        r@.map_values(|w: Vec<char>| w@) == words(s@),
        r@.len() == words(s@).len(),
{
    let v = chars_of(s);
    let mut out: Vec<Vec<char>> = Vec::new();
    let mut i: usize = 0;
    assert(v@.skip(0) =~= v@);
    assert(out@.map_values(|w: Vec<char>| w@) + words(v@) =~= words(v@));
    while i < v.len()
        invariant
            v@ == s@,
            i <= v@.len(),
            out@.map_values(|w: Vec<char>| w@) + words(v@.skip(i as int)) == words(s@),
        decreases v@.len() - i,
    {
        let ghost rest = v@.skip(i as int);
        assert(rest[0] == v@[i as int]);
        if white_space(v[i]) {
            assert(rest.drop_first() =~= v@.skip(i + 1));
            i = i + 1;
        } else {
            let start: usize = i;
            let mut word: Vec<char> = Vec::new();
            word.push(v[i]);
            i = i + 1;
            while i < v.len() && !white_space(v[i])
                invariant
                    start < i <= v@.len(),
                    word@ == v@.subrange(start as int, i as int),
                    forall|k: int| start <= k < i ==> !text::is_white_space(#[trigger] v@[k]),
                decreases v@.len() - i,
            {
                word.push(v[i]);
                i = i + 1;
                assert(word@ =~= v@.subrange(start as int, i as int));
            }
            let ghost t = rest.drop_first();
            let ghost n = (i - start) as nat;
            proof {
                assert forall|k: int| 0 <= k < n - 1 implies !text::is_white_space(
                    #[trigger] t[k],
                ) by {
                    assert(t[k] == v@[start + 1 + k]);
                }
                lemma_word_len(t, (n - 1) as nat);
                if n >= rest.len() {
                    assert(word@ =~= rest);
                    assert(v@.skip(i as int) =~= Seq::<char>::empty());
                } else {
                    assert(rest.take(n as int) =~= word@);
                    assert(rest.skip(n as int) =~= v@.skip(i as int));
                }
            }
            let ghost before = out@.map_values(|w: Vec<char>| w@);
            out.push(word);
            proof {
                let now = out@.map_values(|w: Vec<char>| w@);
                assert(now =~= before.push(word@));
                assert(now + words(v@.skip(i as int)) =~= before + (seq![word@] + words(
                    v@.skip(i as int),
                )));
                if n >= rest.len() {
                    assert(words(v@.skip(i as int)) =~= Seq::empty());
                    assert(seq![word@] + words(v@.skip(i as int)) =~= seq![rest]);
                }
            }
        }
    }
    assert(v@.skip(i as int) =~= Seq::<char>::empty());
    assert(out@.map_values(|w: Vec<char>| w@) =~= words(s@));
    out
}

/// Lines that are full, and the line that is being filled.
pub struct Wrapped {
    pub lines: Seq<Seq<char>>,
    pub current: Seq<char>,
}

/// The lines with a long word broken into pieces of `cols` characters behind
/// them, as far as there is room.
pub open spec fn broken(
    lines: Seq<Seq<char>>,
    word: Seq<char>,
    cols: nat,
    max_lines: nat,
) -> Seq<Seq<char>>
    decreases word.len(),
{
    if word.len() == 0 || cols == 0 || lines.len() >= max_lines {
        lines
    } else if word.len() <= cols {
        lines.push(word)
    } else {
        broken(lines.push(word.take(cols as int)), word.skip(cols as int), cols, max_lines)
    }
}

/// The current line with one more word.
pub open spec fn extended(current: Seq<char>, word: Seq<char>) -> Seq<char> {
    if current.len() == 0 {
        word
    } else {
        current + seq![' '] + word
    }
}

/// The lines after one more word: it goes on the current line if it fits there;
/// else that line is full, and the word is broken into lines of its own.
pub open spec fn wrap_word(w: Wrapped, word: Seq<char>, cols: nat, max_lines: nat) -> Wrapped {
    if w.lines.len() >= max_lines {
        w
    } else if extended(w.current, word).len() <= cols {
        Wrapped { current: extended(w.current, word), ..w }
    } else {
        let full = if w.current.len() > 0 {
            w.lines.push(w.current)
        } else {
            w.lines
        };
        Wrapped { lines: broken(full, word, cols, max_lines), current: Seq::empty() }
    }
}

/// The lines after the first `n` words.
pub open spec fn wrap_first(all: Seq<Seq<char>>, n: nat, cols: nat, max_lines: nat) -> Wrapped
    decreases n,
{
    if n == 0 || n > all.len() {
        Wrapped { lines: Seq::empty(), current: Seq::empty() }
    } else {
        wrap_word(wrap_first(all, (n - 1) as nat, cols, max_lines), all[n - 1], cols, max_lines)
    }
}

/// A text wrapped into at most `max_lines` lines of at most `cols` characters.
/// What does not fit is left out.
pub open spec fn wrapped(s: Seq<char>, cols: nat, max_lines: nat) -> Seq<Seq<char>> {
    if cols == 0 || max_lines == 0 {
        Seq::empty()
    } else {
        let w = wrap_first(words(s), words(s).len(), cols, max_lines);
        if w.lines.len() < max_lines && w.current.len() > 0 {
            w.lines.push(w.current)
        } else {
            w.lines
        }
    }
}

/// The models of lines.
pub open spec fn lines_view(v: Seq<Vec<char>>) -> Seq<Seq<char>> {
    v.map_values(|l: Vec<char>| l@)
}

fn copy_range(v: &Vec<char>, from: usize, to: usize) -> (r: Vec<char>)
    requires
        from <= to <= v@.len(),
    ensures
        r@ == v@.subrange(from as int, to as int),
{
    let mut out: Vec<char> = Vec::new();
    let mut i: usize = from;
    while i < to
        invariant
            from <= i <= to <= v@.len(),
            out@ == v@.subrange(from as int, i as int),
        decreases to - i,
    {
        out.push(v[i]);
        i = i + 1;
        assert(out@ =~= v@.subrange(from as int, i as int));
    }
    out
}

fn push_line(lines: &mut Vec<Vec<char>>, line: Vec<char>)
    ensures
        lines_view(final(lines)@) == lines_view(old(lines)@).push(line@),
        final(lines)@.len() == old(lines)@.len() + 1,
{
    let ghost before = lines_view(lines@);
    lines.push(line);
    assert(lines_view(lines@) =~= before.push(line@));
}

fn break_word(lines: &mut Vec<Vec<char>>, word: &Vec<char>, cols: usize, max_lines: usize)
    requires
        cols > 0,
    ensures
        lines_view(final(lines)@) == broken(
            lines_view(old(lines)@),
            word@,
            cols as nat,
            max_lines as nat,
        ),
{
    let ghost start = lines_view(lines@);
    let mut i: usize = 0;
    assert(word@.skip(0) =~= word@);
    while i < word.len() && lines.len() < max_lines
        invariant
            cols > 0,
            i <= word@.len(),
            broken(start, word@, cols as nat, max_lines as nat) == broken(
                lines_view(lines@),
                word@.skip(i as int),
                cols as nat,
                max_lines as nat,
            ),
        decreases word@.len() - i,
    {
        let ghost rest = word@.skip(i as int);
        let ghost before = lines_view(lines@);
        if word.len() - i <= cols {
            let piece = copy_range(word, i, word.len());
            assert(piece@ =~= rest);
            push_line(lines, piece);
            i = word.len();
            assert(word@.skip(i as int).len() == 0);
        } else {
            let piece = copy_range(word, i, i + cols);
            assert(piece@ =~= rest.take(cols as int));
            assert(rest.skip(cols as int) =~= word@.skip(i + cols));
            push_line(lines, piece);
            i = i + cols;
        }
    }
}

/// Wraps a text into lines.
pub fn wrap_words(s: &str, cols: usize, max_lines: usize) -> (r: Vec<Vec<char>>)
    ensures
        lines_view(r@) == wrapped(s@, cols as nat, max_lines as nat),
        r@.len() == wrapped(s@, cols as nat, max_lines as nat).len(),
{
    let mut lines: Vec<Vec<char>> = Vec::new();
    assert(lines_view(lines@) =~= Seq::<Seq<char>>::empty());
    if cols == 0 || max_lines == 0 {
        return lines;
    }
    let all = split_words(s);
    let ghost parts = words(s@);
    assert(lines_view(all@) == parts);
    let mut current: Vec<char> = Vec::new();
    assert(current@ =~= Seq::<char>::empty());
    let mut i: usize = 0;
    while i < all.len()
        invariant
            cols > 0,
            max_lines > 0,
            i <= all@.len(),
            all@.len() == parts.len(),
            lines_view(all@) == parts,
            ({
                let w = wrap_first(parts, i as nat, cols as nat, max_lines as nat);
                lines_view(lines@) == w.lines && current@ == w.current
            }),
        decreases all@.len() - i,
    {
        let ghost w = wrap_first(parts, i as nat, cols as nat, max_lines as nat);
        assert(parts[i as int] == all@[i as int]@);
        assert(lines_view(lines@).len() == lines@.len());
        if lines.len() < max_lines {
            let word = &all[i];
            let fits = if current.len() == 0 {
                word.len() <= cols
            } else {
                current.len() < cols && word.len() <= cols - current.len() - 1
            };
            if fits {
                if current.len() > 0 {
                    current.push(' ');
                }
                let ghost base = current@;
                let mut k: usize = 0;
                assert(base + word@.take(0) =~= base);
                while k < word.len()
                    invariant
                        k <= word@.len(),
                        current@ == base + word@.take(k as int),
                    decreases word@.len() - k,
                {
                    current.push(word[k]);
                    k = k + 1;
                    assert(current@ =~= base + word@.take(k as int));
                }
                assert(word@.take(k as int) =~= word@);
                assert(current@ =~= extended(w.current, word@));
            } else {
                if current.len() > 0 {
                    let full = copy_range(&current, 0, current.len());
                    assert(full@ =~= current@);
                    push_line(&mut lines, full);
                }
                break_word(&mut lines, word, cols, max_lines);
                current = Vec::new();
                assert(current@ =~= Seq::<char>::empty());
            }
        }
        i = i + 1;
    }
    assert(lines_view(lines@).len() == lines@.len());
    if lines.len() < max_lines && current.len() > 0 {
        push_line(&mut lines, current);
    }
    assert(lines_view(lines@).len() == lines@.len());
    lines
}

/// Every line has at most `cols` characters, and there are at most `max_lines`.
pub open spec fn within(lines: Seq<Seq<char>>, cols: nat, max_lines: nat) -> bool {
    &&& lines.len() <= max_lines
    &&& forall|i: int| 0 <= i < lines.len() ==> (#[trigger] lines[i]).len() <= cols
}

proof fn lemma_broken_within(
    lines: Seq<Seq<char>>,
    word: Seq<char>,
    cols: nat,
    max_lines: nat,
)
    requires
        within(lines, cols, max_lines),
    ensures
        within(broken(lines, word, cols, max_lines), cols, max_lines),
    decreases word.len(),
{
    if word.len() > 0 && cols > 0 && lines.len() < max_lines {
        if word.len() <= cols {
            lemma_push_within(lines, word, cols, max_lines);
        } else {
            lemma_push_within(lines, word.take(cols as int), cols, max_lines);
            lemma_broken_within(
                lines.push(word.take(cols as int)),
                word.skip(cols as int),
                cols,
                max_lines,
            );
        }
    }
}

proof fn lemma_push_within(lines: Seq<Seq<char>>, line: Seq<char>, cols: nat, max_lines: nat)
    requires
        within(lines, cols, max_lines),
        lines.len() < max_lines,
        line.len() <= cols,
    ensures
        within(lines.push(line), cols, max_lines),
{
    let r = lines.push(line);
    assert forall|i: int| 0 <= i < r.len() implies (#[trigger] r[i]).len() <= cols by {
        if i < lines.len() {
            assert(r[i] == lines[i]);
        }
    }
}

proof fn lemma_wrap_first_within(all: Seq<Seq<char>>, n: nat, cols: nat, max_lines: nat)
    ensures
        within(wrap_first(all, n, cols, max_lines).lines, cols, max_lines),
        wrap_first(all, n, cols, max_lines).current.len() <= cols,
    decreases n,
{
    if n > 0 && n <= all.len() {
        lemma_wrap_first_within(all, (n - 1) as nat, cols, max_lines);
        let w = wrap_first(all, (n - 1) as nat, cols, max_lines);
        if w.lines.len() < max_lines && extended(w.current, all[n - 1]).len() > cols {
            if w.current.len() > 0 {
                lemma_push_within(w.lines, w.current, cols, max_lines);
                lemma_broken_within(w.lines.push(w.current), all[n - 1], cols, max_lines);
            } else {
                lemma_broken_within(w.lines, all[n - 1], cols, max_lines);
            }
        }
    }
}

/// Wrapped text keeps within the lines and columns that it was given.
pub proof fn law_wrapped_within(s: Seq<char>, cols: nat, max_lines: nat)
    ensures
        within(wrapped(s, cols, max_lines), cols, max_lines),
{
    if cols > 0 && max_lines > 0 {
        lemma_wrap_first_within(words(s), words(s).len(), cols, max_lines);
        let w = wrap_first(words(s), words(s).len(), cols, max_lines);
        if w.lines.len() < max_lines && w.current.len() > 0 {
            lemma_push_within(w.lines, w.current, cols, max_lines);
        }
    }
}

/// `s` cut to `max` characters, with dots at its end where it was cut.
pub open spec fn ellipsized(s: Seq<char>, max: nat) -> Seq<char> {
    if s.len() <= max {
        s
    } else if max <= 3 {
        Seq::new(max, |i: int| '.')
    } else {
        s.take(max - 3) + seq!['.', '.', '.']
    }
}

/// `s` cut to `max` characters, with dots at its end where it was cut.
pub fn ellipsize(s: &Vec<char>, max: usize) -> (r: Vec<char>)
    ensures
        r@ == ellipsized(s@, max as nat),
        r@.len() <= max,
{
    if s.len() <= max {
        let r = copy_range(s, 0, s.len());
        assert(r@ =~= s@);
        return r;
    }
    let keep: usize = if max <= 3 {
        0
    } else {
        max - 3
    };
    let mut out = copy_range(s, 0, keep);
    let ghost kept = out@;
    while out.len() < max
        invariant
            keep <= out@.len() <= max,
            out@ == kept + Seq::new((out@.len() - keep) as nat, |i: int| '.'),
            kept.len() == keep,
        decreases max - out@.len(),
    {
        out.push('.');
        assert(out@ =~= kept + Seq::new((out@.len() - keep) as nat, |i: int| '.'));
    }
    assert(out@ =~= ellipsized(s@, max as nat));
    out
}

// ---------------------------------------------------------------------------
// Layout
// ---------------------------------------------------------------------------

/// The largest scale of the font on an image: by its smaller side.
pub open spec fn max_scale(w: u32, h: u32) -> nat {
    let side = if w < h {
        w
    } else {
        h
    };
    if side >= 128 {
        3
    } else if side >= 96 {
        2
    } else {
        1
    }
}

/// The larger of two numbers.
pub open spec fn larger(a: int, b: int) -> int {
    if a > b {
        a
    } else {
        b
    }
}

/// The smaller of two numbers.
pub open spec fn smaller(a: int, b: int) -> int {
    if a < b {
        a
    } else {
        b
    }
}

/// The room for a label at the top or bottom of an image: all of its width but
/// a margin, and about three eighths of its height.
pub open spec fn room(w: u32, h: u32) -> (int, int) {
    let tripled = smaller(h * 3, u32::MAX as int);
    (larger(larger(w - 8, 0), 1), larger(larger(tripled / 8 - 2, 0), 10))
}

/// The number of lines that fit at a scale: two, or one where the room is low.
pub open spec fn line_limit(max_h: int, scale: int) -> nat {
    if max_h >= 17 * scale {
        2
    } else {
        1
    }
}

/// The number of characters that fit on a line at a scale, at least one.
pub open spec fn column_limit(max_w: int, scale: int) -> nat {
    larger(max_w / (9 * scale), 1) as nat
}

/// The number of characters on lines that are no white space.
pub open spec fn solid_on(lines: Seq<Seq<char>>) -> nat
    decreases lines.len(),
{
    if lines.len() == 0 {
        0
    } else {
        solid_on(lines.drop_last()) + solid(lines.last()).len()
    }
}

/// Lines that do not hold all of a label.
pub open spec fn is_cut(label: Seq<char>, lines: Seq<Seq<char>>) -> bool {
    solid_on(lines) < solid(label).len()
}

/// The lines of a label at a scale. Where not all of it fits, the last line ends
/// in dots.
pub open spec fn lines_at(label: Seq<char>, max_w: int, max_h: int, scale: int) -> Seq<Seq<char>> {
    let cols = column_limit(max_w, scale);
    let limit = line_limit(max_h, scale);
    let found = wrapped(label, cols, limit);
    let lines = if found.len() == 0 {
        seq![Seq::<char>::empty()]
    } else {
        found
    };
    if is_cut(label, lines) {
        lines.update(lines.len() - 1, ellipsized(lines.last() + seq!['.', '.', '.'], cols))
    } else {
        lines
    }
}

/// The length of the longest line.
pub open spec fn longest(lines: Seq<Seq<char>>) -> nat
    decreases lines.len(),
{
    if lines.len() == 0 {
        0
    } else {
        larger(longest(lines.drop_last()) as int, lines.last().len() as int) as nat
    }
}

/// The width of lines at a scale.
pub open spec fn text_width(lines: Seq<Seq<char>>, scale: int) -> int {
    longest(lines) * (9 * scale)
}

/// The height of lines at a scale.
pub open spec fn text_height(lines: Seq<Seq<char>>, scale: int) -> int {
    lines.len() * (8 * scale) + larger(lines.len() - 1, 0) * scale
}

/// The lines fit into the room at a scale.
pub open spec fn fits(lines: Seq<Seq<char>>, max_w: int, max_h: int, scale: int) -> bool {
    text_width(lines, scale) <= max_w && text_height(lines, scale) <= max_h
}

/// The largest scale, not above `scale`, at which the label fits, with its
/// lines there. At the smallest scale it is drawn whole where it does not fit.
pub open spec fn chosen(label: Seq<char>, max_w: int, max_h: int, scale: nat) -> (
    nat,
    Seq<Seq<char>>,
)
    decreases scale,
{
    if scale == 0 {
        (1, seq![label])
    } else {
        let lines = lines_at(label, max_w, max_h, scale as int);
        if fits(lines, max_w, max_h, scale as int) {
            (scale, lines)
        } else {
            chosen(label, max_w, max_h, (scale - 1) as nat)
        }
    }
}

/// The characters of a text that are no white space.
pub open spec fn solid(s: Seq<char>) -> Seq<char>
    decreases s.len(),
{
    if s.len() == 0 {
        s
    } else if text::is_white_space(s.last()) {
        solid(s.drop_last())
    } else {
        solid(s.drop_last()).push(s.last())
    }
}

/// The lines of a label at the side of an image: one character each, as many as
/// fit, and an ellipsis as the last of them where the label was cut.
pub open spec fn stacked(label: Seq<char>, max_h: int, scale: int) -> Seq<Seq<char>> {
    let c = solid(label);
    let limit = larger(max_h / (9 * scale), 1);
    let n = smaller(c.len() as int, limit);
    Seq::new(
        n as nat,
        |i: int|
            if i == limit - 1 && c.len() > limit {
                seq!['\u{2026}']
            } else {
                seq![c[i]]
            },
    )
}

/// Where and how a label is drawn.
pub struct LabelLayout {
    pub scale: u32,
    pub lines: Vec<Vec<char>>,
    /// The left edge of the text.
    pub x: u32,
    /// The upper edge of the text.
    pub y: u32,
    pub text_width: u32,
    pub text_height: u32,
}

/// The layout of a label is as wanted.
pub open spec fn lays_out(
    l: LabelLayout,
    w: u32,
    h: u32,
    label: Seq<char>,
    placement: TextPlacement,
) -> bool {
    let t = text::trimmed(label);
    let pad = 4int;
    match placement {
        TextPlacement::Left | TextPlacement::Right => {
            let scale = max_scale(w, h) as int;
            let max_h = larger(larger(h - 8, 0), 1);
            let lines = stacked(t, max_h, scale);
            &&& l.scale == scale
            &&& lines_view(l.lines@) == lines
            &&& l.text_width == 8 * scale
            &&& l.text_height == larger(text_height(lines, scale), 1)
            &&& l.x == if placement == TextPlacement::Left {
                pad
            } else {
                larger(w - (l.text_width + pad), 0)
            }
            &&& l.y == larger(h - l.text_height, 0) / 2
        },
        _ => {
            let r = room(w, h);
            let c = chosen(t, r.0, r.1, max_scale(w, h));
            &&& l.scale == c.0
            &&& lines_view(l.lines@) == c.1
            &&& l.text_width == larger(text_width(c.1, c.0 as int), 1)
            &&& l.text_height == larger(text_height(c.1, c.0 as int), 1)
            &&& l.x == larger(w - l.text_width, 0) / 2
            &&& l.y == if placement == TextPlacement::Top {
                2
            } else {
                larger(h - (l.text_height + 2), 0)
            }
        },
    }
}

/// A label is drawn at all: it is not blank and the image is not empty.
pub open spec fn is_drawn(w: u32, h: u32, label: Seq<char>) -> bool {
    text::trimmed(label).len() > 0 && w > 0 && h > 0
}

fn at_least(a: u32, b: u32) -> (r: u32)
    ensures
        r == larger(a as int, b as int),
{
    if a > b {
        a
    } else {
        b
    }
}

fn scale_for(w: u32, h: u32) -> (r: u32)
    ensures
        r == max_scale(w, h),
        1 <= r <= 3,
{
    let side: u32 = if w < h {
        w
    } else {
        h
    };
    if side >= 128 {
        3
    } else if side >= 96 {
        2
    } else {
        1
    }
}

fn longest_line(lines: &Vec<Vec<char>>) -> (r: usize)
    ensures
        r == longest(lines_view(lines@)),
{
    let ghost all = lines_view(lines@);
    let mut n: usize = 0;
    let mut i: usize = 0;
    assert(all.take(0) =~= Seq::<Seq<char>>::empty());
    while i < lines.len()
        invariant
            i <= lines@.len(),
            all == lines_view(lines@),
            n == longest(all.take(i as int)),
        decreases lines@.len() - i,
    {
        if lines[i].len() > n {
            n = lines[i].len();
        }
        i = i + 1;
        assert(all.take(i as int).drop_last() =~= all.take(i - 1));
        assert(all.take(i as int).last() == lines@[i - 1]@);
    }
    assert(all.take(i as int) =~= all);
    n
}

proof fn lemma_longest_within(lines: Seq<Seq<char>>, cols: nat)
    requires
        forall|i: int| 0 <= i < lines.len() ==> (#[trigger] lines[i]).len() <= cols,
    ensures
        longest(lines) <= cols,
    decreases lines.len(),
{
    if lines.len() > 0 {
        let t = lines.drop_last();
        assert forall|i: int| 0 <= i < t.len() implies (#[trigger] t[i]).len() <= cols by {
            assert(t[i] == lines[i]);
        }
        lemma_longest_within(t, cols);
        assert(lines[lines.len() - 1].len() <= cols);
    }
}

proof fn lemma_lines_at_within(label: Seq<char>, max_w: int, max_h: int, scale: int)
    requires
        scale >= 1,
    ensures
        within(
            lines_at(label, max_w, max_h, scale),
            column_limit(max_w, scale),
            line_limit(max_h, scale),
        ),
        lines_at(label, max_w, max_h, scale).len() >= 1,
{
    let cols = column_limit(max_w, scale);
    let limit = line_limit(max_h, scale);
    law_wrapped_within(label, cols, limit);
    let found = wrapped(label, cols, limit);
    let lines = if found.len() == 0 {
        seq![Seq::<char>::empty()]
    } else {
        found
    };
    let r = lines_at(label, max_w, max_h, scale);
    assert forall|i: int| 0 <= i < r.len() implies (#[trigger] r[i]).len() <= cols by {
        if i < lines.len() - 1 || !is_cut(label, lines) {
            assert(r[i] == lines[i]);
        }
    }
}

fn count_solid(lines: &Vec<Vec<char>>) -> (r: u128)
    requires
        lines@.len() <= 2,
    ensures
        r == solid_on(lines_view(lines@)),
{
    let ghost models = lines_view(lines@);
    let mut count: u128 = 0;
    let mut i: usize = 0;
    assert(models.take(0) =~= Seq::<Seq<char>>::empty());
    while i < lines.len()
        invariant
            i <= lines@.len() <= 2,
            models == lines_view(lines@),
            count == solid_on(models.take(i as int)),
            count <= i * 0x1_0000_0000_0000_0000,
        decreases lines@.len() - i,
    {
        let line = &lines[i];
        let mut k: usize = 0;
        let mut n: usize = 0;
        assert(line@.take(0) =~= Seq::<char>::empty());
        while k < line.len()
            invariant
                k <= line@.len(),
                n <= k,
                n == solid(line@.take(k as int)).len(),
            decreases line@.len() - k,
        {
            if !white_space(line[k]) {
                n = n + 1;
            }
            k = k + 1;
            assert(line@.take(k as int).drop_last() =~= line@.take(k - 1));
            assert(line@.take(k as int).last() == line@[k - 1]);
        }
        assert(line@.take(k as int) =~= line@);
        count = count + n as u128;
        i = i + 1;
        assert(models[i - 1] == line@);
        assert(models.take(i as int).drop_last() =~= models.take(i - 1));
    }
    assert(models.take(i as int) =~= models);
    count
}

fn make_lines(label: &str, max_w: u32, max_h: u32, scale: u32) -> (r: Vec<Vec<char>>)
    requires
        1 <= scale <= 3,
    ensures
        lines_view(r@) == lines_at(label@, max_w as int, max_h as int, scale as int),
        1 <= r@.len() <= 2,
{
    let limit: usize = if max_h >= 17 * scale {
        2
    } else {
        1
    };
    let cols: usize = at_least(max_w / (9 * scale), 1) as usize;
    assert(cols == column_limit(max_w as int, scale as int));
    let mut lines = wrap_words(label, cols, limit);
    if lines.len() == 0 {
        let blank: Vec<char> = Vec::new();
        assert(blank@ =~= Seq::<char>::empty());
        lines.push(blank);
        assert(lines_view(lines@) =~= seq![Seq::<char>::empty()]);
    }
    let ghost before = lines_view(lines@);
    assert(before.len() == lines@.len());
    proof {
        law_wrapped_within(label@, cols as nat, limit as nat);
    }
    let all = solid_chars(label);
    if count_solid(&lines) < all.len() as u128 {
        let last: usize = lines.len() - 1;
        let mut line = copy_range(&lines[last], 0, lines[last].len());
        line.push('.');
        line.push('.');
        line.push('.');
        assert(before.last() == lines@[last as int]@);
        assert(line@ =~= before.last() + seq!['.', '.', '.']);
        let cut = ellipsize(&line, cols);
        lines.set(last, cut);
        assert(lines_view(lines@) =~= before.update(last as int, cut@));
    }
    proof {
        lemma_lines_at_within(label@, max_w as int, max_h as int, scale as int);
        assert(lines_view(lines@).len() == lines@.len());
    }
    lines
}

fn rows_height(lines: &Vec<Vec<char>>, scale: u32) -> (r: u32)
    requires
        1 <= lines@.len() <= 2,
        1 <= scale <= 3,
    ensures
        r == text_height(lines_view(lines@), scale as int),
        r <= 51,
{
    let ghost models = lines_view(lines@);
    assert(models.len() == lines@.len());
    let r: u32 = if lines.len() == 1 {
        8 * scale
    } else {
        17 * scale
    };
    assert(text_height(models, scale as int) == r) by (nonlinear_arith)
        requires
            models.len() == 1 || models.len() == 2,
            models.len() == 1 ==> r == 8 * scale,
            models.len() == 2 ==> r == 17 * scale,
            text_height(models, scale as int) == models.len() * (8 * scale as int) + larger(
                models.len() - 1,
                0,
            ) * scale,
            larger(models.len() - 1, 0) == models.len() - 1,
    ;
    r
}

/// The scale and the lines of a label at the top or bottom.
fn choose_lines(label: &str, max_w: u32, max_h: u32, top: u32) -> (r: (u32, Vec<Vec<char>>))
    requires
        1 <= top <= 3,
        27 * label@.len() <= u32::MAX,
    ensures
        ({
            let c = chosen(label@, max_w as int, max_h as int, top as nat);
            r.0 == c.0 && lines_view(r.1@) == c.1
        }),
        1 <= r.0 <= 3,
        1 <= r.1@.len() <= 2,
        longest(lines_view(r.1@)) * (9 * r.0) <= u32::MAX,
{
    let mut scale: u32 = top;
    while scale > 0
        invariant
            scale <= top <= 3,
            27 * label@.len() <= u32::MAX,
            chosen(label@, max_w as int, max_h as int, top as nat) == chosen(
                label@,
                max_w as int,
                max_h as int,
                scale as nat,
            ),
        decreases scale,
    {
        let lines = make_lines(label, max_w, max_h, scale);
        let n = longest_line(&lines);
        let ghost models = lines_view(lines@);
        assert(models.len() == lines@.len());
        let height = rows_height(&lines, scale);
        let char_w: u32 = 9 * scale;
        let wide = n > (max_w / char_w) as usize;
        assert(wide == (text_width(models, scale as int) > max_w)) by (nonlinear_arith)
            requires
                wide == (n > (max_w / char_w)),
                n == longest(models),
                char_w == 9 * scale,
                char_w > 0,
                text_width(models, scale as int) == longest(models) * (9 * scale),
        ;
        if !wide && height <= max_h {
            assert(longest(models) * (9 * scale) <= u32::MAX);
            return (scale, lines);
        }
        scale = scale - 1;
    }
    let whole = chars_of(label);
    let mut lines: Vec<Vec<char>> = Vec::new();
    lines.push(whole);
    assert(lines_view(lines@) =~= seq![label@]);
    proof {
        assert(seq![label@].drop_last() =~= Seq::<Seq<char>>::empty());
        assert(longest(seq![label@].drop_last()) == 0);
        assert(longest(seq![label@]) == label@.len());
        assert(label@.len() * (9 * 1u32) == 9 * label@.len());
    }
    (1, lines)
}

fn solid_chars(label: &str) -> (r: Vec<char>)
    ensures
        r@ == solid(label@),
{
    let v = chars_of(label);
    let mut out: Vec<char> = Vec::new();
    let mut i: usize = 0;
    assert(v@.take(0) =~= Seq::<char>::empty());
    while i < v.len()
        invariant
            v@ == label@,
            i <= v@.len(),
            out@ == solid(v@.take(i as int)),
        decreases v@.len() - i,
    {
        if !white_space(v[i]) {
            out.push(v[i]);
        }
        i = i + 1;
        assert(v@.take(i as int).drop_last() =~= v@.take(i - 1));
        assert(v@.take(i as int).last() == v@[i - 1]);
    }
    assert(v@.take(i as int) =~= v@);
    out
}

fn stack(label: &str, max_h: u32, scale: u32) -> (r: Vec<Vec<char>>)
    requires
        1 <= scale <= 3,
    ensures
        lines_view(r@) == stacked(label@, max_h as int, scale as int),
        r@.len() <= larger(max_h as int / (9 * scale as int), 1),
{
    let c = solid_chars(label);
    let limit: usize = at_least(max_h / (9 * scale), 1) as usize;
    let mut out: Vec<Vec<char>> = Vec::new();
    let ghost want = stacked(label@, max_h as int, scale as int);
    while out.len() < c.len() && out.len() < limit
        invariant
            c@ == solid(label@),
            limit == larger(max_h as int / (9 * scale as int), 1),
            want == stacked(label@, max_h as int, scale as int),
            out@.len() <= c@.len(),
            out@.len() <= limit,
            forall|i: int| 0 <= i < out@.len() ==> (#[trigger] out@[i])@ == want[i],
        decreases c@.len() - out@.len(),
    {
        let i: usize = out.len();
        let mut line: Vec<char> = Vec::new();
        if i == limit - 1 && c.len() > limit {
            line.push('\u{2026}');
            assert(line@ =~= seq!['\u{2026}']);
        } else {
            line.push(c[i]);
            assert(line@ =~= seq![c@[i as int]]);
        }
        out.push(line);
    }
    assert(lines_view(out@) =~= want);
    out
}

/// Lays out a label on an image of `w` by `h` pixels; `None` where nothing is
/// drawn.
pub fn layout_label(w: u32, h: u32, label: &str, placement: TextPlacement) -> (r: Option<
    LabelLayout,
>)
    requires
        27 * label@.len() <= u32::MAX,
    ensures
        match r {
            Some(l) => is_drawn(w, h, label@) && lays_out(l, w, h, label@, placement)
                && 1 <= l.scale <= 3,
            None => !is_drawn(w, h, label@) || ((placement == TextPlacement::Left || placement
                == TextPlacement::Right) && solid(text::trimmed(label@)).len() == 0),
        },
{
    let t = trim(label);
    proof {
        lemma_trimmed_shorter(label@);
    }
    if t.as_str().is_empty() || w == 0 || h == 0 {
        return None;
    }
    let top = scale_for(w, h);
    match placement {
        TextPlacement::Left | TextPlacement::Right => {
            let c = solid_chars(&t);
            if c.len() == 0 {
                return None;
            }
            let max_h = at_least(h.saturating_sub(8), 1);
            let lines = stack(&t, max_h, top);
            let rows: u32 = lines.len() as u32;
            let ghost models = lines_view(lines@);
            assert(models.len() == lines@.len());
            assert(max_h as int / (9 * top as int) <= max_h) by (nonlinear_arith)
                requires
                    top >= 1,
                    max_h >= 1,
            ;
            assert((max_h as int / (9 * top as int)) * (9 * top as int) <= max_h)
                by (nonlinear_arith)
                requires
                    top >= 1,
                    max_h >= 1,
            ;
            let ghost limit = larger(max_h as int / (9 * top as int), 1);
            assert(limit * (9 * top) <= larger(max_h as int, 27)) by (nonlinear_arith)
                requires
                    1 <= top <= 3,
                    (max_h as int / (9 * top as int)) * (9 * top as int) <= max_h,
                    limit == larger(max_h as int / (9 * top as int), 1),
            ;
            assert(rows * (9 * top) <= limit * (9 * top)) by (nonlinear_arith)
                requires
                    rows <= limit,
                    top >= 1,
            ;
            assert(rows * (8 * top) + rows * top == rows * (9 * top)) by (nonlinear_arith);
            assert(0 <= rows * (8 * top)) by (nonlinear_arith);
            assert(0 <= rows * top) by (nonlinear_arith);
            let gaps: u32 = if rows > 0 {
                rows - 1
            } else {
                0
            };
            assert(gaps * top <= rows * top) by (nonlinear_arith)
                requires
                    gaps <= rows,
            ;
            let text_h = at_least(rows * (8 * top) + gaps * top, 1);
            assert(text_h == larger(text_height(models, top as int), 1));
            let text_w: u32 = 8 * top;
            let x: u32 = match placement {
                TextPlacement::Left => 4,
                _ => w.saturating_sub(text_w + 4),
            };
            let y: u32 = h.saturating_sub(text_h) / 2;
            Some(LabelLayout { scale: top, lines, x, y, text_width: text_w, text_height: text_h })
        },
        _ => {
            let max_w = at_least(w.saturating_sub(8), 1);
            let tripled: u64 = if h > u32::MAX / 3 {
                u32::MAX as u64
            } else {
                h as u64 * 3
            };
            let max_h = at_least((tripled / 8) as u32 - if tripled / 8 >= 2 {
                2
            } else {
                (tripled / 8) as u32
            }, 10);
            assert(max_w == room(w, h).0);
            assert(max_h == room(w, h).1);
            let (scale, lines) = choose_lines(&t, max_w, max_h, top);
            let ghost models = lines_view(lines@);
            assert(models.len() == lines@.len());
            let n = longest_line(&lines);
            assert(n <= u32::MAX) by (nonlinear_arith)
                requires
                    n * (9 * scale) <= u32::MAX,
                    scale >= 1,
            ;
            let text_w = at_least(n as u32 * (9 * scale), 1);
            let text_h = at_least(rows_height(&lines, scale), 1);
            let x: u32 = w.saturating_sub(text_w) / 2;
            let y: u32 = match placement {
                TextPlacement::Top => 2,
                _ => h.saturating_sub(text_h + 2),
            };
            Some(LabelLayout { scale, lines, x, y, text_width: text_w, text_height: text_h })
        },
    }
}

/// A label at the side of an image whose characters all fit is drawn whole; of
/// one that does not fit, the last line is an ellipsis.
pub proof fn law_only_cut_labels_have_an_ellipsis(label: Seq<char>, max_h: int, scale: int)
    requires
        1 <= scale <= 3,
        max_h >= 1,
    ensures
        ({
            let c = solid(label);
            let limit = larger(max_h / (9 * scale), 1);
            let lines = stacked(label, max_h, scale);
            &&& c.len() <= limit ==> lines == c.map_values(|x: char| seq![x])
            &&& c.len() > limit ==> lines.len() == limit && lines.last() == seq!['\u{2026}']
        }),
{
    let c = solid(label);
    let lines = stacked(label, max_h, scale);
    let limit = larger(max_h / (9 * scale), 1);
    if c.len() <= limit {
        assert(lines =~= c.map_values(|x: char| seq![x]));
    }
}

/// A label at the top or bottom of which something is left out ends in dots, as
/// many as fit; one that fits whole is drawn as it was wrapped.
pub proof fn law_only_cut_labels_have_dots(
    label: Seq<char>,
    max_w: int,
    max_h: int,
    scale: int,
)
    requires
        scale >= 1,
    ensures
        ({
            let cols = column_limit(max_w, scale);
            let found = wrapped(label, cols, line_limit(max_h, scale));
            let lines = lines_at(label, max_w, max_h, scale);
            found.len() > 0 ==> {
                &&& !is_cut(label, found) ==> lines == found
                &&& is_cut(label, found) && cols >= 3 ==> seq!['.', '.', '.'].is_suffix_of(
                    lines.last(),
                )
            }
        }),
{
    let cols = column_limit(max_w, scale);
    let found = wrapped(label, cols, line_limit(max_h, scale));
    let lines = lines_at(label, max_w, max_h, scale);
    if found.len() > 0 && is_cut(label, found) && cols >= 3 {
        let l = lines.last();
        assert(l == ellipsized(found.last() + seq!['.', '.', '.'], cols));
        assert(l.subrange(l.len() - 3, l.len() as int) =~= seq!['.', '.', '.']);
    }
}

proof fn lemma_trimmed_shorter(s: Seq<char>)
    ensures
        text::trimmed(s).len() <= s.len(),
{
    let ws = |c: char| text::is_white_space(c);
    lemma_trim_start_shorter(s, ws);
    lemma_trim_end_shorter(text::trim_start_where(s, ws), ws);
}

proof fn lemma_trim_start_shorter(s: Seq<char>, d: spec_fn(char) -> bool)
    ensures
        text::trim_start_where(s, d).len() <= s.len(),
    decreases s.len(),
{
    if s.len() > 0 && d(s[0]) {
        lemma_trim_start_shorter(s.drop_first(), d);
    }
}

proof fn lemma_trim_end_shorter(s: Seq<char>, d: spec_fn(char) -> bool)
    ensures
        text::trim_end_where(s, d).len() <= s.len(),
    decreases s.len(),
{
    if s.len() > 0 && d(s.last()) {
        lemma_trim_end_shorter(s.drop_last(), d);
    }
}

/// On an image that is at least 17 pixels wide, a label at the top or bottom
/// always fits: it is no wider than the image less a margin, and no higher than
/// its share of the height.
pub proof fn law_label_fits(w: u32, h: u32, label: Seq<char>)
    requires
        w >= 17,
    ensures
        ({
            let r = room(w, h);
            let c = chosen(label, r.0, r.1, max_scale(w, h));
            &&& fits(c.1, r.0, r.1, c.0 as int)
            &&& r.0 == w - 8
        }),
{
    let r = room(w, h);
    lemma_chosen_fits(label, r.0, r.1, max_scale(w, h));
}

proof fn lemma_chosen_fits(label: Seq<char>, max_w: int, max_h: int, scale: nat)
    requires
        scale >= 1,
        max_w >= 9,
        max_h >= 10,
    ensures
        ({
            let c = chosen(label, max_w, max_h, scale);
            fits(c.1, max_w, max_h, c.0 as int)
        }),
    decreases scale,
{
    let lines = lines_at(label, max_w, max_h, scale as int);
    if !fits(lines, max_w, max_h, scale as int) {
        if scale == 1 {
            lemma_lines_at_within(label, max_w, max_h, 1);
            let cols = column_limit(max_w, 1);
            lemma_longest_within(lines, cols);
            assert(cols == max_w / 9);
            assert(text_width(lines, 1) == longest(lines) * 9);
            assert(lines.len() == 1 || lines.len() == 2);
            if lines.len() == 2 {
                assert(text_height(lines, 1) == 17);
            } else {
                assert(text_height(lines, 1) == 8);
            }
            assert(fits(lines, max_w, max_h, 1));
        } else {
            lemma_chosen_fits(label, max_w, max_h, (scale - 1) as nat);
        }
    }
}

// ---------------------------------------------------------------------------
// Pixels
// ---------------------------------------------------------------------------

/// The rows of the picture of a character: eight bytes, each a row whose lowest
/// bit is the leftmost pixel.
pub uninterp spec fn glyph_rows(c: char) -> Option<Seq<u8>>;

/// `UnicodeFonts::get` of `font8x8::BASIC_FONTS`, a function of the character
/// alone; `None` where the font has no such character.
#[verifier::external_body]
fn glyph(c: char) -> (r: Option<Vec<u8>>)
    ensures
        match r {
            Some(rows) => glyph_rows(c) == Some(rows@) && rows@.len() == 8,
            None => glyph_rows(c) is None,
        },
{
    font8x8::UnicodeFonts::get(&font8x8::BASIC_FONTS, c).map(|rows| rows.to_vec())
}

/// The characters of a line that are drawn: those before a line break.
pub open spec fn visible(line: Seq<char>) -> Seq<char> {
    line.take(text::index_of_char(line, '\n'))
}

/// Bit `col` of row `row` of the picture of a character is set.
pub open spec fn glyph_bit(rows: Option<Seq<u8>>, row: int, col: int) -> bool {
    match rows {
        Some(r) => (r[row] >> (col as u8)) & 1u8 == 1u8,
        None => false,
    }
}

/// The pixel at (`x`, `y`) of a text belongs to a character: each character
/// takes 8 by 8 pixels and a gap of one, all times the scale.
pub open spec fn lit(lines: Seq<Seq<char>>, scale: int, x: int, y: int) -> bool {
    let step = 9 * scale;
    let i = y / step;
    let k = x / step;
    let row = (y % step) / scale;
    let col = (x % step) / scale;
    &&& x >= 0
    &&& y >= 0
    &&& i < lines.len()
    &&& k < visible(lines[i]).len()
    &&& row < 8
    &&& col < 8
    &&& glyph_bit(glyph_rows(lines[i][k]), row, col)
}

/// What is drawn at a pixel.
#[derive(Clone, Copy, PartialEq, Eq, Structural, Debug)]
pub enum Ink {
    /// Nothing.
    Clear,
    /// The shadow of a character, one pixel to the lower right of it.
    Shadow,
    /// A character.
    Text,
}

/// What is drawn at the pixel (`x`, `y`) of a text.
pub open spec fn ink_at(lines: Seq<Seq<char>>, scale: int, x: int, y: int) -> Ink {
    if lit(lines, scale, x, y) {
        Ink::Text
    } else if lit(lines, scale, x - 1, y - 1) {
        Ink::Shadow
    } else {
        Ink::Clear
    }
}

fn is_lit(lines: &Vec<Vec<char>>, scale: u32, x: u32, y: u32) -> (r: bool)
    requires
        1 <= scale <= 3,
    ensures
        r == lit(lines_view(lines@), scale as int, x as int, y as int),
{
    let step: u32 = 9 * scale;
    let i: usize = (y / step) as usize;
    let k: usize = (x / step) as usize;
    let row: u32 = (y % step) / scale;
    let col: u32 = (x % step) / scale;
    if i >= lines.len() || row >= 8 || col >= 8 {
        return false;
    }
    assert(lines_view(lines@)[i as int] == lines@[i as int]@);
    let end = find_char(&lines[i], '\n');
    if k >= end {
        return false;
    }
    match glyph(lines[i][k]) {
        Some(rows) => {
            let bits: u8 = rows[row as usize];
            (bits >> (col as u8)) & 1u8 == 1u8
        },
        None => false,
    }
}

/// What is drawn at the pixel (`x`, `y`) of a text.
pub fn ink(layout: &LabelLayout, x: u32, y: u32) -> (r: Ink)
    requires
        1 <= layout.scale <= 3,
    ensures
        r == ink_at(lines_view(layout.lines@), layout.scale as int, x as int, y as int),
{
    if is_lit(&layout.lines, layout.scale, x, y) {
        Ink::Text
    } else if x > 0 && y > 0 && is_lit(&layout.lines, layout.scale, x - 1, y - 1) {
        Ink::Shadow
    } else {
        Ink::Clear
    }
}

/// What a label draws at the pixel (`x`, `y`) of an image: what its text has
/// there, and nothing outside the text.
pub fn ink_on_image(layout: &LabelLayout, x: u32, y: u32) -> (r: Ink)
    requires
        1 <= layout.scale <= 3,
    ensures
        r == if layout.x <= x < layout.x + layout.text_width && layout.y <= y < layout.y
            + layout.text_height {
            ink_at(
                lines_view(layout.lines@),
                layout.scale as int,
                x - layout.x,
                y - layout.y,
            )
        } else {
            Ink::Clear
        },
{
    if x < layout.x || y < layout.y || x - layout.x >= layout.text_width || y - layout.y
        >= layout.text_height {
        return Ink::Clear;
    }
    ink(layout, x - layout.x, y - layout.y)
}

proof fn lemma_word_before_space(a: Seq<char>, rest: Seq<char>)
    requires
        forall|j: int| 0 <= j < a.len() ==> !text::is_white_space(#[trigger] a[j]),
        rest.len() > 0 ==> text::is_white_space(rest[0]),
    ensures
        word_len(a + rest) == a.len(),
    decreases a.len(),
{
    if a.len() == 0 {
        assert(a + rest =~= rest);
    } else {
        assert((a + rest)[0] == a[0]);
        assert((a + rest).drop_first() =~= a.drop_first() + rest);
        lemma_word_before_space(a.drop_first(), rest);
    }
}

proof fn lemma_first_word(a: Seq<char>, rest: Seq<char>)
    requires
        a.len() > 0,
        forall|j: int| 0 <= j < a.len() ==> !text::is_white_space(#[trigger] a[j]),
        rest.len() > 0 ==> text::is_white_space(rest[0]),
    ensures
        words(a + rest) == seq![a] + words(rest),
{
    let s = a + rest;
    assert(s[0] == a[0]);
    assert(s.drop_first() =~= a.drop_first() + rest);
    lemma_word_before_space(a.drop_first(), rest);
    if rest.len() == 0 {
        assert(s =~= a);
        assert(words(s) =~= seq![a] + words(rest));
    } else {
        assert(s.take(a.len() as int) =~= a);
        assert(s.skip(a.len() as int) =~= rest);
    }
}

/// A text has the words between its white space.
pub proof fn law_words_between_spaces(a: Seq<char>, b: Seq<char>)
    requires
        a.len() > 0,
        b.len() > 0,
        forall|j: int| 0 <= j < a.len() ==> !text::is_white_space(#[trigger] a[j]),
        forall|j: int| 0 <= j < b.len() ==> !text::is_white_space(#[trigger] b[j]),
    ensures
        words(a) == seq![a],
        words(a + seq![' '] + b) == seq![a, b],
{
    lemma_first_word(a, Seq::empty());
    assert(a + Seq::<char>::empty() =~= a);
    assert(words(a) =~= seq![a]);
    lemma_first_word(b, Seq::empty());
    assert(b + Seq::<char>::empty() =~= b);
    let rest = seq![' '] + b;
    assert(rest.drop_first() =~= b);
    assert(words(rest) == words(b));
    lemma_first_word(a, rest);
    assert(a + seq![' '] + b =~= a + rest);
    assert(seq![a] + words(rest) =~= seq![a, b]);
}

/// A label whose words fit on one line stands there whole. Two words that do not fit
/// on one line stand on two, where there are two.
pub proof fn law_label_is_wrapped_by_words(
    a: Seq<char>,
    b: Seq<char>,
    cols: nat,
    max_lines: nat,
)
    requires
        a.len() > 0,
        b.len() > 0,
        forall|j: int| 0 <= j < a.len() ==> !text::is_white_space(#[trigger] a[j]),
        forall|j: int| 0 <= j < b.len() ==> !text::is_white_space(#[trigger] b[j]),
        a.len() <= cols,
        b.len() <= cols,
        max_lines > 0,
    ensures
        wrapped(a, cols, max_lines) == seq![a],
        a.len() + 1 + b.len() <= cols ==> wrapped(a + seq![' '] + b, cols, max_lines) == seq![
            a + seq![' '] + b,
        ],
        a.len() + 1 + b.len() > cols && max_lines >= 2 ==> wrapped(
            a + seq![' '] + b,
            cols,
            max_lines,
        ) == seq![a, b],
        a.len() + 1 + b.len() > cols && max_lines == 1 ==> wrapped(
            a + seq![' '] + b,
            cols,
            max_lines,
        ) == seq![a],
{
    law_words_between_spaces(a, b);
    let none: Seq<Seq<char>> = Seq::empty();
    let start = Wrapped { lines: none, current: Seq::empty() };
    let one = Wrapped { lines: none, current: a };
    assert(wrap_word(start, a, cols, max_lines) == one);
    assert(wrap_first(words(a), 0, cols, max_lines) == start);
    assert(wrap_first(words(a), 1, cols, max_lines) == one);
    assert(wrapped(a, cols, max_lines) =~= seq![a]);
    let s = a + seq![' '] + b;
    assert(wrap_first(words(s), 0, cols, max_lines) == start);
    assert(wrap_first(words(s), 1, cols, max_lines) == one);
    let two = wrap_word(one, b, cols, max_lines);
    assert(wrap_first(words(s), 2, cols, max_lines) == two);
    if a.len() + 1 + b.len() <= cols {
        assert(two.current == s);
        assert(wrapped(s, cols, max_lines) =~= seq![s]);
    } else {
        assert(none.push(a) =~= seq![a]);
        if max_lines >= 2 {
            assert(broken(seq![a], b, cols, max_lines) == seq![a].push(b));
            assert(wrapped(s, cols, max_lines) =~= seq![a, b]);
        } else {
            assert(broken(seq![a], b, cols, max_lines) == seq![a]);
            assert(wrapped(s, cols, max_lines) =~= seq![a]);
        }
    }
}

/// A word that is longer than a line is broken into full lines, none of its
/// characters lost as long as there is room.
pub proof fn law_long_word_is_broken(
    lines: Seq<Seq<char>>,
    word: Seq<char>,
    cols: nat,
    max_lines: nat,
)
    requires
        cols > 0,
        word.len() > cols,
        lines.len() < max_lines,
    ensures
        broken(lines, word, cols, max_lines).len() > lines.len(),
        broken(lines, word, cols, max_lines)[lines.len() as int] == word.take(cols as int),
        broken(lines, word, cols, max_lines).take(lines.len() as int) == lines,
{
    let next = lines.push(word.take(cols as int));
    lemma_broken_keeps(next, word.skip(cols as int), cols, max_lines);
    let all = broken(lines, word, cols, max_lines);
    assert(all.take(next.len() as int)[lines.len() as int] == all[lines.len() as int]);
    assert(all.take(lines.len() as int) =~= all.take(next.len() as int).take(lines.len() as int));
    assert(next.take(lines.len() as int) =~= lines);
}

proof fn lemma_broken_keeps(
    lines: Seq<Seq<char>>,
    word: Seq<char>,
    cols: nat,
    max_lines: nat,
)
    ensures
        broken(lines, word, cols, max_lines).len() >= lines.len(),
        broken(lines, word, cols, max_lines).take(lines.len() as int) == lines,
    decreases word.len(),
{
    let all = broken(lines, word, cols, max_lines);
    if word.len() == 0 || cols == 0 || lines.len() >= max_lines {
        assert(all.take(lines.len() as int) =~= lines);
    } else if word.len() <= cols {
        assert(all.take(lines.len() as int) =~= lines);
    } else {
        let next = lines.push(word.take(cols as int));
        lemma_broken_keeps(next, word.skip(cols as int), cols, max_lines);
        assert(all.take(lines.len() as int) =~= all.take(next.len() as int).take(
            lines.len() as int,
        ));
        assert(next.take(lines.len() as int) =~= lines);
    }
}

/// A text that is cut has the wanted length and ends in dots; one that need not be cut
/// stays as it is.
pub proof fn law_cut_text_ends_in_dots(s: Seq<char>, max: nat)
    ensures
        s.len() <= max ==> ellipsized(s, max) == s,
        s.len() > max ==> ellipsized(s, max).len() == max,
        s.len() > max && max > 3 ==> ellipsized(s, max).take(max - 3) == s.take(max - 3)
            && ellipsized(s, max).skip(max - 3) == seq!['.', '.', '.'],
        s.len() > max ==> forall|k: int|
            max - 3 <= k < max && k >= 0 ==> #[trigger] ellipsized(s, max)[k] == '.',
{
    if s.len() > max && max > 3 {
        let e = ellipsized(s, max);
        assert(e.take(max - 3) =~= s.take(max - 3));
        assert(e.skip(max - 3) =~= seq!['.', '.', '.']);
    }
}

/// The scale of a label is the largest at which it fits: at every larger one it does
/// not.
pub proof fn law_largest_scale_is_chosen(
    label: Seq<char>,
    max_w: int,
    max_h: int,
    scale: nat,
    larger_one: nat,
)
    requires
        chosen(label, max_w, max_h, scale).0 < larger_one <= scale,
    ensures
        !fits(lines_at(label, max_w, max_h, larger_one as int), max_w, max_h, larger_one as int),
    decreases scale,
{
    if scale > 0 {
        let lines = lines_at(label, max_w, max_h, scale as int);
        if !fits(lines, max_w, max_h, scale as int) {
            if larger_one < scale {
                law_largest_scale_is_chosen(
                    label,
                    max_w,
                    max_h,
                    (scale - 1) as nat,
                    larger_one,
                );
            }
        }
    }
}

/// The lines that are drawn are those of the label at the scale that is chosen.
pub proof fn law_chosen_lines_are_of_the_scale(
    label: Seq<char>,
    max_w: int,
    max_h: int,
    scale: nat,
)
    ensures
        ({
            let c = chosen(label, max_w, max_h, scale);
            &&& c.0 >= 1
            &&& c.0 <= scale || c.0 == 1
            &&& c.1 == lines_at(label, max_w, max_h, c.0 as int) || c.1 == seq![label]
        }),
    decreases scale,
{
    if scale > 0 {
        law_chosen_lines_are_of_the_scale(label, max_w, max_h, (scale - 1) as nat);
    }
}

/// A label stands where it is placed: at the top or the bottom it is centred, two
/// pixels from the edge; at a side it is centred in height, four pixels from the edge.
pub proof fn law_label_stands_where_placed(
    l: LabelLayout,
    w: u32,
    h: u32,
    label: Seq<char>,
    placement: TextPlacement,
)
    requires
        lays_out(l, w, h, label, placement),
        l.text_width + 8 <= w,
        l.text_height + 4 <= h,
    ensures
        placement == TextPlacement::Top ==> l.y == 2,
        placement == TextPlacement::Bottom ==> l.y + l.text_height + 2 == h,
        placement == TextPlacement::Left ==> l.x == 4,
        placement == TextPlacement::Right ==> l.x + l.text_width + 4 == w,
        placement == TextPlacement::Top || placement == TextPlacement::Bottom ==> 0 <= w - (2 * l.x
            + l.text_width) <= 1,
        placement == TextPlacement::Left || placement == TextPlacement::Right ==> 0 <= h - (2 * l.y
            + l.text_height) <= 1,
        1 <= l.scale <= 3,
{
    law_chosen_lines_are_of_the_scale(
        text::trimmed(label),
        room(w, h).0,
        room(w, h).1,
        max_scale(w, h),
    );
}

/// The font grows with the smaller side of the image.
pub proof fn law_scale_grows_with_image(w: u32, h: u32)
    ensures
        max_scale(w, h) == max_scale(h, w),
        max_scale(w, h) == 3 <==> w >= 128 && h >= 128,
        max_scale(w, h) == 1 <==> w < 96 || h < 96,
        max_scale(w, h) == 2 <==> w >= 96 && h >= 96 && (w < 128 || h < 128),
{
}

/// Each pixel of a character is drawn as text, and casts a shadow on the pixel below
/// and to the right of it, unless that is text itself. Nothing else is drawn, and
/// nothing between two characters.
pub proof fn law_text_casts_a_shadow(lines: Seq<Seq<char>>, scale: int, x: int, y: int)
    requires
        scale >= 1,
    ensures
        lit(lines, scale, x, y) ==> ink_at(lines, scale, x, y) == Ink::Text,
        lit(lines, scale, x, y) && !lit(lines, scale, x + 1, y + 1) ==> ink_at(
            lines,
            scale,
            x + 1,
            y + 1,
        ) == Ink::Shadow,
        !lit(lines, scale, x, y) && !lit(lines, scale, x - 1, y - 1) ==> ink_at(
            lines,
            scale,
            x,
            y,
        ) == Ink::Clear,
        x < 0 || y < 0 ==> !lit(lines, scale, x, y),
{
}

} // verus!
