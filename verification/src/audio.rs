//! The audio router: what the sound server reports, and the answers to the
//! remote procedure calls of plugins that control volumes.
//!
//! A volume that the sound server reports is held as a number of percent: the
//! last word before the first percent sign of its volume line, as in
//! `0: 100% 1: 100%`. A volume that a caller asks for is held as the bits of its
//! 32-bit floating-point form.
use vstd::prelude::*;
use crate::json::{Json, JsonView};
use crate::text;
use crate::text::{
    chars_of, concat2, concat3, contains, decimal_text, owned, parse_unsigned, same_text, split, starts_with,
    strip_prefix, strip_suffix, text_of_range, trim, white_space,
};

verus! {

// ---------------------------------------------------------------------------
// Streams
// ---------------------------------------------------------------------------

/// How recently an application has played audio.
#[derive(Clone, Copy, PartialEq, Eq, Structural, Debug)]
pub enum ActivityState {
    Active,
    InactiveShort,
    InactiveLong,
}

impl ActivityState {
    /// The number that stands for the state.
    pub fn number(self) -> (r: u32)
        ensures
            r == activity_number(self),
    {
        match self {
            ActivityState::Active => 0,
            ActivityState::InactiveShort => 1,
            ActivityState::InactiveLong => 2,
        }
    }
}

/// The number that stands for an activity.
pub open spec fn activity_number(a: ActivityState) -> u32 {
    match a {
        ActivityState::Active => 0,
        ActivityState::InactiveShort => 1,
        ActivityState::InactiveLong => 2,
    }
}

/// An audio stream of an application.
pub struct SinkInputInfo {
    pub index: u32,
    pub pid: Option<u32>,
    pub name: String,
    pub volume_percent: u32,
    pub mute: bool,
    /// Whether the stream is paused.
    pub corked: bool,
}

/// The model of a `SinkInputInfo`.
pub struct SinkView {
    pub index: u32,
    pub pid: Option<u32>,
    pub name: Seq<char>,
    pub volume_percent: u32,
    pub mute: bool,
    pub corked: bool,
}

impl View for SinkInputInfo {
    type V = SinkView;

    open spec fn view(&self) -> SinkView {
        SinkView {
            index: self.index,
            pid: self.pid,
            name: self.name@,
            volume_percent: self.volume_percent,
            mute: self.mute,
            corked: self.corked,
        }
    }
}

/// The models of streams.
pub open spec fn sinks_view(s: Seq<SinkInputInfo>) -> Seq<SinkView> {
    s.map_values(|x: SinkInputInfo| x@)
}

/// The position of the last white space in `s`, or -1.
pub open spec fn last_white(s: Seq<char>) -> int
    decreases s.len(),
{
    if s.len() == 0 {
        -1
    } else if text::is_white_space(s.last()) {
        s.len() - 1
    } else {
        last_white(s.drop_last())
    }
}

/// The last word of a text.
pub open spec fn last_word(s: Seq<char>) -> Option<Seq<char>> {
    let t = text::trimmed(s);
    if t.len() == 0 {
        None
    } else {
        Some(t.skip(last_white(t) + 1))
    }
}

/// The percentage in a volume line: the last word before the first `%`.
pub open spec fn volume_in(line: Seq<char>) -> Option<u32> {
    let part = text::split_on(line, '%')[0];
    match last_word(part) {
        Some(w) => match text::parsed_unsigned(w, u32::MAX as nat) {
            Some(n) => Some(n as u32),
            None => None,
        },
        None => None,
    }
}

/// What stands between `prefix` and a closing quote.
pub open spec fn quoted_behind(line: Seq<char>, prefix: Seq<char>) -> Option<Seq<char>> {
    if prefix.is_prefix_of(line) && "\""@.is_suffix_of(line.skip(prefix.len() as int)) {
        let rest = line.skip(prefix.len() as int);
        Some(rest.take(rest.len() - "\""@.len()))
    } else {
        None
    }
}

/// A stream of which nothing is known but its index.
pub open spec fn new_sink(index: u32) -> SinkView {
    SinkView {
        index,
        pid: None,
        name: Seq::empty(),
        volume_percent: 100,
        mute: false,
        corked: false,
    }
}

/// A stream after one more line about it was read.
pub open spec fn sink_with_line(s: SinkView, line: Seq<char>) -> SinkView {
    if "application.process.id = "@.is_prefix_of(line) {
        match quoted_behind(line, "application.process.id = \""@) {
            Some(t) => SinkView {
                pid: match text::parsed_unsigned(t, u32::MAX as nat) {
                    Some(n) => Some(n as u32),
                    None => None,
                },
                ..s
            },
            None => s,
        }
    } else if "application.name = "@.is_prefix_of(line) {
        match quoted_behind(line, "application.name = \""@) {
            Some(t) => SinkView { name: t, ..s },
            None => s,
        }
    } else if "Volume:"@.is_prefix_of(line) {
        match volume_in(line) {
            Some(n) => SinkView { volume_percent: n, ..s },
            None => s,
        }
    } else if "Mute: "@.is_prefix_of(line) {
        SinkView { mute: text::contains_text(line, "yes"@), ..s }
    } else if "Corked: "@.is_prefix_of(line) {
        SinkView { corked: text::contains_text(line, "yes"@), ..s }
    } else {
        s
    }
}

/// The indices under which streams are kept.
pub open spec fn put_sink(done: Seq<SinkView>, s: SinkView) -> Seq<SinkView>
    decreases done.len(),
{
    if done.len() == 0 {
        seq![s]
    } else if done[0].index == s.index {
        seq![s] + done.drop_first()
    } else {
        seq![done[0]] + put_sink(done.drop_first(), s)
    }
}

/// What was read so far: the streams that are complete, the one that is being
/// read, and whether that one has an index and is kept.
pub struct ReadState {
    pub done: Seq<SinkView>,
    pub current: Option<SinkView>,
    pub keep: bool,
}

/// The streams with the one that was being read.
pub open spec fn finished(r: ReadState) -> Seq<SinkView> {
    match r.current {
        Some(s) => if r.keep {
            put_sink(r.done, s)
        } else {
            r.done
        },
        None => r.done,
    }
}

/// What was read after one more line.
pub open spec fn read_line(r: ReadState, line: Seq<char>) -> ReadState {
    if "Sink Input #"@.is_prefix_of(line) {
        let n = text::parsed_unsigned(
            line.skip("Sink Input #"@.len() as int),
            u32::MAX as nat,
        );
        ReadState {
            done: finished(r),
            current: Some(
                new_sink(
                    match n {
                        Some(k) => k as u32,
                        None => 0,
                    },
                ),
            ),
            keep: n is Some,
        }
    } else {
        ReadState {
            current: match r.current {
                Some(s) => Some(sink_with_line(s, line)),
                None => None,
            },
            ..r
        }
    }
}

/// What was read after the first `n` lines.
pub open spec fn read_lines(lines: Seq<Seq<char>>, n: nat) -> ReadState
    decreases n,
{
    if n == 0 || n > lines.len() {
        ReadState { done: Seq::empty(), current: None, keep: false }
    } else {
        read_line(read_lines(lines, (n - 1) as nat), text::trimmed(lines[n - 1]))
    }
}

/// The streams that the sound server lists in `output`.
pub open spec fn listed_sinks(output: Seq<char>) -> Seq<SinkView> {
    let lines = text::split_on(output, '\n');
    finished(read_lines(lines, lines.len()))
}

fn last_word_of(s: &str) -> (r: Option<String>)
    ensures
        text::opt_text(r) == last_word(s@),
{
    let t = trim(s);
    let v = chars_of(&t);
    if v.len() == 0 {
        return None;
    }
    let mut i: usize = v.len();
    assert(v@.take(i as int) =~= v@);
    while i > 0 && !white_space(v[i - 1])
        invariant
            i <= v@.len(),
            last_white(v@) == last_white(v@.take(i as int)),
        decreases i,
    {
        assert(v@.take(i as int).last() == v@[i - 1]);
        assert(v@.take(i as int).drop_last() =~= v@.take(i - 1));
        i = i - 1;
    }
    assert(last_white(v@) == i - 1) by {
        if i > 0 {
            assert(v@.take(i as int).last() == v@[i - 1]);
        }
    }
    let w = text_of_range(&v, i, v.len());
    assert(w@ =~= t@.skip(i as int));
    Some(w)
}

fn parse_u32(s: &str) -> (r: Option<u32>)
    ensures
        r == (match text::parsed_unsigned(s@, u32::MAX as nat) {
            Some(n) => Some(n as u32),
            None => None,
        }),
{
    match parse_unsigned(s, u32::MAX as u64) {
        Some(n) => Some(n as u32),
        None => None,
    }
}

fn volume_of_line(line: &str) -> (r: Option<u32>)
    ensures
        r == volume_in(line@),
{
    let pieces = split(line, '%');
    assert(text::texts(pieces@)[0] == pieces@[0]@);
    match last_word_of(&pieces[0]) {
        Some(w) => parse_u32(&w),
        None => None,
    }
}

fn quoted(line: &str, prefix: &str) -> (r: Option<String>)
    ensures
        text::opt_text(r) == quoted_behind(line@, prefix@),
{
    match strip_prefix(line, prefix) {
        Some(rest) => strip_suffix(&rest, "\""),
        None => None,
    }
}

fn apply_line(s: &mut SinkInputInfo, line: &str)
    ensures
        final(s)@ == sink_with_line(old(s)@, line@),
{
    if starts_with(line, "application.process.id = ") {
        match quoted(line, "application.process.id = \"") {
            Some(t) => {
                s.pid = parse_u32(&t);
            },
            None => {},
        }
    } else if starts_with(line, "application.name = ") {
        match quoted(line, "application.name = \"") {
            Some(t) => {
                s.name = t;
            },
            None => {},
        }
    } else if starts_with(line, "Volume:") {
        match volume_of_line(line) {
            Some(n) => {
                s.volume_percent = n;
            },
            None => {},
        }
    } else if starts_with(line, "Mute: ") {
        s.mute = contains(line, "yes");
    } else if starts_with(line, "Corked: ") {
        s.corked = contains(line, "yes");
    }
}

proof fn lemma_put_sink(done: Seq<SinkView>, s: SinkView, k: int)
    requires
        0 <= k <= done.len(),
        forall|j: int| 0 <= j < k ==> (#[trigger] done[j]).index != s.index,
        k < done.len() ==> done[k].index == s.index,
    ensures
        put_sink(done, s) == if k < done.len() {
            done.update(k, s)
        } else {
            done.push(s)
        },
    decreases done.len(),
{
    if done.len() == 0 {
        assert(put_sink(done, s) =~= done.push(s));
    } else if k == 0 {
        assert(put_sink(done, s) =~= done.update(0, s));
    } else {
        assert(done[0].index != s.index);
        let t = done.drop_first();
        assert forall|j: int| 0 <= j < k - 1 implies (#[trigger] t[j]).index != s.index by {
            assert(t[j] == done[j + 1]);
        }
        lemma_put_sink(t, s, k - 1);
        if k < done.len() {
            assert(put_sink(done, s) =~= done.update(k, s));
        } else {
            assert(put_sink(done, s) =~= done.push(s));
        }
    }
}

fn put(done: &mut Vec<SinkInputInfo>, s: SinkInputInfo)
    ensures
        sinks_view(final(done)@) == put_sink(sinks_view(old(done)@), s@),
{
    let ghost all = sinks_view(done@);
    let mut k: usize = 0;
    while k < done.len() && done[k].index != s.index
        invariant
            k <= done@.len(),
            done@ == old(done)@,
            all == sinks_view(done@),
            forall|j: int| 0 <= j < k ==> (#[trigger] all[j]).index != s.index,
        decreases done@.len() - k,
    {
        assert(all[k as int].index == done@[k as int].index);
        k = k + 1;
    }
    proof {
        if k < done@.len() {
            assert(all[k as int].index == done@[k as int].index);
        }
        lemma_put_sink(all, s@, k as int);
    }
    if k < done.len() {
        done.set(k, s);
        assert(sinks_view(done@) =~= all.update(k as int, s@));
    } else {
        done.push(s);
        assert(sinks_view(done@) =~= all.push(s@));
    }
}

/// The model of a stream that is being read.
pub open spec fn opt_sink(s: Option<SinkInputInfo>) -> Option<SinkView> {
    match s {
        Some(x) => Some(x@),
        None => None,
    }
}

/// Reads the list of streams that the sound server prints.
pub fn parse_sink_inputs(output: &str) -> (r: Vec<SinkInputInfo>)
    ensures
        sinks_view(r@) == listed_sinks(output@),
{
    let lines = split(output, '\n');
    let ghost all = text::split_on(output@, '\n');
    assert(all.len() == lines@.len());
    let mut done: Vec<SinkInputInfo> = Vec::new();
    let mut current: Option<SinkInputInfo> = None;
    let mut keep = false;
    let mut i: usize = 0;
    assert(sinks_view(done@) =~= Seq::<SinkView>::empty());
    while i < lines.len()
        invariant
            i <= lines@.len(),
            all == text::texts(lines@),
            ({
                let st = read_lines(all, i as nat);
                sinks_view(done@) == st.done && opt_sink(current) == st.current && keep == st.keep
            }),
        decreases lines@.len() - i,
    {
        let line = trim(&lines[i]);
        assert(all[i as int] == lines@[i as int]@);
        match strip_prefix(&line, "Sink Input #") {
            Some(n) => {
                match current {
                    Some(s) => {
                        if keep {
                            put(&mut done, s);
                        }
                    },
                    None => {},
                }
                let index = parse_u32(&n);
                keep = index.is_some();
                let k: u32 = match index {
                    Some(k) => k,
                    None => 0,
                };
                current = Some(
                    SinkInputInfo {
                        index: k,
                        pid: None,
                        name: String::new(),
                        volume_percent: 100,
                        mute: false,
                        corked: false,
                    },
                );
            },
            None => {
                current = match current {
                    Some(s) => {
                        let mut s = s;
                        apply_line(&mut s, &line);
                        Some(s)
                    },
                    None => None,
                };
            },
        }
        i = i + 1;
    }
    match current {
        Some(s) => {
            if keep {
                put(&mut done, s);
            }
        },
        None => {},
    }
    done
}

proof fn lemma_put_sink_distinct(done: Seq<SinkView>, s: SinkView)
    requires
        forall|i: int, j: int|
            0 <= i < j < done.len() ==> (#[trigger] done[i]).index != (#[trigger] done[j]).index,
    ensures
        forall|i: int, j: int|
            0 <= i < j < put_sink(done, s).len() ==> (#[trigger] put_sink(done, s)[i]).index != (
            #[trigger] put_sink(done, s)[j]).index,
{
    let k = first_with_index(done, s.index);
    lemma_first_with_index(done, s.index);
    lemma_put_sink(done, s, k);
}

spec fn first_with_index(done: Seq<SinkView>, index: u32) -> int
    decreases done.len(),
{
    if done.len() == 0 || done[0].index == index {
        0
    } else {
        1 + first_with_index(done.drop_first(), index)
    }
}

proof fn lemma_first_with_index(done: Seq<SinkView>, index: u32)
    ensures
        0 <= first_with_index(done, index) <= done.len(),
        forall|j: int|
            0 <= j < first_with_index(done, index) ==> (#[trigger] done[j]).index != index,
        first_with_index(done, index) < done.len() ==> done[first_with_index(done, index)].index
            == index,
    decreases done.len(),
{
    if done.len() > 0 && done[0].index != index {
        let t = done.drop_first();
        lemma_first_with_index(t, index);
        assert forall|j: int| 0 <= j < first_with_index(done, index) implies (
        #[trigger] done[j]).index != index by {
            if j > 0 {
                assert(t[j - 1] == done[j]);
            }
        }
    }
}

proof fn lemma_read_distinct(lines: Seq<Seq<char>>, n: nat)
    ensures
        forall|i: int, j: int|
            0 <= i < j < read_lines(lines, n).done.len() ==> (#[trigger] read_lines(
                lines,
                n,
            ).done[i]).index != (#[trigger] read_lines(lines, n).done[j]).index,
    decreases n,
{
    if n > 0 && n <= lines.len() {
        lemma_read_distinct(lines, (n - 1) as nat);
        let before = read_lines(lines, (n - 1) as nat);
        match before.current {
            Some(s) => {
                lemma_put_sink_distinct(before.done, s);
            },
            None => {},
        }
    }
}

/// No two listed streams have the same index.
pub proof fn law_sinks_distinct(output: Seq<char>)
    ensures
        forall|i: int, j: int|
            0 <= i < j < listed_sinks(output).len() ==> (#[trigger] listed_sinks(output)[i]).index
                != (#[trigger] listed_sinks(output)[j]).index,
{
    let lines = text::split_on(output, '\n');
    lemma_read_distinct(lines, lines.len());
    let st = read_lines(lines, lines.len());
    match st.current {
        Some(s) => {
            lemma_put_sink_distinct(st.done, s);
        },
        None => {},
    }
}

proof fn lemma_begins_with(a: Seq<char>, b: Seq<char>)
    ensures
        a.is_prefix_of(a + b),
        (a + b).skip(a.len() as int) == b,
{
    assert((a + b).subrange(0, a.len() as int) =~= a);
    assert((a + b).skip(a.len() as int) =~= b);
}

proof fn lemma_begins_otherwise(p: Seq<char>, s: Seq<char>, k: int)
    requires
        0 <= k < p.len(),
        k < s.len(),
        p[k] != s[k],
    ensures
        !p.is_prefix_of(s),
{
    if p.is_prefix_of(s) {
        assert(s.subrange(0, p.len() as int)[k] == s[k]);
    }
}

proof fn lemma_quoted(prefix: Seq<char>, t: Seq<char>)
    ensures
        quoted_behind(prefix + t + "\""@, prefix) == Some(t),
{
    reveal_strlit("\"");
    let line = prefix + t + "\""@;
    let rest = t + "\""@;
    assert(line =~= prefix + rest);
    lemma_begins_with(prefix, rest);
    assert(rest.subrange(t.len() as int, rest.len() as int) =~= "\""@);
    assert(rest.take(t.len() as int) =~= t);
}

/// A line that names the process of a stream gives the stream that process, and
/// changes nothing else.
pub proof fn law_line_names_process(s: SinkView, pid: u32)
    ensures
        sink_with_line(
            s,
            "application.process.id = \""@ + text::decimal(pid as nat) + "\""@,
        ) == (SinkView { pid: Some(pid), ..s }),
{
    reveal_strlit("application.process.id = ");
    reveal_strlit("application.process.id = \"");
    let d = text::decimal(pid as nat);
    let line = "application.process.id = \""@ + d + "\""@;
    lemma_quoted("application.process.id = \""@, d);
    assert(line =~= "application.process.id = "@ + (seq!['"'] + d + "\""@));
    lemma_begins_with("application.process.id = "@, seq!['"'] + d + "\""@);
    text::lemma_parse_decimal(pid as nat, u32::MAX as nat);
}

/// A line that names the application of a stream gives the stream that name,
/// whatever it is, and changes nothing else.
pub proof fn law_line_names_application(s: SinkView, name: Seq<char>)
    ensures
        sink_with_line(s, "application.name = \""@ + name + "\""@) == (SinkView { name, ..s }),
{
    reveal_strlit("application.process.id = ");
    reveal_strlit("application.name = ");
    reveal_strlit("application.name = \"");
    let line = "application.name = \""@ + name + "\""@;
    lemma_quoted("application.name = \""@, name);
    assert(line =~= "application.name = "@ + (seq!['"'] + name + "\""@));
    lemma_begins_with("application.name = "@, seq!['"'] + name + "\""@);
    lemma_begins_otherwise("application.process.id = "@, line, 12);
}

proof fn lemma_last_white(a: Seq<char>, d: Seq<char>)
    requires
        forall|j: int| 0 <= j < d.len() ==> !text::is_white_space(#[trigger] d[j]),
    ensures
        last_white(a + seq![' '] + d) == a.len(),
    decreases d.len(),
{
    let s = a + seq![' '] + d;
    if d.len() == 0 {
        assert(s.last() == ' ');
    } else {
        assert(s.last() == d.last());
        assert(s.drop_last() =~= a + seq![' '] + d.drop_last());
        lemma_last_white(a, d.drop_last());
    }
}

proof fn lemma_digit_is_no_space(c: char)
    requires
        text::is_digit(c),
    ensures
        !text::is_white_space(c),
        c != '%',
{
}

/// A volume line gives the stream the percentage that stands before its first `%`,
/// and changes nothing else.
#[verifier::rlimit(50)]
pub proof fn law_line_gives_volume(s: SinkView, head: Seq<char>, n: u32, tail: Seq<char>)
    requires
        !head.contains('%'),
    ensures
        sink_with_line(
            s,
            "Volume:"@ + head + seq![' '] + text::decimal(n as nat) + seq!['%'] + tail,
        ) == (SinkView { volume_percent: n, ..s }),
{
    reveal_strlit("application.process.id = ");
    reveal_strlit("application.name = ");
    reveal_strlit("Volume:");
    let v = "Volume:"@;
    let d = text::decimal(n as nat);
    let a = v + head;
    let part = a + seq![' '] + d;
    let line = v + head + seq![' '] + d + seq!['%'] + tail;
    assert(line =~= v + (head + seq![' '] + d + seq!['%'] + tail));
    lemma_begins_with(v, head + seq![' '] + d + seq!['%'] + tail);
    lemma_begins_otherwise("application.process.id = "@, line, 0);
    lemma_begins_otherwise("application.name = "@, line, 0);
    text::lemma_decimal(n as nat);
    assert forall|j: int| 0 <= j < d.len() implies !text::is_white_space(#[trigger] d[j]) && d[j]
        != '%' by {
        lemma_digit_is_no_space(d[j]);
    }
    assert(!part.contains('%')) by {
        assert forall|j: int| 0 <= j < part.len() implies #[trigger] part[j] != '%' by {
            if j < v.len() {
                assert(part[j] == v[j]);
            } else if j < a.len() {
                assert(part[j] == head[j - v.len()]);
            } else if j > a.len() {
                assert(part[j] == d[j - a.len() - 1]);
            }
        }
    }
    assert(line =~= part + seq!['%'] + tail);
    text::lemma_split_on_head(part, '%', tail);
    text::lemma_split_on_step(tail, '%');
    assert(text::split_on(line, '%')[0] == part);
    assert(part[0] == 'V');
    assert(part.last() == d.last());
    text::lemma_trimmed_behind(part, Seq::empty());
    assert(part + Seq::<char>::empty() =~= part);
    assert(text::trimmed(part) =~= part);
    lemma_last_white(a, d);
    assert(part.skip(a.len() as int + 1) =~= d);
    text::lemma_parse_decimal(n as nat, u32::MAX as nat);
}

proof fn lemma_ends_with_text(a: Seq<char>, needle: Seq<char>)
    ensures
        text::contains_text(a + needle, needle),
{
    let s = a + needle;
    assert(s.subrange(a.len() as int, (a.len() + needle.len()) as int) =~= needle);
    assert(text::occurs_at(s, needle, a.len() as int));
}

proof fn lemma_lacks_text(s: Seq<char>, needle: Seq<char>)
    requires
        needle.len() > 0,
        forall|j: int| 0 <= j < s.len() ==> #[trigger] s[j] != needle[0],
    ensures
        !text::contains_text(s, needle),
{
    assert forall|i: int| !text::occurs_at(s, needle, i) by {
        if text::occurs_at(s, needle, i) {
            assert(s.subrange(i, i + needle.len())[0] == s[i]);
        }
    }
}

proof fn lemma_is_a_flag_line(line: Seq<char>)
    requires
        line.len() > 0,
        line[0] == 'M' || line[0] == 'C',
    ensures
        !"application.process.id = "@.is_prefix_of(line),
        !"application.name = "@.is_prefix_of(line),
        !"Volume:"@.is_prefix_of(line),
        line[0] == 'C' ==> !"Mute: "@.is_prefix_of(line),
{
    reveal_strlit("application.process.id = ");
    reveal_strlit("application.name = ");
    reveal_strlit("Volume:");
    reveal_strlit("Mute: ");
    lemma_begins_otherwise("application.process.id = "@, line, 0);
    lemma_begins_otherwise("application.name = "@, line, 0);
    lemma_begins_otherwise("Volume:"@, line, 0);
    if line[0] == 'C' {
        lemma_begins_otherwise("Mute: "@, line, 0);
    }
}

proof fn lemma_yes_line(prefix: Seq<char>, line: Seq<char>)
    requires
        line == prefix + "yes"@,
    ensures
        prefix.is_prefix_of(line),
        text::contains_text(line, "yes"@),
{
    lemma_begins_with(prefix, "yes"@);
    lemma_ends_with_text(prefix, "yes"@);
}

proof fn lemma_no_line(prefix: Seq<char>, line: Seq<char>)
    requires
        line == prefix + "no"@,
        !prefix.contains('y'),
    ensures
        prefix.is_prefix_of(line),
        !text::contains_text(line, "yes"@),
{
    reveal_strlit("yes");
    reveal_strlit("no");
    lemma_begins_with(prefix, "no"@);
    assert forall|j: int| 0 <= j < line.len() implies #[trigger] line[j] != "yes"@[0] by {
        if j < prefix.len() {
            assert(line[j] == prefix[j]);
        } else {
            assert(line[j] == "no"@[j - prefix.len()]);
        }
    }
    lemma_lacks_text(line, "yes"@);
}

/// A stream is muted after the line `Mute: yes` and not after `Mute: no`; nothing
/// else changes.
pub proof fn law_line_gives_mute(s: SinkView)
    ensures
        sink_with_line(s, "Mute: "@ + "yes"@) == (SinkView { mute: true, ..s }),
        sink_with_line(s, "Mute: "@ + "no"@) == (SinkView { mute: false, ..s }),
{
    let p = "Mute: "@;
    assert(p.len() > 0 && p[0] == 'M' && !p.contains('y')) by {
        reveal_strlit("Mute: ");
    }
    lemma_is_a_flag_line(p + "yes"@);
    lemma_is_a_flag_line(p + "no"@);
    lemma_yes_line(p, p + "yes"@);
    lemma_no_line(p, p + "no"@);
}

/// A stream is paused after the line `Corked: yes` and not after `Corked: no`;
/// nothing else changes.
pub proof fn law_line_gives_corked(s: SinkView)
    ensures
        sink_with_line(s, "Corked: "@ + "yes"@) == (SinkView { corked: true, ..s }),
        sink_with_line(s, "Corked: "@ + "no"@) == (SinkView { corked: false, ..s }),
{
    let p = "Corked: "@;
    assert(p.len() > 0 && p[0] == 'C' && !p.contains('y')) by {
        reveal_strlit("Corked: ");
    }
    lemma_is_a_flag_line(p + "yes"@);
    lemma_is_a_flag_line(p + "no"@);
    lemma_yes_line(p, p + "yes"@);
    lemma_no_line(p, p + "no"@);
}

/// A heading begins a new stream with its number, of which nothing else is known,
/// and the stream before it is kept as it was read.
pub proof fn law_heading_begins_stream(r: ReadState, n: u32)
    ensures
        ({
            let after = read_line(r, "Sink Input #"@ + text::decimal(n as nat));
            &&& after.keep
            &&& after.current matches Some(s) && s.index == n && s.pid is None && s.name.len() == 0
                && s.volume_percent == 100 && !s.mute && !s.corked
            &&& r.current is None || !r.keep ==> after.done == r.done
            &&& r.current matches Some(s) ==> r.keep ==> after.done.contains(s)
            &&& r.current matches Some(s) ==> forall|k: int|
                0 <= k < r.done.len() && r.done[k].index != s.index ==> after.done.contains(
                    #[trigger] r.done[k],
                )
        }),
{
    reveal_strlit("Sink Input #");
    lemma_begins_with("Sink Input #"@, text::decimal(n as nat));
    text::lemma_parse_decimal(n as nat, u32::MAX as nat);
    if let Some(s) = r.current {
        lemma_put_sink_keeps(r.done, s);
        assert forall|k: int| 0 <= k < r.done.len() && r.done[k].index != s.index implies finished(
            r,
        ).contains(#[trigger] r.done[k]) by {}
    }
}

proof fn lemma_put_sink_keeps(done: Seq<SinkView>, s: SinkView)
    ensures
        put_sink(done, s).contains(s),
        forall|k: int|
            0 <= k < done.len() && done[k].index != s.index ==> put_sink(done, s).contains(
                #[trigger] done[k],
            ),
    decreases done.len(),
{
    let p = put_sink(done, s);
    if done.len() == 0 {
        assert(p[0] == s);
    } else if done[0].index == s.index {
        assert(p[0] == s);
        assert forall|k: int| 0 <= k < done.len() && done[k].index != s.index implies p.contains(
            #[trigger] done[k],
        ) by {
            assert(p[k] == done[k]);
        }
    } else {
        let rest = done.drop_first();
        let q = put_sink(rest, s);
        lemma_put_sink_keeps(rest, s);
        let i = choose|i: int| 0 <= i < q.len() && q[i] == s;
        assert(p[i + 1] == s);
        assert forall|k: int| 0 <= k < done.len() && done[k].index != s.index implies p.contains(
            #[trigger] done[k],
        ) by {
            if k == 0 {
                assert(p[0] == done[0]);
            } else {
                assert(rest[k - 1] == done[k]);
                let j = choose|j: int| 0 <= j < q.len() && q[j] == rest[k - 1];
                assert(p[j + 1] == done[k]);
            }
        }
    }
}

/// The position of the first stream of a process, or the number of streams.
pub open spec fn sink_of_pid(s: Seq<SinkView>, pid: u32) -> int
    decreases s.len(),
{
    if s.len() == 0 || s[0].pid == Some(pid) {
        0
    } else {
        1 + sink_of_pid(s.drop_first(), pid)
    }
}

/// The first stream of a process.
pub fn get_sink_input_by_pid<'a>(sinks: &'a Vec<SinkInputInfo>, pid: u32) -> (r: Option<
    &'a SinkInputInfo,
>)
    ensures
        ({
            let all = sinks_view(sinks@);
            let k = sink_of_pid(all, pid);
            match r {
                Some(s) => 0 <= k < all.len() && s@ == all[k] && s.pid == Some(pid),
                None => k == all.len() && forall|i: int|
                    0 <= i < all.len() ==> (#[trigger] all[i]).pid != Some(pid),
            }
        }),
{
    let ghost all = sinks_view(sinks@);
    let mut i: usize = 0;
    assert(all.skip(0) =~= all);
    while i < sinks.len()
        invariant
            i <= sinks@.len(),
            all == sinks_view(sinks@),
            sink_of_pid(all, pid) == i + sink_of_pid(all.skip(i as int), pid),
            forall|j: int| 0 <= j < i ==> (#[trigger] all[j]).pid != Some(pid),
        decreases sinks@.len() - i,
    {
        assert(all.skip(i as int)[0] == sinks@[i as int]@);
        assert(all[i as int] == sinks@[i as int]@);
        assert(all.skip(i as int).drop_first() =~= all.skip(i + 1));
        let found = match sinks[i].pid {
            Some(p) => p == pid,
            None => false,
        };
        if found {
            return Some(&sinks[i]);
        }
        i = i + 1;
    }
    assert(all.skip(i as int).len() == 0);
    None
}

/// The volume of the first stream of a process, where it has one.
pub open spec fn volume_of(s: Seq<SinkView>, pid: u32) -> Option<u32> {
    if sink_of_pid(s, pid) < s.len() {
        Some(s[sink_of_pid(s, pid)].volume_percent)
    } else {
        None
    }
}

/// Whether the first stream of a process is muted, where it has one.
pub open spec fn mute_of(s: Seq<SinkView>, pid: u32) -> Option<bool> {
    if sink_of_pid(s, pid) < s.len() {
        Some(s[sink_of_pid(s, pid)].mute)
    } else {
        None
    }
}

/// The volume of an application: that of its first stream.
pub fn get_app_volume(sinks: &Vec<SinkInputInfo>, pid: u32) -> (r: Option<u32>)
    ensures
        r == volume_of(sinks_view(sinks@), pid),
        ({
            let all = sinks_view(sinks@);
            let k = sink_of_pid(all, pid);
            r == if k < all.len() {
                Some(all[k].volume_percent)
            } else {
                None
            }
        }),
{
    match get_sink_input_by_pid(sinks, pid) {
        Some(s) => Some(s.volume_percent),
        None => None,
    }
}

/// Whether an application is muted: whether its first stream is.
pub fn get_app_mute(sinks: &Vec<SinkInputInfo>, pid: u32) -> (r: Option<bool>)
    ensures
        r == mute_of(sinks_view(sinks@), pid),
        ({
            let all = sinks_view(sinks@);
            let k = sink_of_pid(all, pid);
            r == if k < all.len() {
                Some(all[k].mute)
            } else {
                None
            }
        }),
{
    match get_sink_input_by_pid(sinks, pid) {
        Some(s) => Some(s.mute),
        None => None,
    }
}

// ---------------------------------------------------------------------------
// Applications and devices
// ---------------------------------------------------------------------------

/// An application that plays audio.
pub struct ApplicationInfo {
    pub process_id: u32,
    pub executable_file: String,
    pub display_name: String,
    pub volume_percent: u32,
    pub mute: bool,
    pub activity: ActivityState,
}

/// The model of an `ApplicationInfo`.
pub struct AppView {
    pub process_id: u32,
    pub executable_file: Seq<char>,
    pub display_name: Seq<char>,
    pub volume_percent: u32,
    pub mute: bool,
    pub activity: ActivityState,
}

impl View for ApplicationInfo {
    type V = AppView;

    open spec fn view(&self) -> AppView {
        AppView {
            process_id: self.process_id,
            executable_file: self.executable_file@,
            display_name: self.display_name@,
            volume_percent: self.volume_percent,
            mute: self.mute,
            activity: self.activity,
        }
    }
}

/// The models of applications.
pub open spec fn apps_view(s: Seq<ApplicationInfo>) -> Seq<AppView> {
    s.map_values(|x: ApplicationInfo| x@)
}

/// The executable of a process, where it is known.
pub open spec fn executable_of(exes: Seq<(u32, Seq<char>)>, pid: u32) -> Option<Seq<char>>
    decreases exes.len(),
{
    if exes.len() == 0 {
        None
    } else if exes[0].0 == pid {
        Some(exes[0].1)
    } else {
        executable_of(exes.drop_first(), pid)
    }
}

/// The application of a stream of the process `pid`.
pub open spec fn app_of(s: SinkView, pid: u32, exes: Seq<(u32, Seq<char>)>) -> AppView {
    AppView {
        process_id: pid,
        executable_file: match executable_of(exes, pid) {
            Some(e) => e,
            None => s.name,
        },
        display_name: s.name,
        volume_percent: s.volume_percent,
        mute: s.mute,
        activity: if s.corked {
            ActivityState::InactiveShort
        } else {
            ActivityState::Active
        },
    }
}

/// The applications of the first `n` streams.
pub open spec fn apps_of(s: Seq<SinkView>, exes: Seq<(u32, Seq<char>)>, n: nat) -> Seq<AppView>
    decreases n,
{
    if n == 0 || n > s.len() {
        Seq::empty()
    } else {
        let before = apps_of(s, exes, (n - 1) as nat);
        match s[n - 1].pid {
            Some(pid) => before.push(app_of(s[n - 1], pid, exes)),
            None => before,
        }
    }
}

/// The models of known executables.
pub open spec fn exes_view(s: Seq<(u32, String)>) -> Seq<(u32, Seq<char>)> {
    s.map_values(|e: (u32, String)| (e.0, e.1@))
}

fn find_executable(exes: &Vec<(u32, String)>, pid: u32) -> (r: Option<String>)
    ensures
        text::opt_text(r) == executable_of(exes_view(exes@), pid),
{
    let ghost all = exes_view(exes@);
    let mut i: usize = 0;
    assert(all.skip(0) =~= all);
    while i < exes.len()
        invariant
            i <= exes@.len(),
            all == exes_view(exes@),
            executable_of(all, pid) == executable_of(all.skip(i as int), pid),
        decreases exes@.len() - i,
    {
        assert(all.skip(i as int)[0] == (exes@[i as int].0, exes@[i as int].1@));
        assert(all.skip(i as int).drop_first() =~= all.skip(i + 1));
        if exes[i].0 == pid {
            return Some(exes[i].1.clone());
        }
        i = i + 1;
    }
    assert(all.skip(i as int).len() == 0);
    None
}

/// The applications that play audio, given the executables of their processes
/// as far as they are known.
pub fn list_applications(sinks: &Vec<SinkInputInfo>, exes: &Vec<(u32, String)>) -> (r: Vec<
    ApplicationInfo,
>)
    ensures
        apps_view(r@) == apps_of(sinks_view(sinks@), exes_view(exes@), sinks@.len()),
{
    let ghost all = sinks_view(sinks@);
    let mut out: Vec<ApplicationInfo> = Vec::new();
    let mut i: usize = 0;
    assert(apps_view(out@) =~= Seq::<AppView>::empty());
    while i < sinks.len()
        invariant
            i <= sinks@.len(),
            all == sinks_view(sinks@),
            apps_view(out@) == apps_of(all, exes_view(exes@), i as nat),
        decreases sinks@.len() - i,
    {
        let s = &sinks[i];
        assert(all[i as int] == s@);
        match s.pid {
            Some(pid) => {
                let executable_file = match find_executable(exes, pid) {
                    Some(e) => e,
                    None => s.name.clone(),
                };
                let app = ApplicationInfo {
                    process_id: pid,
                    executable_file,
                    display_name: s.name.clone(),
                    volume_percent: s.volume_percent,
                    mute: s.mute,
                    activity: if s.corked {
                        ActivityState::InactiveShort
                    } else {
                        ActivityState::Active
                    },
                };
                let ghost before = out@;
                out.push(app);
                assert(apps_view(out@) =~= apps_view(before).push(app@));
            },
            None => {},
        }
        i = i + 1;
    }
    out
}

/// The streams that have a process.
pub open spec fn with_process(s: Seq<SinkView>) -> Seq<SinkView> {
    s.filter(|x: SinkView| x.pid is Some)
}

proof fn lemma_apps_of(s: Seq<SinkView>, exes: Seq<(u32, Seq<char>)>, n: nat)
    requires
        n <= s.len(),
    ensures
        ({
            let named = with_process(s.take(n as int));
            let apps = apps_of(s, exes, n);
            &&& apps.len() == named.len()
            &&& forall|k: int|
                0 <= k < apps.len() ==> named[k].pid is Some && #[trigger] apps[k] == app_of(
                    named[k],
                    named[k].pid->0,
                    exes,
                )
        }),
    decreases n,
{
    reveal(Seq::filter);
    let now = s.take(n as int);
    if n > 0 {
        let m = (n - 1) as nat;
        lemma_apps_of(s, exes, m);
        assert(now.drop_last() =~= s.take(m as int));
        assert(now.last() == s[m as int]);
    }
}

/// The applications that are listed are, in order, the streams that have a
/// process, and each has the process, the name, the volume and the mute state of
/// its stream, and is active unless the stream is paused.
pub proof fn law_applications_are_streams(s: Seq<SinkView>, exes: Seq<(u32, Seq<char>)>)
    ensures
        ({
            let named = with_process(s);
            let apps = apps_of(s, exes, s.len());
            &&& apps.len() == named.len()
            &&& forall|k: int|
                0 <= k < apps.len() ==> {
                    &&& named[k].pid == Some((#[trigger] apps[k]).process_id)
                    &&& apps[k].display_name == named[k].name
                    &&& apps[k].volume_percent == named[k].volume_percent
                    &&& apps[k].mute == named[k].mute
                    &&& apps[k].activity == ActivityState::InactiveShort <==> named[k].corked
                    &&& apps[k].activity == ActivityState::Active <==> !named[k].corked
                }
        }),
{
    lemma_apps_of(s, exes, s.len());
    assert(s.take(s.len() as int) =~= s);
}

/// The executable of a listed application is the one that is known of its process,
/// and its name where none is known.
pub proof fn law_executable_is_of_the_process(
    s: SinkView,
    pid: u32,
    exes: Seq<(u32, Seq<char>)>,
    k: int,
)
    requires
        0 <= k <= exes.len(),
        forall|j: int| 0 <= j < k ==> (#[trigger] exes[j]).0 != pid,
        k < exes.len() ==> exes[k].0 == pid,
    ensures
        k < exes.len() ==> app_of(s, pid, exes).executable_file == exes[k].1,
        k == exes.len() ==> app_of(s, pid, exes).executable_file == s.name,
    decreases exes.len(),
{
    if k > 0 {
        let rest = exes.drop_first();
        assert forall|j: int| 0 <= j < k - 1 implies (#[trigger] rest[j]).0 != pid by {
            assert(rest[j] == exes[j + 1]);
        }
        assert(exes[0].0 != pid);
        law_executable_is_of_the_process(s, pid, rest, k - 1);
    }
}

/// The stream of a process is its first.
pub proof fn law_stream_of_a_process(s: Seq<SinkView>, pid: u32)
    ensures
        0 <= sink_of_pid(s, pid) <= s.len(),
        sink_of_pid(s, pid) < s.len() ==> s[sink_of_pid(s, pid)].pid == Some(pid),
        forall|j: int| 0 <= j < sink_of_pid(s, pid) ==> (#[trigger] s[j]).pid != Some(pid),
    decreases s.len(),
{
    if s.len() > 0 && s[0].pid != Some(pid) {
        let rest = s.drop_first();
        law_stream_of_a_process(rest, pid);
        assert forall|j: int| 0 <= j < sink_of_pid(s, pid) implies (#[trigger] s[j]).pid != Some(
            pid,
        ) by {
            if j > 0 {
                assert(rest[j - 1] == s[j]);
            }
        }
    }
}

/// The application of a process is the first that is listed with it.
pub proof fn law_application_of_a_process(apps: Seq<AppView>, pid: u32)
    ensures
        0 <= app_index(apps, pid) <= apps.len(),
        app_index(apps, pid) < apps.len() ==> apps[app_index(apps, pid)].process_id == pid,
        forall|j: int| 0 <= j < app_index(apps, pid) ==> (#[trigger] apps[j]).process_id != pid,
    decreases apps.len(),
{
    if apps.len() > 0 && apps[0].process_id != pid {
        let rest = apps.drop_first();
        law_application_of_a_process(rest, pid);
        assert forall|j: int| 0 <= j < app_index(apps, pid) implies (
        #[trigger] apps[j]).process_id != pid by {
            if j > 0 {
                assert(rest[j - 1] == apps[j]);
            }
        }
    }
}

proof fn lemma_app_index_grows(apps: Seq<AppView>, a: AppView, pid: u32)
    ensures
        app_index(apps, pid) < apps.len() ==> app_index(apps.push(a), pid) == app_index(apps, pid),
        app_index(apps, pid) == apps.len() ==> app_index(apps.push(a), pid) == if a.process_id
            == pid {
            apps.len()
        } else {
            apps.len() + 1
        },
    decreases apps.len(),
{
    law_application_of_a_process(apps, pid);
    if apps.len() == 0 {
        reveal_with_fuel(app_index, 2);
        assert(apps.push(a).drop_first().len() == 0);
        assert(apps.push(a)[0] == a);
    } else {
        assert(apps.push(a)[0] == apps[0]);
        assert(apps.push(a).drop_first() =~= apps.drop_first().push(a));
        lemma_app_index_grows(apps.drop_first(), a, pid);
    }
}

proof fn lemma_sink_of_pid_is(s: Seq<SinkView>, pid: u32, k: int)
    requires
        0 <= k <= s.len(),
        forall|j: int| 0 <= j < k ==> (#[trigger] s[j]).pid != Some(pid),
        k < s.len() ==> s[k].pid == Some(pid),
    ensures
        sink_of_pid(s, pid) == k,
{
    law_stream_of_a_process(s, pid);
    let i = sink_of_pid(s, pid);
    if i < k {
        assert(s[i].pid != Some(pid));
    }
    if k < i {
        assert(s[k].pid != Some(pid));
    }
}

proof fn lemma_answer_agrees(
    s: Seq<SinkView>,
    exes: Seq<(u32, Seq<char>)>,
    pid: u32,
    n: nat,
)
    requires
        n <= s.len(),
    ensures
        ({
            let apps = apps_of(s, exes, n);
            let now = s.take(n as int);
            let i = app_index(apps, pid);
            let k = sink_of_pid(now, pid);
            &&& i < apps.len() <==> k < now.len()
            &&& i < apps.len() ==> apps[i].volume_percent == now[k].volume_percent && apps[i].mute
                == now[k].mute && apps[i].display_name == now[k].name
        }),
    decreases n,
{
    let now = s.take(n as int);
    let apps = apps_of(s, exes, n);
    law_stream_of_a_process(now, pid);
    law_application_of_a_process(apps, pid);
    if n > 0 {
        let m = (n - 1) as nat;
        let x = s[m as int];
        let before = s.take(m as int);
        let listed = apps_of(s, exes, m);
        lemma_answer_agrees(s, exes, pid, m);
        law_stream_of_a_process(before, pid);
        law_application_of_a_process(listed, pid);
        assert(now =~= before.push(x));
        let k = sink_of_pid(before, pid);
        if k < before.len() {
            assert forall|j: int| 0 <= j < k implies (#[trigger] now[j]).pid != Some(pid) by {
                assert(now[j] == before[j]);
            }
            assert(now[k] == before[k]);
            lemma_sink_of_pid_is(now, pid, k);
        } else {
            assert forall|j: int| 0 <= j < m implies (#[trigger] now[j]).pid != Some(pid) by {
                assert(now[j] == before[j]);
            }
            if x.pid == Some(pid) {
                lemma_sink_of_pid_is(now, pid, m as int);
            } else {
                assert forall|j: int| 0 <= j < n implies (#[trigger] now[j]).pid != Some(pid) by {
                    if j < m {
                        assert(now[j] == before[j]);
                    }
                }
                lemma_sink_of_pid_is(now, pid, n as int);
            }
        }
        if let Some(p) = x.pid {
            lemma_app_index_grows(listed, app_of(x, p, exes), pid);
        }
    }
}

/// The answer for a process agrees with what is asked of the process alone: an
/// application is listed for a process exactly where the process has a stream, and
/// its volume and mute state are then those that are given for the process, which
/// are those of its first stream.
pub proof fn law_answer_agrees_with_volume(
    s: Seq<SinkView>,
    exes: Seq<(u32, Seq<char>)>,
    pid: u32,
)
    ensures
        ({
            let apps = apps_of(s, exes, s.len());
            let i = app_index(apps, pid);
            let k = sink_of_pid(s, pid);
            &&& i < apps.len() <==> volume_of(s, pid) is Some
            &&& i < apps.len() <==> mute_of(s, pid) is Some
            &&& i < apps.len() ==> volume_of(s, pid) == Some(apps[i].volume_percent) && mute_of(
                s,
                pid,
            ) == Some(apps[i].mute)
            &&& i < apps.len() ==> k < s.len() && apps[i].volume_percent == s[k].volume_percent
                && apps[i].mute == s[k].mute && apps[i].display_name == s[k].name
        }),
{
    lemma_answer_agrees(s, exes, pid, s.len());
    assert(s.take(s.len() as int) =~= s);
}

/// A reply describes one application only: its process, names, volume and mute
/// state are those of the reply.
pub proof fn law_described_application(r: Reply, a: AppView)
    requires
        describes(r, a),
    ensures
        r matches Reply::Result(CallResult::Application(i)) && i.process_id == a.process_id
            && i.display_name@ == a.display_name && i.executable_file@ == a.executable_file
            && i.volume_percent == a.volume_percent && i.mute == a.mute && (i.activity == 0
            <==> a.activity == ActivityState::Active) && (i.activity == 1 <==> a.activity
            == ActivityState::InactiveShort) && (i.activity == 2 <==> a.activity
            == ActivityState::InactiveLong),
{
}

/// An audio device.
pub struct AudioDevice {
    pub id: String,
    pub friendly_name: String,
    pub volume_percent: u32,
    pub mute: bool,
    pub is_default: bool,
    pub is_default_communication: bool,
}

/// The position of the default device, or the number of devices.
pub open spec fn default_index(d: Seq<AudioDevice>) -> int
    decreases d.len(),
{
    if d.len() == 0 || d[0].is_default {
        0
    } else {
        1 + default_index(d.drop_first())
    }
}

/// The default device.
pub fn get_system_default_device<'a>(devices: &'a Vec<AudioDevice>) -> (r: Option<&'a AudioDevice>)
    ensures
        match r {
            Some(d) => 0 <= default_index(devices@) < devices@.len() && *d == devices@[default_index(
                devices@,
            )] && d.is_default,
            None => default_index(devices@) == devices@.len() && forall|i: int|
                0 <= i < devices@.len() ==> !(#[trigger] devices@[i]).is_default,
        },
{
    let mut i: usize = 0;
    assert(devices@.skip(0) =~= devices@);
    while i < devices.len()
        invariant
            i <= devices@.len(),
            default_index(devices@) == i + default_index(devices@.skip(i as int)),
            forall|j: int| 0 <= j < i ==> !(#[trigger] devices@[j]).is_default,
        decreases devices@.len() - i,
    {
        assert(devices@.skip(i as int)[0] == devices@[i as int]);
        assert(devices@.skip(i as int).drop_first() =~= devices@.skip(i + 1));
        if devices[i].is_default {
            return Some(&devices[i]);
        }
        i = i + 1;
    }
    assert(devices@.skip(i as int).len() == 0);
    None
}

/// The position of the device with an id, or the number of devices.
pub open spec fn device_index(d: Seq<AudioDevice>, id: Seq<char>) -> int
    decreases d.len(),
{
    if d.len() == 0 || d[0].id@ == id {
        0
    } else {
        1 + device_index(d.drop_first(), id)
    }
}

/// The device with an id.
pub fn get_device<'a>(devices: &'a Vec<AudioDevice>, id: &str) -> (r: Option<&'a AudioDevice>)
    ensures
        match r {
            Some(d) => 0 <= device_index(devices@, id@) < devices@.len() && *d
                == devices@[device_index(devices@, id@)] && d.id@ == id@,
            None => device_index(devices@, id@) == devices@.len() && forall|i: int|
                0 <= i < devices@.len() ==> (#[trigger] devices@[i]).id@ != id@,
        },
{
    let mut i: usize = 0;
    assert(devices@.skip(0) =~= devices@);
    while i < devices.len()
        invariant
            i <= devices@.len(),
            device_index(devices@, id@) == i + device_index(devices@.skip(i as int), id@),
            forall|j: int| 0 <= j < i ==> (#[trigger] devices@[j]).id@ != id@,
        decreases devices@.len() - i,
    {
        assert(devices@.skip(i as int)[0] == devices@[i as int]);
        assert(devices@.skip(i as int).drop_first() =~= devices@.skip(i + 1));
        if same_text(&devices[i].id, id) {
            return Some(&devices[i]);
        }
        i = i + 1;
    }
    assert(devices@.skip(i as int).len() == 0);
    None
}

/// The volume of the device with an id.
pub fn get_device_volume(devices: &Vec<AudioDevice>, id: &str) -> (r: Option<u32>)
    ensures
        ({
            let k = device_index(devices@, id@);
            r == if k < devices@.len() {
                Some(devices@[k].volume_percent)
            } else {
                None
            }
        }),
{
    match get_device(devices, id) {
        Some(d) => Some(d.volume_percent),
        None => None,
    }
}

/// Whether the device with an id is muted.
pub fn get_device_mute(devices: &Vec<AudioDevice>, id: &str) -> (r: Option<bool>)
    ensures
        ({
            let k = device_index(devices@, id@);
            r == if k < devices@.len() {
                Some(devices@[k].mute)
            } else {
                None
            }
        }),
{
    match get_device(devices, id) {
        Some(d) => Some(d.mute),
        None => None,
    }
}

/// The arguments with which the volume of a device is set.
pub fn device_volume_arguments(id: &str, percent: u32) -> (r: Vec<String>)
    ensures
        text::texts(r@) == seq!["set-sink-volume"@, id@, text::decimal(percent as nat) + "%"@],
{
    let mut v: Vec<String> = Vec::new();
    v.push(owned("set-sink-volume"));
    v.push(owned(id));
    let p = decimal_text(percent as u64);
    v.push(concat2(&p, "%"));
    assert(text::texts(v@) =~= seq![
        "set-sink-volume"@,
        id@,
        text::decimal(percent as nat) + "%"@,
    ]);
    v
}

/// The arguments with which a device is muted.
pub fn device_mute_arguments(id: &str, mute: bool) -> (r: Vec<String>)
    ensures
        text::texts(r@) == seq![
            "set-sink-mute"@,
            id@,
            if mute {
                "1"@
            } else {
                "0"@
            },
        ],
{
    let mut v: Vec<String> = Vec::new();
    v.push(owned("set-sink-mute"));
    v.push(owned(id));
    v.push(
        if mute {
            owned("1")
        } else {
            owned("0")
        },
    );
    assert(text::texts(v@) =~= seq![
        "set-sink-mute"@,
        id@,
        if mute {
            "1"@
        } else {
            "0"@
        },
    ]);
    v
}

/// The arguments with which a volume is set.
pub fn volume_arguments(index: u32, percent: u32) -> (r: Vec<String>)
    ensures
        text::texts(r@) == seq![
            "set-sink-input-volume"@,
            text::decimal(index as nat),
            text::decimal(percent as nat) + "%"@,
        ],
{
    let mut v: Vec<String> = Vec::new();
    v.push(owned("set-sink-input-volume"));
    v.push(decimal_text(index as u64));
    let p = decimal_text(percent as u64);
    v.push(concat2(&p, "%"));
    assert(text::texts(v@) =~= seq![
        "set-sink-input-volume"@,
        text::decimal(index as nat),
        text::decimal(percent as nat) + "%"@,
    ]);
    v
}

/// The arguments with which a stream is muted.
pub fn mute_arguments(index: u32, mute: bool) -> (r: Vec<String>)
    ensures
        text::texts(r@) == seq![
            "set-sink-input-mute"@,
            text::decimal(index as nat),
            if mute {
                "1"@
            } else {
                "0"@
            },
        ],
{
    let mut v: Vec<String> = Vec::new();
    v.push(owned("set-sink-input-mute"));
    v.push(decimal_text(index as u64));
    v.push(
        if mute {
            owned("1")
        } else {
            owned("0")
        },
    );
    assert(text::texts(v@) =~= seq![
        "set-sink-input-mute"@,
        text::decimal(index as nat),
        if mute {
            "1"@
        } else {
            "0"@
        },
    ]);
    v
}

// ---------------------------------------------------------------------------
// Calls
// ---------------------------------------------------------------------------

pub struct GetApplicationInstanceParams {
    pub process_id: u32,
}

pub struct GetApplicationInstanceAtIndexParams {
    pub index: usize,
}

pub struct SetApplicationVolumeParams {
    pub process_id: u32,
    pub volume_bits: u32,
}

pub struct SetApplicationMuteParams {
    pub process_id: u32,
    pub mute: bool,
}

pub struct GetApplicationImageParams {
    pub process_id: u32,
    pub image_size: u32,
}

pub struct ApplicationInstanceCountResponse {
    pub count: usize,
}

pub struct ApplicationInfoResponse {
    pub process_id: u32,
    pub executable_file: String,
    pub display_name: String,
    pub volume_percent: u32,
    pub mute: bool,
    pub activity: u32,
}

pub struct DeviceInfoResponse {
    pub id: String,
    pub friendly_name: String,
    pub volume_percent: u32,
    pub mute: bool,
}

/// Tells that an application was added or removed.
pub struct AppAddRemoveEventParams {
    pub process_id: u32,
    /// `Added` or `Removed`.
    pub app_added_removed: String,
}

/// Tells that the mute state of an application changed.
pub struct AppMuteChangedParams {
    pub process_id: u32,
    pub mute: bool,
}

/// The error of a call.
pub struct JsonRpcError {
    pub code: i32,
    pub message: String,
}

/// The methods that can be called.
#[derive(Clone, Copy, PartialEq, Eq, Structural, Debug)]
pub enum Method {
    Count,
    Instance,
    InstanceAtIndex,
    SetVolume,
    SetMute,
    DefaultDevice,
    Unknown,
}

/// The method with a name.
pub open spec fn method_named(name: Seq<char>) -> Method {
    if name == "getApplicationInstanceCount"@ {
        Method::Count
    } else if name == "getApplicationInstance"@ {
        Method::Instance
    } else if name == "getApplicationInstanceAtIndex"@ {
        Method::InstanceAtIndex
    } else if name == "setApplicationInstanceVolume"@ {
        Method::SetVolume
    } else if name == "setApplicationInstanceMute"@ {
        Method::SetMute
    } else if name == "getSystemDefaultDevice"@ {
        Method::DefaultDevice
    } else {
        Method::Unknown
    }
}

/// The method with a name.
pub fn method_of(name: &str) -> (r: Method)
    ensures
        r == method_named(name@),
{
    if same_text(name, "getApplicationInstanceCount") {
        Method::Count
    } else if same_text(name, "getApplicationInstance") {
        Method::Instance
    } else if same_text(name, "getApplicationInstanceAtIndex") {
        Method::InstanceAtIndex
    } else if same_text(name, "setApplicationInstanceVolume") {
        Method::SetVolume
    } else if same_text(name, "setApplicationInstanceMute") {
        Method::SetMute
    } else if same_text(name, "getSystemDefaultDevice") {
        Method::DefaultDevice
    } else {
        Method::Unknown
    }
}

/// A call: its method with its parameters, or with what is wrong with them.
pub enum Call {
    Count,
    Instance(Result<GetApplicationInstanceParams, String>),
    InstanceAtIndex(Result<GetApplicationInstanceAtIndexParams, String>),
    SetVolume(Result<SetApplicationVolumeParams, String>),
    SetMute(Result<SetApplicationMuteParams, String>),
    DefaultDevice,
    Unknown(String),
}

/// What a call asks the sound server to do.
pub enum Effect {
    SetVolume(SetApplicationVolumeParams),
    SetMute(SetApplicationMuteParams),
}

/// The result of a call.
pub enum CallResult {
    Count(ApplicationInstanceCountResponse),
    Application(ApplicationInfoResponse),
    Device(DeviceInfoResponse),
    /// An empty object.
    Done,
}

/// The answer to a call.
pub enum Reply {
    Result(CallResult),
    Error(JsonRpcError),
}

/// What a call leads to: an answer, or an effect whose outcome is the answer.
pub enum Outcome {
    Reply(Reply),
    Effect(Effect),
}

/// The reply is the error with this code and message.
pub open spec fn is_error(r: Reply, code: int, message: Seq<char>) -> bool {
    r matches Reply::Error(e) && e.code == code && e.message@ == message
}

/// The reply describes the application `a`.
pub open spec fn describes(r: Reply, a: AppView) -> bool {
    r matches Reply::Result(CallResult::Application(i)) && i.process_id == a.process_id
        && i.executable_file@ == a.executable_file && i.display_name@ == a.display_name
        && i.volume_percent == a.volume_percent && i.mute == a.mute && i.activity
        == activity_number(a.activity)
}

/// The position of the application with a process, or the number of them.
pub open spec fn app_index(apps: Seq<AppView>, pid: u32) -> int
    decreases apps.len(),
{
    if apps.len() == 0 || apps[0].process_id == pid {
        0
    } else {
        1 + app_index(apps.drop_first(), pid)
    }
}

fn error(code: i32, message: String) -> (r: Outcome)
    ensures
        r matches Outcome::Reply(x) && is_error(x, code as int, message@),
{
    Outcome::Reply(Reply::Error(JsonRpcError { code, message }))
}

fn invalid(why: &str) -> (r: Outcome)
    ensures
        r matches Outcome::Reply(x) && is_error(x, -32602, "Invalid params: "@ + why@),
{
    error(-32602, concat2("Invalid params: ", why))
}

fn describe(a: &ApplicationInfo) -> (r: Outcome)
    ensures
        r matches Outcome::Reply(x) && describes(x, a@),
{
    Outcome::Reply(
        Reply::Result(
            CallResult::Application(
                ApplicationInfoResponse {
                    process_id: a.process_id,
                    executable_file: a.executable_file.clone(),
                    display_name: a.display_name.clone(),
                    volume_percent: a.volume_percent,
                    mute: a.mute,
                    activity: a.activity.number(),
                },
            ),
        ),
    )
}

fn find_app(apps: &Vec<ApplicationInfo>, pid: u32) -> (r: usize)
    ensures
        r == app_index(apps_view(apps@), pid),
        r <= apps@.len(),
{
    let ghost all = apps_view(apps@);
    let mut i: usize = 0;
    assert(all.skip(0) =~= all);
    while i < apps.len()
        invariant
            i <= apps@.len(),
            all == apps_view(apps@),
            app_index(all, pid) == i + app_index(all.skip(i as int), pid),
        decreases apps@.len() - i,
    {
        assert(all.skip(i as int)[0] == apps@[i as int]@);
        assert(all.skip(i as int).drop_first() =~= all.skip(i + 1));
        if apps[i].process_id == pid {
            return i;
        }
        i = i + 1;
    }
    assert(all.skip(i as int).len() == 0);
    i
}

/// Handles a call, given the applications that play audio and the default
/// device.
pub fn handle_request(
    call: Call,
    apps: &Vec<ApplicationInfo>,
    default_device: Option<&AudioDevice>,
) -> (r: Outcome)
    ensures
        ({
            let all = apps_view(apps@);
            match call {
                Call::Count => r matches Outcome::Reply(Reply::Result(CallResult::Count(c)))
                    && c.count == all.len(),
                Call::Instance(Ok(p)) => {
                    let k = app_index(all, p.process_id);
                    r matches Outcome::Reply(x) && if k < all.len() {
                        describes(x, all[k])
                    } else {
                        is_error(x, -32000, "Application not found"@)
                    }
                },
                Call::InstanceAtIndex(Ok(p)) => r matches Outcome::Reply(x) && if p.index
                    < all.len() {
                    describes(x, all[p.index as int])
                } else {
                    is_error(x, -32000, "Index out of bounds"@)
                },
                Call::SetVolume(Ok(p)) => r == Outcome::Effect(Effect::SetVolume(p)),
                Call::SetMute(Ok(p)) => r == Outcome::Effect(Effect::SetMute(p)),
                Call::Instance(Err(e)) => r matches Outcome::Reply(x) && is_error(
                    x,
                    -32602,
                    "Invalid params: "@ + e@,
                ),
                Call::InstanceAtIndex(Err(e)) => r matches Outcome::Reply(x) && is_error(
                    x,
                    -32602,
                    "Invalid params: "@ + e@,
                ),
                Call::SetVolume(Err(e)) => r matches Outcome::Reply(x) && is_error(
                    x,
                    -32602,
                    "Invalid params: "@ + e@,
                ),
                Call::SetMute(Err(e)) => r matches Outcome::Reply(x) && is_error(
                    x,
                    -32602,
                    "Invalid params: "@ + e@,
                ),
                Call::DefaultDevice => match default_device {
                    Some(d) => r matches Outcome::Reply(Reply::Result(CallResult::Device(i)))
                        && i.id@ == d.id@ && i.friendly_name@ == d.friendly_name@
                        && i.volume_percent == d.volume_percent && i.mute == d.mute,
                    None => r matches Outcome::Reply(x) && is_error(
                        x,
                        -32000,
                        "No default device found"@,
                    ),
                },
                Call::Unknown(name) => r matches Outcome::Reply(x) && is_error(
                    x,
                    -32601,
                    "Method not found: "@ + name@,
                ),
            }
        }),
{
    match call {
        Call::Count => Outcome::Reply(
            Reply::Result(
                CallResult::Count(ApplicationInstanceCountResponse { count: apps.len() }),
            ),
        ),
        Call::Instance(Ok(p)) => {
            let k = find_app(apps, p.process_id);
            if k < apps.len() {
                assert(apps_view(apps@)[k as int] == apps@[k as int]@);
                describe(&apps[k])
            } else {
                error(-32000, owned("Application not found"))
            }
        },
        Call::InstanceAtIndex(Ok(p)) => {
            if p.index < apps.len() {
                assert(apps_view(apps@)[p.index as int] == apps@[p.index as int]@);
                describe(&apps[p.index])
            } else {
                error(-32000, owned("Index out of bounds"))
            }
        },
        Call::SetVolume(Ok(p)) => Outcome::Effect(Effect::SetVolume(p)),
        Call::SetMute(Ok(p)) => Outcome::Effect(Effect::SetMute(p)),
        Call::Instance(Err(e)) => invalid(&e),
        Call::InstanceAtIndex(Err(e)) => invalid(&e),
        Call::SetVolume(Err(e)) => invalid(&e),
        Call::SetMute(Err(e)) => invalid(&e),
        Call::DefaultDevice => match default_device {
            Some(d) => Outcome::Reply(
                Reply::Result(
                    CallResult::Device(
                        DeviceInfoResponse {
                            id: d.id.clone(),
                            friendly_name: d.friendly_name.clone(),
                            volume_percent: d.volume_percent,
                            mute: d.mute,
                        },
                    ),
                ),
            ),
            None => error(-32000, owned("No default device found")),
        },
        Call::Unknown(name) => error(-32601, concat2("Method not found: ", &name)),
    }
}

/// The process whose stream an effect changes.
pub open spec fn process_of(effect: Effect) -> u32 {
    match effect {
        Effect::SetVolume(p) => p.process_id,
        Effect::SetMute(p) => p.process_id,
    }
}

/// The arguments of the sound server's tool that perform an effect on the first
/// stream of its process. `percent` is the volume that was asked for, in percent.
/// An error where the process has no stream.
pub fn effect_arguments(sinks: &Vec<SinkInputInfo>, effect: &Effect, percent: u32) -> (r: Result<
    Vec<String>,
    String,
>)
    ensures
        ({
            let all = sinks_view(sinks@);
            let k = sink_of_pid(all, process_of(*effect));
            if k < all.len() {
                &&& r is Ok
                &&& text::texts(r->Ok_0@) == match *effect {
                    Effect::SetVolume(_) => seq![
                        "set-sink-input-volume"@,
                        text::decimal(all[k].index as nat),
                        text::decimal(percent as nat) + "%"@,
                    ],
                    Effect::SetMute(p) => seq![
                        "set-sink-input-mute"@,
                        text::decimal(all[k].index as nat),
                        if p.mute {
                            "1"@
                        } else {
                            "0"@
                        },
                    ],
                }
            } else {
                r matches Err(e) && e@ == "Application with PID "@ + text::decimal(
                    process_of(*effect) as nat,
                ) + " not found"@
            }
        }),
{
    let pid = match effect {
        Effect::SetVolume(p) => p.process_id,
        Effect::SetMute(p) => p.process_id,
    };
    match get_sink_input_by_pid(sinks, pid) {
        Some(s) => Ok(
            match effect {
                Effect::SetVolume(_) => volume_arguments(s.index, percent),
                Effect::SetMute(p) => mute_arguments(s.index, p.mute),
            },
        ),
        None => {
            let n = decimal_text(pid as u64);
            Err(concat3("Application with PID ", &n, " not found"))
        },
    }
}

/// The answer to a call whose effect was carried out, or failed.
pub fn finish_request(effect: &Effect, done: &Result<(), String>) -> (r: Reply)
    ensures
        match done {
            Ok(_) => r matches Reply::Result(CallResult::Done),
            Err(e) => is_error(
                r,
                -32000,
                match effect {
                    Effect::SetVolume(_) => "Failed to set volume: "@ + e@,
                    Effect::SetMute(_) => "Failed to set mute: "@ + e@,
                },
            ),
        },
{
    match done {
        Ok(_) => Reply::Result(CallResult::Done),
        Err(e) => {
            let message = match effect {
                Effect::SetVolume(_) => concat2("Failed to set volume: ", e),
                Effect::SetMute(_) => concat2("Failed to set mute: ", e),
            };
            Reply::Error(JsonRpcError { code: -32000, message })
        },
    }
}

/// The id of an answer: that of the call, or null where it has none.
pub fn reply_id(id: &Option<Json>) -> (r: Json)
    ensures
        r@ == match id {
            Some(j) => j@,
            None => JsonView::Null,
        },
{
    match id {
        Some(j) => j.copy(),
        None => Json::Null,
    }
}

/// Each method is called by its own name, and every other name is unknown.
#[verifier::rlimit(50)]
pub proof fn law_methods_by_name(name: Seq<char>)
    ensures
        method_named("getApplicationInstanceCount"@) == Method::Count,
        method_named("getApplicationInstance"@) == Method::Instance,
        method_named("getApplicationInstanceAtIndex"@) == Method::InstanceAtIndex,
        method_named("setApplicationInstanceVolume"@) == Method::SetVolume,
        method_named("setApplicationInstanceMute"@) == Method::SetMute,
        method_named("getSystemDefaultDevice"@) == Method::DefaultDevice,
        method_named(name) != Method::Unknown ==> name == "getApplicationInstanceCount"@ || name
            == "getApplicationInstance"@ || name == "getApplicationInstanceAtIndex"@ || name
            == "setApplicationInstanceVolume"@ || name == "setApplicationInstanceMute"@ || name
            == "getSystemDefaultDevice"@,
{
    reveal_strlit("getApplicationInstanceCount");
    reveal_strlit("getApplicationInstance");
    reveal_strlit("getApplicationInstanceAtIndex");
    reveal_strlit("setApplicationInstanceVolume");
    reveal_strlit("setApplicationInstanceMute");
    reveal_strlit("getSystemDefaultDevice");
    assert("getApplicationInstanceCount"@.len() == 27);
    assert("getApplicationInstance"@.len() == 22);
    assert("getApplicationInstanceAtIndex"@.len() == 29);
    assert("setApplicationInstanceVolume"@.len() == 28);
    assert("setApplicationInstanceMute"@.len() == 26);
    assert("getSystemDefaultDevice"@.len() == 22);
    assert("getSystemDefaultDevice"@[3] == 'S');
    assert("getApplicationInstance"@[3] == 'A');
}

/// The default device is the first that is the default, and a device is the first of
/// its id.
pub proof fn law_devices_are_found(d: Seq<AudioDevice>, id: Seq<char>)
    ensures
        0 <= default_index(d) <= d.len(),
        default_index(d) < d.len() ==> d[default_index(d)].is_default,
        forall|j: int| 0 <= j < default_index(d) ==> !(#[trigger] d[j]).is_default,
        0 <= device_index(d, id) <= d.len(),
        device_index(d, id) < d.len() ==> d[device_index(d, id)].id@ == id,
        forall|j: int| 0 <= j < device_index(d, id) ==> (#[trigger] d[j]).id@ != id,
    decreases d.len(),
{
    if d.len() > 0 {
        let rest = d.drop_first();
        law_devices_are_found(rest, id);
        assert forall|j: int| 0 <= j < default_index(d) implies !(#[trigger] d[j]).is_default by {
            if j > 0 {
                assert(rest[j - 1] == d[j]);
            }
        }
        assert forall|j: int| 0 <= j < device_index(d, id) implies (#[trigger] d[j]).id@ != id by {
            if j > 0 {
                assert(rest[j - 1] == d[j]);
            }
        }
    }
}

/// An effect is on the process that the call names.
pub proof fn law_effect_is_on_its_process(effect: Effect)
    ensures
        effect matches Effect::SetVolume(p) ==> process_of(effect) == p.process_id,
        effect matches Effect::SetMute(p) ==> process_of(effect) == p.process_id,
{
}

} // verus!
