//! Which animations run, and the decoded pictures that are kept for them.
use vstd::prelude::*;
use crate::picture;
use crate::picture::{decode_gif, PictureError, PreparedFrame};
use crate::text;
use crate::text::same_text;

verus! {

/// The slot that an animation is shown in.
#[derive(PartialEq, Eq, Hash, Debug)]
pub struct AnimationKey {
    pub device: String,
    pub controller: String,
    pub position: u8,
}

/// The model of an `AnimationKey`.
pub struct KeyView {
    pub device: Seq<char>,
    pub controller: Seq<char>,
    pub position: u8,
}

impl View for AnimationKey {
    type V = KeyView;

    open spec fn view(&self) -> KeyView {
        KeyView {
            device: self.device@,
            controller: self.controller@,
            position: self.position,
        }
    }
}

impl AnimationKey {
    /// A copy of the key.
    pub fn copy(&self) -> (r: AnimationKey)
        ensures
            r@ == self@,
    {
        AnimationKey {
            device: self.device.clone(),
            controller: self.controller.clone(),
            position: self.position,
        }
    }

    /// Both keys name the same slot.
    pub fn same(&self, other: &AnimationKey) -> (r: bool)
        ensures
            r == (self@ == other@),
    {
        same_text(&self.device, &other.device) && same_text(&self.controller, &other.controller)
            && self.position == other.position
    }
}

/// The generation that follows `g`: never 0.
pub open spec fn following(g: u64) -> u64 {
    if g == 0xffff_ffff_ffff_ffff {
        1
    } else {
        (g + 1) as u64
    }
}

/// The generation that follows `g`.
pub fn next_of(g: u64) -> (r: u64)
    ensures
        r == following(g),
{
    if g == 0xffff_ffff_ffff_ffff {
        1
    } else {
        g + 1
    }
}

/// A generation is never 0, and never follows itself. It is larger than the one
/// that it follows, but for the largest of all.
pub proof fn law_generations_change(g: u64)
    ensures
        following(g) != 0,
        following(g) != g,
        g < u64::MAX ==> following(g) > g,
{
}

/// The generations of the animations in slots: of those that run, and, for each
/// slot that ever had one, the last that was handed out. In neither list are two
/// entries of the same slot.
pub struct AnimationRegistry {
    pub generation: Vec<(AnimationKey, u64)>,
    pub last: Vec<(AnimationKey, u64)>,
}

/// The model of an `AnimationRegistry`.
pub struct RegistryView {
    pub running: Map<KeyView, u64>,
    pub last: Map<KeyView, u64>,
}

impl View for AnimationRegistry {
    type V = RegistryView;

    open spec fn view(&self) -> RegistryView {
        RegistryView {
            running: generations(self.generation@, self.generation@.len()),
            last: generations(self.last@, self.last@.len()),
        }
    }
}

/// The registry once a new animation runs in a slot.
pub open spec fn started(r: RegistryView, k: KeyView) -> RegistryView {
    let g = following(generation_of(r.last, k));
    RegistryView { running: r.running.insert(k, g), last: r.last.insert(k, g) }
}

/// The registry once no animation runs in a slot.
pub open spec fn stopped(r: RegistryView, k: KeyView) -> RegistryView {
    RegistryView { running: r.running.remove(k), last: r.last }
}

/// What is asked of a registry.
pub enum RegistryCall {
    Start(KeyView),
    Stop(KeyView),
}

/// The registry after some calls.
pub open spec fn after_calls(r: RegistryView, calls: Seq<RegistryCall>) -> RegistryView
    decreases calls.len(),
{
    if calls.len() == 0 {
        r
    } else {
        let before = after_calls(r, calls.drop_last());
        match calls.last() {
            RegistryCall::Start(k) => started(before, k),
            RegistryCall::Stop(k) => stopped(before, k),
        }
    }
}

/// The generations of the first `n` entries; that of a slot is its first.
pub open spec fn generations(s: Seq<(AnimationKey, u64)>, n: nat) -> Map<KeyView, u64>
    decreases n,
{
    if n == 0 || n > s.len() {
        Map::empty()
    } else {
        let rest = generations(s, (n - 1) as nat);
        if rest.dom().contains(s[n - 1].0@) {
            rest
        } else {
            rest.insert(s[n - 1].0@, s[n - 1].1)
        }
    }
}

/// No two entries are of the same slot.
pub open spec fn distinct(s: Seq<(AnimationKey, u64)>) -> bool {
    forall|i: int, j: int|
        0 <= i < j < s.len() ==> (#[trigger] s[i]).0@ != (#[trigger] s[j]).0@
}

proof fn lemma_generations(s: Seq<(AnimationKey, u64)>, n: nat)
    requires
        distinct(s),
        n <= s.len(),
    ensures
        forall|i: int|
            0 <= i < n ==> generations(s, n).dom().contains((#[trigger] s[i]).0@) && generations(
                s,
                n,
            )[s[i].0@] == s[i].1,
        forall|k: KeyView|
            generations(s, n).dom().contains(k) ==> exists|i: int|
                0 <= i < n && (#[trigger] s[i]).0@ == k,
    decreases n,
{
    if n > 0 {
        lemma_generations(s, (n - 1) as nat);
        let rest = generations(s, (n - 1) as nat);
        if rest.dom().contains(s[n - 1].0@) {
            let i = choose|i: int| 0 <= i < n - 1 && (#[trigger] s[i]).0@ == s[n - 1].0@;
            assert(s[i].0@ != s[n - 1].0@);
        }
        assert forall|k: KeyView| generations(s, n).dom().contains(k) implies exists|i: int|
            0 <= i < n && (#[trigger] s[i]).0@ == k by {
            if k == s[n - 1].0@ {
                assert(s[n - 1].0@ == k);
            } else {
                assert(rest.dom().contains(k));
            }
        }
    }
}

proof fn lemma_generations_are(s: Seq<(AnimationKey, u64)>, m: Map<KeyView, u64>)
    requires
        distinct(s),
        forall|i: int|
            0 <= i < s.len() ==> m.dom().contains((#[trigger] s[i]).0@) && m[s[i].0@] == s[i].1,
        forall|k: KeyView| m.dom().contains(k) ==> exists|i: int|
            0 <= i < s.len() && (#[trigger] s[i]).0@ == k,
    ensures
        generations(s, s.len()) == m,
{
    lemma_generations(s, s.len());
    let g = generations(s, s.len());
    assert forall|k: KeyView| g.dom().contains(k) == m.dom().contains(k) by {
        if g.dom().contains(k) {
            let i = choose|i: int| 0 <= i < s.len() && (#[trigger] s[i]).0@ == k;
            assert(m.dom().contains(s[i].0@));
        }
        if m.dom().contains(k) {
            let i = choose|i: int| 0 <= i < s.len() && (#[trigger] s[i]).0@ == k;
            assert(g.dom().contains(s[i].0@));
        }
    }
    assert forall|k: KeyView| g.dom().contains(k) implies g[k] == m[k] by {
        let i = choose|i: int| 0 <= i < s.len() && (#[trigger] s[i]).0@ == k;
        assert(g[s[i].0@] == m[s[i].0@]);
    }
    assert(g =~= m);
}

/// The generation of a slot; 0 where it has no animation.
pub open spec fn generation_of(m: Map<KeyView, u64>, k: KeyView) -> u64 {
    if m.dom().contains(k) {
        m[k]
    } else {
        0
    }
}

/// The entry of a slot.
fn position(s: &Vec<(AnimationKey, u64)>, key: &AnimationKey) -> (r: Option<usize>)
    requires
        distinct(s@),
    ensures
        ({
            let m = generations(s@, s@.len());
            match r {
                Some(k) => k < s@.len() && s@[k as int].0@ == key@ && m.dom().contains(key@)
                    && m[key@] == s@[k as int].1,
                None => !m.dom().contains(key@),
            }
        }),
{
    let ghost m = generations(s@, s@.len());
    let mut k: usize = 0;
    proof {
        lemma_generations(s@, s@.len());
    }
    while k < s.len()
        invariant
            k <= s@.len(),
            m == generations(s@, s@.len()),
            forall|j: int| 0 <= j < k ==> (#[trigger] s@[j]).0@ != key@,
            forall|i: int|
                0 <= i < s@.len() ==> m.dom().contains((#[trigger] s@[i]).0@) && m[s@[i].0@]
                    == s@[i].1,
            forall|x: KeyView|
                m.dom().contains(x) ==> exists|i: int|
                    0 <= i < s@.len() && (#[trigger] s@[i]).0@ == x,
        decreases s@.len() - k,
    {
        if s[k].0.same(key) {
            return Some(k);
        }
        k = k + 1;
    }
    None
}

/// Enters the generation of a slot.
fn put(entries: &mut Vec<(AnimationKey, u64)>, key: &AnimationKey, g: u64)
    requires
        distinct(old(entries)@),
    ensures
        distinct(final(entries)@),
        generations(final(entries)@, final(entries)@.len()) == generations(
            old(entries)@,
            old(entries)@.len(),
        ).insert(key@, g),
{
    let ghost before = entries@;
    let ghost m = generations(before, before.len());
    proof {
        lemma_generations(before, before.len());
    }
    match position(entries, key) {
        Some(k) => {
            let own = entries[k].0.copy();
            entries.set(k, (own, g));
            proof {
                let s = entries@;
                assert forall|i: int, j: int| 0 <= i < j < s.len() implies (#[trigger] s[i]).0@ != (
                #[trigger] s[j]).0@ by {
                    assert(before[i].0@ != before[j].0@);
                }
                let want = m.insert(key@, g);
                assert forall|i: int| 0 <= i < s.len() implies want.dom().contains(
                    (#[trigger] s[i]).0@,
                ) && want[s[i].0@] == s[i].1 by {
                    assert(m.dom().contains(before[i].0@));
                    if i < k {
                        assert(before[i].0@ != before[k as int].0@);
                    } else if i > k {
                        assert(before[k as int].0@ != before[i].0@);
                    }
                }
                assert forall|x: KeyView| want.dom().contains(x) implies exists|i: int|
                    0 <= i < s.len() && (#[trigger] s[i]).0@ == x by {
                    if x == key@ {
                        assert(s[k as int].0@ == x);
                    } else {
                        let i = choose|i: int|
                            0 <= i < before.len() && (#[trigger] before[i]).0@ == x;
                        assert(s[i].0@ == x);
                    }
                }
                lemma_generations_are(s, want);
            }
        },
        None => {
            entries.push((key.copy(), g));
            proof {
                let s = entries@;
                let n = before.len() as int;
                assert forall|i: int, j: int| 0 <= i < j < s.len() implies (#[trigger] s[i]).0@ != (
                #[trigger] s[j]).0@ by {
                    assert(s[i] == before[i]);
                    assert(m.dom().contains(before[i].0@));
                    if j < n {
                        assert(s[j] == before[j]);
                        assert(before[i].0@ != before[j].0@);
                    }
                }
                let want = m.insert(key@, g);
                assert forall|i: int| 0 <= i < s.len() implies want.dom().contains(
                    (#[trigger] s[i]).0@,
                ) && want[s[i].0@] == s[i].1 by {
                    if i < n {
                        assert(s[i] == before[i]);
                        assert(m.dom().contains(before[i].0@));
                    }
                }
                assert forall|x: KeyView| want.dom().contains(x) implies exists|i: int|
                    0 <= i < s.len() && (#[trigger] s[i]).0@ == x by {
                    if x == key@ {
                        assert(s[n].0@ == x);
                    } else {
                        let i = choose|i: int|
                            0 <= i < before.len() && (#[trigger] before[i]).0@ == x;
                        assert(s[i].0@ == x);
                    }
                }
                lemma_generations_are(s, want);
            }
        },
    }
}

impl AnimationRegistry {
    /// No slot has two entries in a list, and what runs is the last that was
    /// handed out.
    pub open spec fn wf(&self) -> bool {
        &&& distinct(self.generation@)
        &&& distinct(self.last@)
        &&& forall|k: KeyView| #[trigger]
            self@.running.dom().contains(k) ==> self@.last.dom().contains(k) && self@.running[k]
                == self@.last[k]
    }

    /// A registry without animations.
    pub fn new() -> (r: AnimationRegistry)
        ensures
            r.wf(),
            r@.running == Map::<KeyView, u64>::empty(),
            r@.last == Map::<KeyView, u64>::empty(),
    {
        AnimationRegistry { generation: Vec::new(), last: Vec::new() }
    }

    /// Starts a new generation in a slot: animations of an older one end. It is
    /// larger than all that were handed out for the slot, also before a stop.
    pub fn next_generation(&mut self, key: &AnimationKey) -> (r: u64)
        requires
            old(self).wf(),
        ensures
            final(self).wf(),
            r == following(generation_of(old(self)@.last, key@)),
            final(self)@ == started(old(self)@, key@),
            generation_of(old(self)@.last, key@) < u64::MAX ==> r > generation_of(
                old(self)@.last,
                key@,
            ),
    {
        let g = match position(&self.last, key) {
            Some(k) => next_of(self.last[k].1),
            None => 1,
        };
        put(&mut self.last, key, g);
        put(&mut self.generation, key, g);
        proof {
            let before = old(self)@;
            assert(self@.running == before.running.insert(key@, g));
            assert(self@.last == before.last.insert(key@, g));
            assert forall|k: KeyView| #[trigger] self@.running.dom().contains(k) implies self@.last
                .dom().contains(k) && self@.running[k] == self@.last[k] by {
                if k != key@ {
                    assert(before.running.dom().contains(k));
                }
            }
        }
        g
    }

    /// Ends the animation in a slot. Its generation is not handed out again.
    pub fn stop(&mut self, key: &AnimationKey)
        requires
            old(self).wf(),
        ensures
            final(self).wf(),
            final(self)@ == stopped(old(self)@, key@),
    {
        let ghost before = self.generation@;
        let ghost m = self@.running;
        proof {
            lemma_generations(before, before.len());
        }
        match position(&self.generation, key) {
            Some(k) => {
                let _ = self.generation.remove(k);
                proof {
                    let s = self.generation@;
                    let at = |i: int| if i < k { i } else { i + 1 };
                    assert forall|i: int| 0 <= i < s.len() implies s[i] == before[#[trigger] at(
                        i,
                    )] by {}
                    assert forall|i: int, j: int| 0 <= i < j < s.len() implies (#[trigger] s[i]).0@
                        != (#[trigger] s[j]).0@ by {
                        assert(s[i] == before[at(i)] && s[j] == before[at(j)]);
                        assert(before[at(i)].0@ != before[at(j)].0@);
                    }
                    let want = m.remove(key@);
                    assert forall|i: int| 0 <= i < s.len() implies want.dom().contains(
                        (#[trigger] s[i]).0@,
                    ) && want[s[i].0@] == s[i].1 by {
                        assert(s[i] == before[at(i)]);
                        assert(m.dom().contains(before[at(i)].0@));
                        if at(i) < k {
                            assert(before[at(i)].0@ != before[k as int].0@);
                        } else {
                            assert(before[k as int].0@ != before[at(i)].0@);
                        }
                    }
                    assert forall|x: KeyView| want.dom().contains(x) implies exists|i: int|
                        0 <= i < s.len() && (#[trigger] s[i]).0@ == x by {
                        let i = choose|i: int|
                            0 <= i < before.len() && (#[trigger] before[i]).0@ == x;
                        if i < k {
                            assert(s[i].0@ == x);
                        } else {
                            assert(i != k);
                            assert(s[i - 1] == before[i]);
                            assert(s[i - 1].0@ == x);
                        }
                    }
                    lemma_generations_are(s, want);
                }
            },
            None => {
                assert(m.remove(key@) =~= m);
            },
        }
    }

    /// Whether a generation of a slot is its newest. Where no animation runs in
    /// the slot, only 0 is.
    pub fn is_current(&self, key: &AnimationKey, generation: u64) -> (r: bool)
        requires
            self.wf(),
        ensures
            r == (generation_of(self@.running, key@) == generation),
    {
        match position(&self.generation, key) {
            Some(k) => self.generation[k].1 == generation,
            None => generation == 0,
        }
    }
}

/// A new animation in a slot replaces the one before it, and leaves those in
/// other slots alone.
pub proof fn law_new_animation_replaces(r: RegistryView, k: KeyView, other: KeyView)
    requires
        k != other,
        generation_of(r.running, k) == 0 || generation_of(r.running, k) == generation_of(r.last, k),
    ensures
        ({
            let after = started(r, k);
            &&& generation_of(after.running, k) == following(generation_of(r.last, k))
            &&& generation_of(after.running, k) != generation_of(r.running, k)
            &&& generation_of(after.running, other) == generation_of(r.running, other)
        }),
{
}

/// No animation runs on in a slot where it was stopped; those in other slots do.
pub proof fn law_stopped_animation_ends(r: RegistryView, k: KeyView, g: u64, other: KeyView)
    requires
        g != 0,
        k != other,
    ensures
        generation_of(stopped(r, k).running, k) != g,
        generation_of(stopped(r, k).running, other) == generation_of(r.running, other),
{
}

/// The generations of a slot are monotonic: whatever is started and stopped after
/// one was handed out, the next is larger, as long as there are larger numbers.
pub proof fn law_generations_are_monotonic(
    r: RegistryView,
    k: KeyView,
    calls: Seq<RegistryCall>,
)
    requires
        generation_of(r.last, k) + calls.len() < u64::MAX,
    ensures
        ({
            let after = after_calls(r, calls);
            &&& generation_of(r.last, k) <= generation_of(after.last, k) <= generation_of(r.last, k)
                + calls.len()
            &&& following(generation_of(after.last, k)) > generation_of(r.last, k)
        }),
    decreases calls.len(),
{
    if calls.len() > 0 {
        law_generations_are_monotonic(r, k, calls.drop_last());
    }
}

// ---------------------------------------------------------------------------
// The cache of decoded GIFs
// ---------------------------------------------------------------------------

pub const MAX_CACHE_ENTRIES: usize = 32;

/// Decoded GIFs by their keys.
pub struct GifCache {
    pub entries: Vec<(String, Vec<PreparedFrame>)>,
}

/// The keys of the cache.
pub open spec fn cache_keys(s: Seq<(String, Vec<PreparedFrame>)>) -> Seq<Seq<char>> {
    s.map_values(|e: (String, Vec<PreparedFrame>)| e.0@)
}

/// The cache with the frames of one more GIF, in place of those kept under its
/// key.
pub open spec fn with_entry(
    s: Seq<(String, Vec<PreparedFrame>)>,
    cache_key: String,
    frames: Vec<PreparedFrame>,
) -> Seq<(String, Vec<PreparedFrame>)> {
    let keys = cache_keys(s);
    if keys.contains(cache_key@) {
        s.update(text::first_index(keys, cache_key@), (cache_key, frames))
    } else {
        s.push((cache_key, frames))
    }
}

impl GifCache {
    /// The decoded frames of a GIF, where they are kept.
    pub fn get(&self, cache_key: &str) -> (r: Option<&Vec<PreparedFrame>>)
        ensures
            r is Some <==> cache_keys(self.entries@).contains(cache_key@),
            r matches Some(f) ==> *f == self.entries@[text::first_index(
                cache_keys(self.entries@),
                cache_key@,
            )].1,
    {
        let ghost keys = cache_keys(self.entries@);
        let mut k: usize = 0;
        while k < self.entries.len()
            invariant
                k <= self.entries@.len(),
                keys == cache_keys(self.entries@),
                forall|j: int| 0 <= j < k ==> #[trigger] keys[j] != cache_key@,
            decreases self.entries@.len() - k,
        {
            assert(keys[k as int] == self.entries@[k as int].0@);
            if same_text(&self.entries[k].0, cache_key) {
                proof {
                    text::lemma_first_index_is(keys, cache_key@, k as int);
                }
                return Some(&self.entries[k].1);
            }
            k = k + 1;
        }
        None
    }

    /// Keeps the decoded frames of a GIF. Where the cache is full, the entry number
    /// `victim` leaves it first.
    pub fn insert(&mut self, cache_key: String, frames: Vec<PreparedFrame>, victim: usize)
        requires
            victim < old(self).entries@.len() || old(self).entries@.len() < MAX_CACHE_ENTRIES,
        ensures
            final(self).entries@ == with_entry(
                if old(self).entries@.len() >= MAX_CACHE_ENTRIES {
                    old(self).entries@.remove(victim as int)
                } else {
                    old(self).entries@
                },
                cache_key,
                frames,
            ),
            old(self).entries@.len() <= MAX_CACHE_ENTRIES ==> final(self).entries@.len()
                <= MAX_CACHE_ENTRIES,
    {
        if self.entries.len() >= MAX_CACHE_ENTRIES {
            let _ = self.entries.remove(victim);
        }
        let ghost rest = self.entries@;
        let ghost keys = cache_keys(rest);
        let mut k: usize = 0;
        while k < self.entries.len()
            invariant
                k <= self.entries@.len(),
                self.entries@ == rest,
                keys == cache_keys(rest),
                rest.len() == (if old(self).entries@.len() >= MAX_CACHE_ENTRIES {
                    old(self).entries@.len() - 1
                } else {
                    old(self).entries@.len() as int
                }),
                rest == (if old(self).entries@.len() >= MAX_CACHE_ENTRIES {
                    old(self).entries@.remove(victim as int)
                } else {
                    old(self).entries@
                }),
                forall|j: int| 0 <= j < k ==> #[trigger] keys[j] != cache_key@,
            decreases self.entries@.len() - k,
        {
            assert(keys[k as int] == self.entries@[k as int].0@);
            if same_text(&self.entries[k].0, &cache_key) {
                proof {
                    text::lemma_first_index_is(keys, cache_key@, k as int);
                }
                self.entries.set(k, (cache_key, frames));
                return;
            }
            k = k + 1;
        }
        self.entries.push((cache_key, frames));
    }
}

/// The frames of a GIF that were just kept are those found under its key.
pub proof fn law_kept_gif_is_found(
    s: Seq<(String, Vec<PreparedFrame>)>,
    cache_key: String,
    frames: Vec<PreparedFrame>,
)
    ensures
        ({
            let after = with_entry(s, cache_key, frames);
            let keys = cache_keys(after);
            &&& keys.contains(cache_key@)
            &&& after[text::first_index(keys, cache_key@)].1 == frames
        }),
{
    let before = cache_keys(s);
    let after = with_entry(s, cache_key, frames);
    let keys = cache_keys(after);
    text::lemma_first_index(before, cache_key@);
    let k = if before.contains(cache_key@) {
        text::first_index(before, cache_key@)
    } else {
        s.len() as int
    };
    assert(keys[k] == cache_key@);
    assert forall|j: int| 0 <= j < k implies keys[j] != cache_key@ by {
        assert(keys[j] == before[j]);
    }
    text::lemma_first_index_is(keys, cache_key@, k);
}

/// Copies of frames.
pub fn copy_frames(frames: &Vec<PreparedFrame>) -> (r: Vec<PreparedFrame>)
    ensures
        picture::frames_view(r@) == picture::frames_view(frames@),
{
    let mut out: Vec<PreparedFrame> = Vec::new();
    let mut k: usize = 0;
    while k < frames.len()
        invariant
            k <= frames@.len(),
            out@.len() == k,
            forall|j: int| 0 <= j < k ==> (#[trigger] out@[j])@ == frames@[j]@,
        decreases frames@.len() - k,
    {
        out.push(PreparedFrame { delay: frames[k].delay, image: frames[k].image.copy() });
        k = k + 1;
    }
    assert(picture::frames_view(out@) =~= picture::frames_view(frames@));
    out
}

/// The frames of the GIF with the given key: those that the cache keeps under it,
/// or else those that the bytes decode to, which are then kept. Where the cache is
/// full, the entry number `victim` leaves it for them.
pub fn decode_gif_cached(cache: &mut GifCache, cache_key: String, bytes: &[u8], victim: usize) -> (r:
    Result<Vec<PreparedFrame>, PictureError>)
    requires
        victim < old(cache).entries@.len() || old(cache).entries@.len() < MAX_CACHE_ENTRIES,
    ensures
        ({
            let keys = cache_keys(old(cache).entries@);
            let kept = old(cache).entries@[text::first_index(keys, cache_key@)].1;
            if keys.contains(cache_key@) {
                &&& final(cache).entries@ == old(cache).entries@
                &&& r is Ok && picture::frames_view(r->Ok_0@) == picture::frames_view(kept@)
            } else {
                match picture::decoded_gif(bytes@) {
                    None => r == Err::<Vec<PreparedFrame>, PictureError>(PictureError::Unreadable)
                        && final(cache).entries@ == old(cache).entries@,
                    Some(f) => if f.len() == 0 {
                        r == Err::<Vec<PreparedFrame>, PictureError>(PictureError::NoFrames)
                            && final(cache).entries@ == old(cache).entries@
                    } else {
                        &&& r is Ok && picture::frames_view(r->Ok_0@) == picture::shown_frames(f)
                        &&& exists|stored: Vec<PreparedFrame>| #[trigger]
                            picture::frames_view(stored@) == picture::shown_frames(f)
                                && final(cache).entries@ == with_entry(
                                if old(cache).entries@.len() >= MAX_CACHE_ENTRIES {
                                    old(cache).entries@.remove(victim as int)
                                } else {
                                    old(cache).entries@
                                },
                                cache_key,
                                stored,
                            )
                    },
                }
            }
        }),
{
    match cache.get(&cache_key) {
        Some(kept) => {
            return Ok(copy_frames(kept));
        },
        None => {},
    }
    match decode_gif(bytes) {
        Ok(frames) => {
            let stored = copy_frames(&frames);
            cache.insert(cache_key, stored, victim);
            Ok(frames)
        },
        Err(e) => Err(e),
    }
}

/// Keeping the frames of a GIF leaves those of the others alone.
pub proof fn law_other_gifs_are_kept(
    s: Seq<(String, Vec<PreparedFrame>)>,
    cache_key: String,
    frames: Vec<PreparedFrame>,
    k: int,
)
    requires
        0 <= k < s.len(),
        s[k].0@ != cache_key@,
    ensures
        with_entry(s, cache_key, frames)[k] == s[k],
        with_entry(s, cache_key, frames).len() <= s.len() + 1,
{
    let keys = cache_keys(s);
    text::lemma_first_index(keys, cache_key@);
    assert(keys[k] == s[k].0@);
}

} // verus!
