//! The host's own devices: what is drawn in a slot, the strip that the encoders
//! of a device share, and how a device is announced.
use vstd::prelude::*;
use crate::animation;
use crate::animation::{next_of, AnimationKey, AnimationRegistry};
use crate::picture;
use crate::picture::{FrameView, Picture, PictureView, PreparedFrame, ResizeMode, Target};
use crate::plugins;
use crate::plugins::DeviceNamespaces;
use crate::screens;
use crate::shared::{DeviceInfo, DeviceScreenInfo, ScreenPlacement, TextPlacement};
use crate::stores::to_ascii_lowercase;
use crate::text;
use crate::text::{concat2, owned, same_text, trim};

verus! {

// ---------------------------------------------------------------------------
// Drawing in a slot
// ---------------------------------------------------------------------------

/// What a slot is to show.
#[derive(Clone, Copy, PartialEq, Eq, Structural, Debug)]
pub enum Content {
    Nothing,
    Still,
    Animated,
}

/// How a slot is drawn.
#[derive(Clone, Copy, PartialEq, Eq, Structural, Debug)]
pub enum Draw {
    /// The frames of an animation on a key.
    KeyAnimation,
    KeyPicture,
    /// A black key with labels.
    KeyLabels,
    KeyClear,
    /// The frames of an animation at an encoder.
    DialAnimation,
    DialPicture,
    DialClear,
    /// A layer of the strip that the encoders share.
    StripAnimation,
    StripPicture,
    StripClear,
}

/// A label of the row is not blank.
pub open spec fn has_label(l: Seq<(Seq<char>, TextPlacement)>) -> bool {
    exists|i: int| 0 <= i < l.len() && text::trimmed((#[trigger] l[i]).0).len() > 0
}

/// There is a label that is not blank.
pub open spec fn has_labels(labels: Option<Seq<(Seq<char>, TextPlacement)>>) -> bool {
    labels is Some && has_label(labels->0)
}

/// Whether there is a label that is not blank.
pub fn any_label(labels: &Option<Vec<(String, TextPlacement)>>) -> (r: bool)
    ensures
        r == has_labels(screens::opt_labels(*labels)),
{
    match labels {
        Some(v) => {
            let ghost l = screens::labels(v@);
            let mut i: usize = 0;
            while i < v.len()
                invariant
                    i <= v@.len(),
                    l == screens::labels(v@),
                    screens::opt_labels(*labels) == Some(l),
                    forall|j: int|
                        0 <= j < i ==> text::trimmed((#[trigger] l[j]).0).len() == 0,
                decreases v@.len() - i,
            {
                assert(l[i as int].0 == v@[i as int].0@);
                let t = trim(&v[i].0);
                if !t.as_str().is_empty() {
                    assert(has_label(l));
                    return true;
                }
                i = i + 1;
            }
            false
        },
        None => false,
    }
}

/// The labels among the first `n` that are drawn: those that are not blank.
pub open spec fn drawn_labels(l: Seq<(Seq<char>, TextPlacement)>, n: nat) -> Seq<
    (Seq<char>, TextPlacement),
>
    decreases n,
{
    if n == 0 || n > l.len() {
        Seq::empty()
    } else {
        let rest = drawn_labels(l, (n - 1) as nat);
        if text::trimmed(l[n - 1].0).len() > 0 {
            rest.push(l[n - 1])
        } else {
            rest
        }
    }
}

/// The labels that are drawn, in their order.
pub fn labels_to_draw(labels: &Vec<(String, TextPlacement)>) -> (r: Vec<(String, TextPlacement)>)
    ensures
        screens::labels(r@) == drawn_labels(screens::labels(labels@), labels@.len()),
{
    let ghost l = screens::labels(labels@);
    let mut out: Vec<(String, TextPlacement)> = Vec::new();
    let mut i: usize = 0;
    assert(screens::labels(out@) =~= Seq::empty());
    while i < labels.len()
        invariant
            i <= labels@.len(),
            l == screens::labels(labels@),
            screens::labels(out@) == drawn_labels(l, i as nat),
        decreases labels@.len() - i,
    {
        assert(l[i as int] == (labels@[i as int].0@, labels@[i as int].1));
        if !trim(&labels[i].0).as_str().is_empty() {
            let ghost before = out@;
            out.push((labels[i].0.clone(), labels[i].1));
            assert(screens::labels(out@) =~= screens::labels(before).push(l[i as int]));
        }
        i = i + 1;
    }
    out
}

/// How a slot is drawn.
pub open spec fn drawing(encoder: bool, strip: bool, content: Content, labelled: bool) -> Draw {
    match content {
        Content::Animated => if !encoder {
            Draw::KeyAnimation
        } else if strip {
            Draw::StripAnimation
        } else {
            Draw::DialAnimation
        },
        Content::Still => if !encoder {
            Draw::KeyPicture
        } else if strip {
            Draw::StripPicture
        } else {
            Draw::DialPicture
        },
        Content::Nothing => if encoder {
            if strip {
                Draw::StripClear
            } else {
                Draw::DialClear
            }
        } else if labelled {
            Draw::KeyLabels
        } else {
            Draw::KeyClear
        },
    }
}

/// An animation of its own runs for the slot. The layers of a strip are animated
/// together.
pub open spec fn runs_alone(draw: Draw) -> bool {
    draw == Draw::KeyAnimation || draw == Draw::DialAnimation
}

/// How a slot is drawn, and which animation runs in it.
pub struct SlotDrawing {
    pub draw: Draw,
    /// The generation of the animation that starts.
    pub generation: Option<u64>,
}

/// Decides how a slot of a device is drawn. The animation that ran in it ends.
pub fn update_image(
    registry: &mut AnimationRegistry,
    key: &AnimationKey,
    strip: bool,
    content: Content,
    labels: &Option<Vec<(String, TextPlacement)>>,
) -> (r: SlotDrawing)
    requires
        old(registry).wf(),
    ensures
        final(registry).wf(),
        r.draw == drawing(
            key@.controller == "Encoder"@,
            strip,
            content,
            has_labels(screens::opt_labels(*labels)),
        ),
        runs_alone(r.draw) ==> r.generation == Some(
            animation::following(animation::generation_of(old(registry)@.last, key@)),
        ) && final(registry)@ == animation::started(old(registry)@, key@),
        !runs_alone(r.draw) ==> r.generation is None && final(registry)@ == animation::stopped(
            old(registry)@,
            key@,
        ),
{
    let encoder = same_text(&key.controller, "Encoder");
    let draw = match content {
        Content::Animated => if !encoder {
            Draw::KeyAnimation
        } else if strip {
            Draw::StripAnimation
        } else {
            Draw::DialAnimation
        },
        Content::Still => if !encoder {
            Draw::KeyPicture
        } else if strip {
            Draw::StripPicture
        } else {
            Draw::DialPicture
        },
        Content::Nothing => if encoder {
            if strip {
                Draw::StripClear
            } else {
                Draw::DialClear
            }
        } else if any_label(labels) {
            Draw::KeyLabels
        } else {
            Draw::KeyClear
        },
    };
    if draw == Draw::KeyAnimation || draw == Draw::DialAnimation {
        let g = registry.next_generation(key);
        SlotDrawing { draw, generation: Some(g) }
    } else {
        registry.stop(key);
        SlotDrawing { draw, generation: None }
    }
}

/// The size that a picture is brought to before it is drawn: that of the key, or
/// 72 pixels square at an encoder.
pub fn target_of(draw: Draw, key_width: u32, key_height: u32) -> (r: Target)
    ensures
        r == match draw {
            Draw::KeyAnimation | Draw::KeyPicture | Draw::KeyLabels | Draw::KeyClear => Target {
                width: key_width,
                height: key_height,
                resize_mode: ResizeMode::Exact,
            },
            Draw::StripAnimation => Target {
                width: 72,
                height: 72,
                resize_mode: ResizeMode::Exact,
            },
            _ => Target { width: 72, height: 72, resize_mode: ResizeMode::Fit },
        },
{
    match draw {
        Draw::KeyAnimation | Draw::KeyPicture | Draw::KeyLabels | Draw::KeyClear => Target {
            width: key_width,
            height: key_height,
            resize_mode: ResizeMode::Exact,
        },
        Draw::StripAnimation => Target { width: 72, height: 72, resize_mode: ResizeMode::Exact },
        _ => Target { width: 72, height: 72, resize_mode: ResizeMode::Fit },
    }
}

/// Whether the corners of what is drawn are rounded: on keys.
pub fn rounds_corners(draw: Draw) -> (r: bool)
    ensures
        r == (draw == Draw::KeyAnimation || draw == Draw::KeyPicture || draw == Draw::KeyLabels),
{
    draw == Draw::KeyAnimation || draw == Draw::KeyPicture || draw == Draw::KeyLabels
}

/// Where on the display a picture of 72 pixels stands that belongs to an
/// encoder: in the middle of its segment.
pub fn icon_origin(position: u8) -> (r: (u16, u16))
    ensures
        r.0 == position * 200 + 64,
        r.1 == 14,
{
    (position as u16 * 200 + 64, 14)
}

/// Where on the display the segment of an encoder begins.
pub fn segment_origin(position: u8) -> (r: (u16, u16))
    ensures
        r.0 == position * 200,
        r.1 == 0,
{
    (position as u16 * 200, 0)
}

// ---------------------------------------------------------------------------
// The strip
// ---------------------------------------------------------------------------

/// A layer of the strip.
pub enum PlusLayer {
    Empty,
    Static(Picture),
    Animated { frames: Vec<PreparedFrame>, idx: usize, next_at: u64 },
}

/// The model of a `PlusLayer`. The frame `idx` is shown until `next_at`.
pub enum LayerView {
    Empty,
    Static(PictureView),
    Animated { frames: Seq<FrameView>, idx: nat, next_at: u64 },
}

impl View for PlusLayer {
    type V = LayerView;

    open spec fn view(&self) -> LayerView {
        match self {
            PlusLayer::Empty => LayerView::Empty,
            PlusLayer::Static(p) => LayerView::Static(p@),
            PlusLayer::Animated { frames, idx, next_at } => LayerView::Animated {
                frames: picture::frames_view(frames@),
                idx: *idx as nat,
                next_at: *next_at,
            },
        }
    }
}

/// The models of layers.
pub open spec fn layers_view(s: Seq<PlusLayer>) -> Seq<LayerView> {
    Seq::new(s.len(), |k: int| s[k]@)
}

/// An animated layer shows one of its frames.
pub open spec fn layer_wf(l: LayerView) -> bool {
    match l {
        LayerView::Animated { frames, idx, next_at } => idx < frames.len(),
        _ => true,
    }
}

/// What a layer shows.
pub open spec fn layer_image(l: LayerView) -> PictureView {
    match l {
        LayerView::Empty => PictureView { width: 1, height: 1, pixels: seq![0, 0, 0, 0] },
        LayerView::Static(p) => p,
        LayerView::Animated { frames, idx, next_at } => frames[idx as int].image,
    }
}

impl PlusLayer {
    /// Whether the layer is animated.
    pub fn is_animated(&self) -> (r: bool)
        ensures
            r == (self@ is Animated),
    {
        match self {
            PlusLayer::Animated { .. } => true,
            _ => false,
        }
    }

    /// What the layer shows; a transparent pixel where it is empty.
    pub fn current_image(&self) -> (r: Picture)
        requires
            layer_wf(self@),
        ensures
            r@ == layer_image(self@),
    {
        match self {
            PlusLayer::Empty => {
                let mut pixels: Vec<u8> = Vec::new();
                pixels.push(0);
                pixels.push(0);
                pixels.push(0);
                pixels.push(0);
                assert(pixels@ =~= seq![0, 0, 0, 0]);
                Picture { width: 1, height: 1, pixels }
            },
            PlusLayer::Static(p) => p.copy(),
            PlusLayer::Animated { frames, idx, next_at: _ } => {
                assert(picture::frames_view(frames@)[*idx as int] == frames@[*idx as int]@);
                frames[*idx].image.copy()
            },
        }
    }

    /// A layer that shows an animation from its first frame on.
    pub fn animated(frames: Vec<PreparedFrame>, now: u64) -> (r: PlusLayer)
        requires
            frames@.len() > 0,
            now + frames@[0].delay <= u64::MAX,
        ensures
            layer_wf(r@),
            r@ == (LayerView::Animated {
                frames: picture::frames_view(frames@),
                idx: 0,
                next_at: (now + frames@[0].delay) as u64,
            }),
    {
        let next_at = now + frames[0].delay;
        PlusLayer::Animated { frames, idx: 0, next_at }
    }
}

/// The strip of a device: a background, and a layer for each encoder.
pub struct PlusDeviceState {
    pub generation: u64,
    pub background: PlusLayer,
    pub dials: Vec<PlusLayer>,
    /// A task is drawing the newest generation.
    pub task_running: bool,
}

/// The model of a `PlusDeviceState`.
pub struct StripView {
    pub generation: u64,
    pub background: LayerView,
    pub dials: Seq<LayerView>,
    pub task_running: bool,
}

impl View for PlusDeviceState {
    type V = StripView;

    open spec fn view(&self) -> StripView {
        StripView {
            generation: self.generation,
            background: self.background@,
            dials: layers_view(self.dials@),
            task_running: self.task_running,
        }
    }
}

impl StripView {
    /// Each animated layer shows one of its frames.
    pub open spec fn wf(self) -> bool {
        &&& layer_wf(self.background)
        &&& forall|k: int| 0 <= k < self.dials.len() ==> layer_wf(#[trigger] self.dials[k])
    }

    /// A layer is animated.
    pub open spec fn is_animated(self) -> bool {
        self.background is Animated || exists|k: int|
            0 <= k < self.dials.len() && #[trigger] self.dials[k] is Animated
    }
}

/// The strip in a new generation, which no task is drawing yet.
pub open spec fn bumped(s: StripView) -> StripView {
    StripView { generation: animation::following(s.generation), task_running: false, ..s }
}

/// Layers, at least `n` of them.
pub open spec fn padded(s: Seq<LayerView>, n: nat) -> Seq<LayerView> {
    if s.len() < n {
        s + Seq::new((n - s.len()) as nat, |k: int| LayerView::Empty)
    } else {
        s
    }
}

/// The strip with another layer for an encoder.
pub open spec fn with_dial(s: StripView, encoders: nat, position: int, layer: LayerView) -> StripView {
    bumped(StripView { dials: padded(s.dials, encoders).update(position, layer), ..s })
}

impl PlusDeviceState {
    /// An empty strip.
    pub fn new(encoders: usize) -> (r: PlusDeviceState)
        ensures
            r@ == (StripView {
                generation: 1,
                background: LayerView::Empty,
                dials: Seq::new(encoders as nat, |k: int| LayerView::Empty),
                task_running: false,
            }),
            r@.wf(),
    {
        let mut s = PlusDeviceState {
            generation: 1,
            background: PlusLayer::Empty,
            dials: Vec::new(),
            task_running: false,
        };
        s.pad(encoders);
        assert(s@.dials =~= Seq::new(encoders as nat, |k: int| LayerView::Empty));
        s
    }

    fn pad(&mut self, encoders: usize)
        ensures
            final(self)@ == (StripView {
                dials: padded(old(self)@.dials, encoders as nat),
                ..old(self)@
            }),
    {
        let ghost before = self.dials@;
        let ghost goal = padded(layers_view(before), encoders as nat);
        while self.dials.len() < encoders
            invariant
                before.len() <= self.dials@.len(),
                self.dials@.len() <= encoders || self.dials@.len() == before.len(),
                self.generation == old(self).generation,
                self.background == old(self).background,
                self.task_running == old(self).task_running,
                forall|k: int| 0 <= k < before.len() ==> self.dials@[k] == before[k],
                forall|k: int|
                    before.len() <= k < self.dials@.len() ==> (#[trigger] self.dials@[k])@
                        == LayerView::Empty,
            decreases encoders - self.dials@.len(),
        {
            self.dials.push(PlusLayer::Empty);
        }
        assert(layers_view(self.dials@) =~= goal);
    }

    /// Starts a new generation: the task that draws an older one ends.
    pub fn bump_generation(&mut self) -> (r: u64)
        ensures
            final(self)@ == bumped(old(self)@),
            r == final(self)@.generation,
    {
        self.generation = next_of(self.generation);
        self.task_running = false;
        self.generation
    }

    /// Sets the layer of an encoder, on a device with so many encoders.
    pub fn set_dial(&mut self, encoders: usize, position: u8, layer: PlusLayer) -> (r: u64)
        requires
            (position as int) < encoders || (position as int) < old(self)@.dials.len(),
        ensures
            final(self)@ == with_dial(old(self)@, encoders as nat, position as int, layer@),
            r == final(self)@.generation,
            old(self)@.wf() && layer_wf(layer@) ==> final(self)@.wf(),
    {
        let ghost l = layer@;
        self.pad(encoders);
        let ghost dials = self@.dials;
        self.dials.set(position as usize, layer);
        assert(self@.dials =~= dials.update(position as int, l));
        self.bump_generation()
    }

    /// Sets the background.
    pub fn set_background(&mut self, layer: PlusLayer) -> (r: u64)
        ensures
            final(self)@ == bumped(StripView { background: layer@, ..old(self)@ }),
            r == final(self)@.generation,
            old(self)@.wf() && layer_wf(layer@) ==> final(self)@.wf(),
    {
        self.background = layer;
        self.bump_generation()
    }

    /// Empties all layers.
    pub fn clear(&mut self) -> (r: u64)
        ensures
            final(self)@ == bumped(
                StripView {
                    background: LayerView::Empty,
                    dials: Seq::new(old(self)@.dials.len(), |k: int| LayerView::Empty),
                    ..old(self)@
                },
            ),
            r == final(self)@.generation,
            final(self)@.wf(),
            !final(self)@.is_animated(),
    {
        let n: usize = self.dials.len();
        self.background = PlusLayer::Empty;
        self.dials = Vec::new();
        self.pad(n);
        assert(self@.dials =~= Seq::new(n as nat, |k: int| LayerView::Empty));
        self.bump_generation()
    }

    /// Whether a layer is animated.
    pub fn any_animated(&self) -> (r: bool)
        ensures
            r == self@.is_animated(),
    {
        if self.background.is_animated() {
            return true;
        }
        let mut k: usize = 0;
        while k < self.dials.len()
            invariant
                k <= self.dials@.len(),
                forall|j: int| 0 <= j < k ==> !(#[trigger] self@.dials[j] is Animated),
            decreases self.dials@.len() - k,
        {
            if self.dials[k].is_animated() {
                assert(self@.dials[k as int] is Animated);
                return true;
            }
            k = k + 1;
        }
        false
    }

    /// Claims the task that draws a generation. Whether it is to be started: not
    /// where the newest generation has one already.
    pub fn claim_task(&mut self, generation: u64) -> (r: bool)
        ensures
            r == !(old(self)@.task_running && old(self)@.generation == generation),
            final(self)@ == (StripView { task_running: old(self)@.task_running || r, ..old(self)@ }),
    {
        if self.task_running && self.generation == generation {
            return false;
        }
        self.task_running = true;
        true
    }

    /// The task ends.
    pub fn release_task(&mut self)
        ensures
            final(self)@ == (StripView { task_running: false, ..old(self)@ }),
    {
        self.task_running = false;
    }
}

/// Every change of the strip ends the task that drew it before.
pub proof fn law_change_ends_task(s: StripView, encoders: nat, position: int, layer: LayerView)
    ensures
        with_dial(s, encoders, position, layer).generation != s.generation,
        with_dial(s, encoders, position, layer).generation != 0,
        !with_dial(s, encoders, position, layer).task_running,
{
}

/// A layer at the time `now`: an animated one whose frame is over shows its next
/// frame, and its first after its last.
pub open spec fn advanced(l: LayerView, now: u64) -> LayerView {
    match l {
        LayerView::Animated { frames, idx, next_at } => if frames.len() > 0 && next_at <= now {
            let next = (idx + 1) % frames.len();
            LayerView::Animated {
                frames,
                idx: next,
                next_at: (now + frames[next as int].delay) as u64,
            }
        } else {
            l
        },
        _ => l,
    }
}

/// The frames of a layer can be timed from `now` on.
pub open spec fn can_advance(l: LayerView, now: u64) -> bool {
    match l {
        LayerView::Animated { frames, idx, next_at } => idx < frames.len() && forall|k: int|
            0 <= k < frames.len() ==> now + (#[trigger] frames[k]).delay <= u64::MAX,
        _ => true,
    }
}

/// When the frame of a layer is over.
pub open spec fn due(l: LayerView) -> Option<u64> {
    match l {
        LayerView::Animated { frames, idx, next_at } => if frames.len() > 0 {
            Some(next_at)
        } else {
            None
        },
        _ => None,
    }
}

/// The earlier of two times, where there are any.
pub open spec fn earlier(a: Option<u64>, b: Option<u64>) -> Option<u64> {
    match (a, b) {
        (Some(x), Some(y)) => if x <= y {
            Some(x)
        } else {
            Some(y)
        },
        (Some(x), None) => Some(x),
        (None, y) => y,
    }
}

/// When the first frame among those of a background and of the first `n` layers
/// is over.
pub open spec fn first_due(background: LayerView, dials: Seq<LayerView>, n: nat) -> Option<u64>
    decreases n,
{
    if n == 0 || n > dials.len() {
        due(background)
    } else {
        earlier(first_due(background, dials, (n - 1) as nat), due(dials[n - 1]))
    }
}

/// The strip with its layers at the time `now`.
pub open spec fn ticked(s: StripView, now: u64) -> StripView {
    StripView {
        background: advanced(s.background, now),
        dials: Seq::new(s.dials.len(), |k: int| advanced(s.dials[k], now)),
        ..s
    }
}

fn advance(layer: &PlusLayer, now: u64) -> (r: Option<(usize, u64)>)
    requires
        can_advance(layer@, now),
    ensures
        match r {
            Some(p) => layer@ is Animated && advanced(layer@, now) == (LayerView::Animated {
                frames: layer@->frames,
                idx: p.0 as nat,
                next_at: p.1,
            }) && p.0 < layer@->frames.len(),
            None => layer@ !is Animated,
        },
{
    match layer {
        PlusLayer::Animated { frames, idx, next_at } => {
            let ghost f = picture::frames_view(frames@);
            assert(f.len() == frames@.len());
            if *next_at <= now {
                let n: usize = frames.len();
                let next: usize = if *idx + 1 == n {
                    0
                } else {
                    *idx + 1
                };
                assert(next == (*idx as nat + 1) % f.len()) by {
                    if *idx + 1 < n {
                        vstd::arithmetic::div_mod::lemma_small_mod((*idx + 1) as nat, n as nat);
                    } else {
                        vstd::arithmetic::div_mod::lemma_mod_self_0(n as int);
                    }
                }
                assert(f[next as int] == frames@[next as int]@);
                Some((next, now + frames[next].delay))
            } else {
                Some((*idx, *next_at))
            }
        },
        _ => None,
    }
}

fn set_frame(layer: &mut PlusLayer, new_idx: usize, new_next_at: u64)
    requires
        old(layer)@ is Animated,
    ensures
        final(layer)@ == (LayerView::Animated {
            frames: old(layer)@->frames,
            idx: new_idx as nat,
            next_at: new_next_at,
        }),
{
    match layer {
        PlusLayer::Animated { frames: _, idx, next_at } => {
            *idx = new_idx;
            *next_at = new_next_at;
        },
        _ => {},
    }
}

fn advance_layer(layer: &mut PlusLayer, now: u64) -> (r: Option<u64>)
    requires
        can_advance(old(layer)@, now),
    ensures
        final(layer)@ == advanced(old(layer)@, now),
        layer_wf(final(layer)@),
        r == due(final(layer)@),
{
    match advance(layer, now) {
        Some(p) => {
            set_frame(layer, p.0, p.1);
            Some(p.1)
        },
        None => None,
    }
}

fn earlier_of(a: Option<u64>, b: Option<u64>) -> (r: Option<u64>)
    ensures
        r == earlier(a, b),
{
    match (a, b) {
        (Some(x), Some(y)) => if x <= y {
            Some(x)
        } else {
            Some(y)
        },
        (Some(x), None) => Some(x),
        (None, y) => y,
    }
}

/// What the task that draws a strip does next.
pub struct Tick {
    /// Whether the task goes on: its generation is the newest.
    pub current: bool,
    /// Whether a layer is animated: else the task ends once it has drawn.
    pub animated: bool,
    /// When the first frame is over.
    pub due: Option<u64>,
}

impl PlusDeviceState {
    /// The task that draws a generation looks at the strip at the time `now`.
    pub fn tick(&mut self, generation: u64, now: u64) -> (r: Tick)
        requires
            can_advance(old(self)@.background, now),
            forall|k: int|
                0 <= k < old(self)@.dials.len() ==> can_advance(
                    #[trigger] old(self)@.dials[k],
                    now,
                ),
        ensures
            r.current == (old(self)@.generation == generation),
            !r.current ==> final(self)@ == (StripView { task_running: false, ..old(self)@ })
                && !r.animated && r.due is None,
            r.current ==> final(self)@ == ticked(old(self)@, now) && final(self)@.wf()
                && r.animated == final(self)@.is_animated() && r.due == first_due(
                final(self)@.background,
                final(self)@.dials,
                final(self)@.dials.len(),
            ),
    {
        if self.generation != generation {
            self.task_running = false;
            return Tick { current: false, animated: false, due: None };
        }
        let ghost before = self@;
        let mut next = advance_layer(&mut self.background, now);
        let mut k: usize = 0;
        while k < self.dials.len()
            invariant
                k <= self.dials@.len(),
                self.dials@.len() == before.dials.len(),
                self.generation == before.generation,
                self.task_running == before.task_running,
                self.background@ == advanced(before.background, now),
                layer_wf(self.background@),
                forall|j: int|
                    0 <= j < before.dials.len() ==> can_advance(#[trigger] before.dials[j], now),
                forall|j: int|
                    0 <= j < k ==> (#[trigger] self.dials@[j])@ == advanced(before.dials[j], now)
                        && layer_wf(self.dials@[j]@),
                forall|j: int|
                    k <= j < before.dials.len() ==> (#[trigger] self.dials@[j])@
                        == before.dials[j],
                next == first_due(
                    self.background@,
                    ticked(before, now).dials,
                    k as nat,
                ),
            decreases self.dials@.len() - k,
        {
            assert(can_advance(before.dials[k as int], now));
            assert(self.dials@[k as int]@ == before.dials[k as int]);
            let d = advance_layer(&mut self.dials[k], now);
            assert(ticked(before, now).dials[k as int] == advanced(before.dials[k as int], now));
            next = earlier_of(next, d);
            k = k + 1;
        }
        assert(self@.dials =~= ticked(before, now).dials);
        let animated = self.any_animated();
        Tick { current: true, animated, due: next }
    }
}

/// How long the task that draws a strip sleeps, in milliseconds: until the next
/// frame, but at least 1 and at most 200; 5 where that time has passed.
pub fn sleep_for(due: Option<u64>, now: u64) -> (r: u64)
    ensures
        r == match due {
            Some(t) => if t < now {
                5
            } else if t - now < 1 {
                1
            } else if t - now > 200 {
                200
            } else {
                t - now
            },
            None => 5,
        },
        1 <= r <= 200,
{
    match due {
        Some(t) => if t < now {
            5
        } else if t - now < 1 {
            1
        } else if t - now > 200 {
            200
        } else {
            t - now
        },
        None => 5,
    }
}

/// A tick keeps the generation, the number of dials and the well-formedness of
/// what the strip shows, and leaves a background that is not animated as it is.
pub proof fn law_tick_keeps_layers(s: StripView, now: u64)
    requires
        s.wf(),
    ensures
        ticked(s, now).generation == s.generation,
        ticked(s, now).dials.len() == s.dials.len(),
        ticked(s, now).wf(),
        s.background !is Animated ==> ticked(s, now).background == s.background,
{
    assert forall|k: int| 0 <= k < s.dials.len() implies layer_wf(
        #[trigger] ticked(s, now).dials[k],
    ) by {
        lemma_advanced_wf(s.dials[k], now);
    }
    lemma_advanced_wf(s.background, now);
}

proof fn lemma_advanced_wf(l: LayerView, now: u64)
    requires
        layer_wf(l),
    ensures
        layer_wf(advanced(l, now)),
{
    match l {
        LayerView::Animated { frames, idx, next_at } => {
            assert((idx + 1) % frames.len() < frames.len()) by (nonlinear_arith)
                requires
                    frames.len() > 0,
            ;
        },
        _ => {},
    }
}

// ---------------------------------------------------------------------------
// Devices
// ---------------------------------------------------------------------------

/// A model of device.
#[derive(Clone, Copy, PartialEq, Eq, Structural, Debug)]
pub enum DeckKind {
    Original,
    OriginalV2,
    Mk2,
    Mk2Scissor,
    Mk2Module,
    Mini,
    MiniMk2,
    MiniDiscord,
    MiniMk2Module,
    Xl,
    XlV2,
    XlV2Module,
    Pedal,
    Plus,
    Neo,
}

/// The number by which plugins know a family of devices.
pub open spec fn type_of(kind: DeckKind) -> u8 {
    match kind {
        DeckKind::Original | DeckKind::OriginalV2 | DeckKind::Mk2 | DeckKind::Mk2Scissor
        | DeckKind::Mk2Module => 0,
        DeckKind::Mini | DeckKind::MiniMk2 | DeckKind::MiniDiscord | DeckKind::MiniMk2Module => 1,
        DeckKind::Xl | DeckKind::XlV2 | DeckKind::XlV2Module => 2,
        DeckKind::Pedal => 5,
        DeckKind::Plus => 7,
        DeckKind::Neo => 9,
    }
}

/// The number by which plugins know a family of devices.
pub fn device_type(kind: DeckKind) -> (r: u8)
    ensures
        r == type_of(kind),
{
    match kind {
        DeckKind::Original | DeckKind::OriginalV2 | DeckKind::Mk2 | DeckKind::Mk2Scissor
        | DeckKind::Mk2Module => 0,
        DeckKind::Mini | DeckKind::MiniMk2 | DeckKind::MiniDiscord | DeckKind::MiniMk2Module => 1,
        DeckKind::Xl | DeckKind::XlV2 | DeckKind::XlV2Module => 2,
        DeckKind::Pedal => 5,
        DeckKind::Plus => 7,
        DeckKind::Neo => 9,
    }
}

/// The model whose keys stand for those of a family; the most common one for a
/// family that is not known.
pub open spec fn kind_of(device_type: u8) -> DeckKind {
    if device_type == 1 {
        DeckKind::MiniMk2
    } else if device_type == 2 {
        DeckKind::XlV2
    } else if device_type == 5 {
        DeckKind::Pedal
    } else if device_type == 7 {
        DeckKind::Plus
    } else if device_type == 9 {
        DeckKind::Neo
    } else {
        DeckKind::Mk2
    }
}

/// The model whose keys stand for those of a family.
pub fn kind_for_device_type(device_type: u8) -> (r: DeckKind)
    ensures
        r == kind_of(device_type),
{
    match device_type {
        1 => DeckKind::MiniMk2,
        2 => DeckKind::XlV2,
        5 => DeckKind::Pedal,
        7 => DeckKind::Plus,
        9 => DeckKind::Neo,
        _ => DeckKind::Mk2,
    }
}

/// The model that stands for a family is of that family.
pub proof fn law_kind_is_of_its_family(kind: DeckKind)
    ensures
        type_of(kind_of(type_of(kind))) == type_of(kind),
{
}

/// What is known of a device from the outside.
pub struct DeckFacts {
    pub kind: DeckKind,
    pub rows: u8,
    pub columns: u8,
    pub encoders: u8,
}

/// The display between the keys and the encoders of a device that has one.
pub open spec fn screen_for(kind: DeckKind, encoders: u8) -> Option<DeviceScreenInfo> {
    if kind == DeckKind::Plus {
        Some(
            DeviceScreenInfo {
                width_px: 800,
                height_px: 100,
                segments: encoders,
                placement: ScreenPlacement::BetweenKeypadAndEncoders,
            },
        )
    } else {
        None
    }
}

/// The description of a device.
pub fn describe_device(id: String, name: String, facts: &DeckFacts) -> (r: DeviceInfo)
    ensures
        r == (DeviceInfo {
            id,
            plugin: r.plugin,
            name,
            rows: facts.rows,
            columns: facts.columns,
            encoders: facts.encoders,
            device_type: type_of(facts.kind),
            screen: screen_for(facts.kind, facts.encoders),
        }),
        r.plugin@.len() == 0,
{
    let screen = if facts.kind == DeckKind::Plus {
        Some(
            DeviceScreenInfo {
                width_px: 800,
                height_px: 100,
                segments: facts.encoders,
                placement: ScreenPlacement::BetweenKeypadAndEncoders,
            },
        )
    } else {
        None
    };
    DeviceInfo {
        id,
        plugin: String::new(),
        name,
        rows: facts.rows,
        columns: facts.columns,
        encoders: facts.encoders,
        device_type: device_type(facts.kind),
        screen,
    }
}

/// A value of `RIVERDECK_TEST_DEVICES` that asks for test devices.
pub open spec fn asks_for_test_devices(v: Seq<char>) -> bool {
    ||| text::ascii_lowered(text::trimmed(v)) == "all"@
    ||| v == "1"@
    ||| v == "true"@
    ||| v == "TRUE"@
    ||| v == "yes"@
    ||| v == "YES"@
    ||| v == "on"@
    ||| v == "ON"@
}

/// Whether test devices are to be announced, given the value of
/// `RIVERDECK_TEST_DEVICES`.
pub fn spawn_all_test_devices_enabled(value: &Option<String>) -> (r: bool)
    ensures
        r == (value matches Some(v) && asks_for_test_devices(v@)),
{
    match value {
        Some(v) => {
            let t = trim(v);
            let l = to_ascii_lowercase(&t);
            same_text(&l, "all") || same_text(v, "1") || same_text(v, "true") || same_text(
                v,
                "TRUE",
            ) || same_text(v, "yes") || same_text(v, "YES") || same_text(v, "on") || same_text(
                v,
                "ON",
            )
        },
        None => false,
    }
}

/// A device that stands for its family while testing.
pub struct TestDevice {
    pub kind: DeckKind,
    pub id: String,
    pub name: String,
}

/// The models of test devices.
pub open spec fn test_devices_view(s: Seq<TestDevice>) -> Seq<(DeckKind, Seq<char>, Seq<char>)> {
    s.map_values(|d: TestDevice| (d.kind, d.id@, d.name@))
}

/// One device for each family.
pub open spec fn all_test_devices() -> Seq<(DeckKind, Seq<char>, Seq<char>)> {
    seq![
        (DeckKind::Mk2, "sd-test-mk2"@, "(Test) Stream Deck MK.2"@),
        (DeckKind::MiniMk2, "sd-test-mini"@, "(Test) Stream Deck Mini"@),
        (DeckKind::XlV2, "sd-test-xl"@, "(Test) Stream Deck XL"@),
        (DeckKind::Pedal, "sd-test-pedal"@, "(Test) Stream Deck Pedal"@),
        (DeckKind::Plus, "sd-test-plus"@, "(Test) Stream Deck +"@),
        (DeckKind::Neo, "sd-test-neo"@, "(Test) Stream Deck Neo"@),
    ]
}

/// The test devices. Those whose id is known already are passed over.
pub fn test_devices() -> (r: Vec<TestDevice>)
    ensures
        test_devices_view(r@) == all_test_devices(),
{
    let mut v: Vec<TestDevice> = Vec::new();
    v.push(
        TestDevice {
            kind: DeckKind::Mk2,
            id: owned("sd-test-mk2"),
            name: owned("(Test) Stream Deck MK.2"),
        },
    );
    v.push(
        TestDevice {
            kind: DeckKind::MiniMk2,
            id: owned("sd-test-mini"),
            name: owned("(Test) Stream Deck Mini"),
        },
    );
    v.push(
        TestDevice {
            kind: DeckKind::XlV2,
            id: owned("sd-test-xl"),
            name: owned("(Test) Stream Deck XL"),
        },
    );
    v.push(
        TestDevice {
            kind: DeckKind::Pedal,
            id: owned("sd-test-pedal"),
            name: owned("(Test) Stream Deck Pedal"),
        },
    );
    v.push(
        TestDevice {
            kind: DeckKind::Plus,
            id: owned("sd-test-plus"),
            name: owned("(Test) Stream Deck +"),
        },
    );
    v.push(
        TestDevice {
            kind: DeckKind::Neo,
            id: owned("sd-test-neo"),
            name: owned("(Test) Stream Deck Neo"),
        },
    );
    assert(test_devices_view(v@) =~= all_test_devices());
    v
}

/// The id of a device by its serial number.
pub fn device_id(serial: &str) -> (r: String)
    ensures
        r@ == "sd-"@ + serial@,
{
    concat2("sd-", serial)
}

/// The brightness that a device is set to: at most 100.
pub fn device_brightness(brightness: u8) -> (r: u8)
    ensures
        r == if brightness > 100 {
            100
        } else {
            brightness
        },
{
    if brightness > 100 {
        100
    } else {
        brightness
    }
}

/// By how many pages a swipe goes on: by none where it is more upright than
/// level, back where it goes to the left, else forward.
pub fn swipe_delta(start: (u16, u16), end: (u16, u16)) -> (r: Option<i32>)
    ensures
        ({
            let dx = end.0 - start.0;
            let dy = end.1 - start.1;
            let width = if dx < 0 {
                -dx
            } else {
                dx
            };
            let height = if dy < 0 {
                -dy
            } else {
                dy
            };
            if width < height {
                r is None
            } else if dx < 0 {
                r is Some && r->0 == -1
            } else {
                r is Some && r->0 == 1
            }
        }),
{
    let dx: i32 = end.0 as i32 - start.0 as i32;
    let dy: i32 = end.1 as i32 - start.1 as i32;
    let width: i32 = if dx < 0 {
        -dx
    } else {
        dx
    };
    let height: i32 = if dy < 0 {
        -dy
    } else {
        dy
    };
    if width < height {
        None
    } else if dx < 0 {
        Some(-1)
    } else {
        Some(1)
    }
}

/// Leaves the host's own devices to a plugin, or takes them back. Whether the
/// host looks for them.
pub fn choose_implementation(namespaces: &mut DeviceNamespaces, disableelgato: bool) -> (r: bool)
    ensures
        r == !disableelgato,
        final(namespaces)@ == if disableelgato {
            plugins::with_namespace(
                old(namespaces)@,
                "sd"@,
                "opendeck_alternative_elgato_implementation"@,
            )
        } else {
            plugins::without_namespace(old(namespaces)@, "sd"@)
        },
{
    if disableelgato {
        namespaces.insert("sd", "opendeck_alternative_elgato_implementation");
        false
    } else {
        namespaces.remove("sd");
        true
    }
}

/// The labels that are drawn are those that are not blank, in their order; there is
/// one exactly where a slot counts as labelled.
pub proof fn law_blank_labels_are_not_drawn(l: Seq<(Seq<char>, TextPlacement)>, n: nat)
    requires
        n <= l.len(),
    ensures
        drawn_labels(l, n) == l.take(n as int).filter(
            |x: (Seq<char>, TextPlacement)| text::trimmed(x.0).len() > 0,
        ),
        drawn_labels(l, n).len() > 0 <==> has_label(l.take(n as int)),
    decreases n,
{
    reveal(Seq::filter);
    let now = l.take(n as int);
    if n > 0 {
        let m = (n - 1) as nat;
        law_blank_labels_are_not_drawn(l, m);
        let before = l.take(m as int);
        assert(now.drop_last() =~= before);
        assert(now.last() == l[m as int]);
        if has_label(before) {
            let i = choose|i: int|
                0 <= i < before.len() && text::trimmed((#[trigger] before[i]).0).len() > 0;
            assert(now[i] == before[i]);
        }
        if has_label(now) {
            let i = choose|i: int|
                0 <= i < now.len() && text::trimmed((#[trigger] now[i]).0).len() > 0;
            if i < m {
                assert(before[i] == now[i]);
            }
        }
        if text::trimmed(l[m as int].0).len() > 0 {
            assert(text::trimmed(now[m as int].0).len() > 0);
        }
    }
}

/// A slot is drawn as what it holds and where it is: an animation as an animation, a
/// picture as a picture, on a key, on a dial or on a strip. Labels alone are drawn on
/// keys only, and a slot without content is cleared.
pub proof fn law_slot_is_drawn_as_it_is(
    encoder: bool,
    strip: bool,
    content: Content,
    labelled: bool,
)
    ensures
        ({
            let d = drawing(encoder, strip, content, labelled);
            let on_key = d == Draw::KeyAnimation || d == Draw::KeyPicture || d == Draw::KeyLabels
                || d == Draw::KeyClear;
            let on_strip = d == Draw::StripAnimation || d == Draw::StripPicture || d
                == Draw::StripClear;
            let moving = d == Draw::KeyAnimation || d == Draw::StripAnimation || d
                == Draw::DialAnimation;
            let still = d == Draw::KeyPicture || d == Draw::StripPicture || d
                == Draw::DialPicture;
            &&& on_key <==> !encoder
            &&& on_strip <==> encoder && strip
            &&& moving <==> content == Content::Animated
            &&& still <==> content == Content::Still
            &&& d == Draw::KeyLabels <==> !encoder && content == Content::Nothing && labelled
            &&& runs_alone(d) <==> content == Content::Animated && !(encoder && strip)
        }),
{
}

/// Another layer for an encoder leaves the background and the layers of the other
/// encoders alone.
pub proof fn law_layer_is_of_one_encoder(
    s: StripView,
    encoders: nat,
    position: int,
    layer: LayerView,
    k: int,
)
    requires
        0 <= position < encoders,
        0 <= k < s.dials.len(),
    ensures
        ({
            let t = with_dial(s, encoders, position, layer);
            &&& t.background == s.background
            &&& t.dials.len() >= encoders && t.dials.len() >= s.dials.len()
            &&& t.dials[position] == layer
            &&& k != position ==> t.dials[k] == s.dials[k]
            &&& forall|j: int|
                s.dials.len() <= j < t.dials.len() && j != position ==> (#[trigger] t.dials[j])
                    is Empty
        }),
{
}

/// A frame stays until its time is over. The next frame follows then, the first after
/// the last, and stays for its own delay.
pub proof fn law_frames_follow_each_other(
    frames: Seq<FrameView>,
    idx: nat,
    next_at: u64,
    now: u64,
)
    requires
        can_advance(LayerView::Animated { frames, idx, next_at }, now),
    ensures
        ({
            let l = LayerView::Animated { frames, idx, next_at };
            let t = advanced(l, now);
            &&& now < next_at ==> t == l
            &&& next_at <= now && idx + 1 < frames.len() ==> layer_image(t) == frames[(idx
                + 1) as int].image && due(t) == Some((now + frames[(idx + 1) as int].delay) as u64)
            &&& next_at <= now && idx + 1 == frames.len() ==> layer_image(t) == frames[0].image
                && due(t) == Some((now + frames[0].delay) as u64)
        }),
{
    let n = frames.len() as int;
    if idx + 1 < frames.len() {
        vstd::arithmetic::div_mod::lemma_small_mod(idx + 1, frames.len());
    } else {
        vstd::arithmetic::div_mod::lemma_mod_self_0(n);
    }
}

/// A layer that is not animated shows one picture at all times.
pub proof fn law_still_layer_stays(p: PictureView, now: u64)
    ensures
        advanced(LayerView::Static(p), now) == LayerView::Static(p),
        layer_image(LayerView::Static(p)) == p,
        due(LayerView::Static(p)) is None,
        advanced(LayerView::Empty, now) is Empty,
        due(LayerView::Empty) is None,
{
}

/// The strip is next drawn when the first of its frames is over: no frame is over
/// before that, and one is then.
pub proof fn law_first_frame_is_waited_for(background: LayerView, dials: Seq<LayerView>, n: nat)
    requires
        n <= dials.len(),
    ensures
        ({
            let t = first_due(background, dials, n);
            &&& due(background) matches Some(d) ==> t is Some && t->0 <= d
            &&& forall|k: int|
                0 <= k < n && due(#[trigger] dials[k]) is Some ==> t is Some && t->0 <= due(
                    dials[k],
                )->0
            &&& t is Some ==> t == due(background) || exists|k: int|
                0 <= k < n && due(#[trigger] dials[k]) == t
        }),
    decreases n,
{
    if n > 0 {
        let m = (n - 1) as nat;
        law_first_frame_is_waited_for(background, dials, m);
        let t = first_due(background, dials, n);
        let u = first_due(background, dials, m);
        if t is Some {
            if t == due(dials[m as int]) {
                assert(due(dials[m as int]) == t);
            } else {
                assert(t == u);
                if u != due(background) {
                    let k = choose|k: int| 0 <= k < m && due(#[trigger] dials[k]) == u;
                    assert(due(dials[k]) == t);
                }
            }
        }
    }
}

/// The families of devices have the numbers by which plugins know them, and only the
/// devices with a strip have a display between keys and encoders, with a segment for
/// each encoder.
pub proof fn law_families_and_displays(kind: DeckKind, encoders: u8)
    ensures
        kind == DeckKind::Mk2 || kind == DeckKind::Original ==> type_of(kind) == 0,
        kind == DeckKind::Mini || kind == DeckKind::MiniMk2 ==> type_of(kind) == 1,
        kind == DeckKind::Xl || kind == DeckKind::XlV2 ==> type_of(kind) == 2,
        kind == DeckKind::Pedal <==> type_of(kind) == 5,
        kind == DeckKind::Plus <==> type_of(kind) == 7,
        kind == DeckKind::Neo <==> type_of(kind) == 9,
        screen_for(kind, encoders) is Some <==> type_of(kind) == 7,
        screen_for(kind, encoders) matches Some(s) ==> s.segments == encoders && s.width_px == 800
            && s.height_px == 100,
{
}

/// There is a test device of every family, and the host draws on each of them.
#[verifier::rlimit(50)]
pub proof fn law_every_family_has_a_test_device(kind: DeckKind, k: int)
    requires
        0 <= k < all_test_devices().len(),
    ensures
        exists|j: int|
            0 <= j < all_test_devices().len() && type_of((#[trigger] all_test_devices()[j]).0)
                == type_of(kind),
        "sd-"@.is_prefix_of(all_test_devices()[k].1),
{
    reveal_strlit("sd-");
    reveal_strlit("sd-test-mk2");
    reveal_strlit("sd-test-mini");
    reveal_strlit("sd-test-xl");
    reveal_strlit("sd-test-pedal");
    reveal_strlit("sd-test-plus");
    reveal_strlit("sd-test-neo");
    let s = all_test_devices();
    assert(s[0].0 == DeckKind::Mk2);
    assert(s[1].0 == DeckKind::MiniMk2);
    assert(s[2].0 == DeckKind::XlV2);
    assert(s[3].0 == DeckKind::Pedal);
    assert(s[4].0 == DeckKind::Plus);
    assert(s[5].0 == DeckKind::Neo);
    assert(s[k].1.subrange(0, 3) =~= "sd-"@);
}

} // verus!
