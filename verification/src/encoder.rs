//! Encoders and the touch strip: what is sent to plugins.
use vstd::prelude::*;
use crate::json::{Json, JsonView};
use crate::keypad::Coordinates;
use crate::shared;
use crate::shared::{ActionContext, ActionContextView, ActionInstance, InstanceView};
use crate::text;
use crate::text::{owned, same_text, trim};

verus! {

/// What happened to an encoder.
#[derive(Clone, Copy, PartialEq, Eq, Debug)]
pub enum EncoderDetail {
    Rotate { ticks: i16, pressed: bool },
    Press,
    Tap { hold: bool, x: u16, y: u16 },
    Swipe { from: (u16, u16), to: (u16, u16) },
}

/// An event of an encoder, for its plugin.
pub struct EncoderEvent {
    pub event: String,
    pub plugin: String,
    pub action: String,
    pub context: ActionContext,
    pub device: String,
    pub settings: Json,
    pub coordinates: Coordinates,
    pub detail: EncoderDetail,
}

/// The model of an `EncoderEvent`.
pub struct EncoderEventView {
    pub event: Seq<char>,
    pub plugin: Seq<char>,
    pub action: Seq<char>,
    pub context: ActionContextView,
    pub device: Seq<char>,
    pub settings: JsonView,
    pub coordinates: Coordinates,
    pub detail: EncoderDetail,
}

impl View for EncoderEvent {
    type V = EncoderEventView;

    open spec fn view(&self) -> EncoderEventView {
        EncoderEventView {
            event: self.event@,
            plugin: self.plugin@,
            action: self.action@,
            context: self.context@,
            device: self.device@,
            settings: self.settings@,
            coordinates: self.coordinates,
            detail: self.detail,
        }
    }
}

/// The place of an encoder as its plugin sees it.
pub open spec fn dial_coordinates(position: u8) -> Coordinates {
    Coordinates { row: position / 3, column: position % 3 }
}

/// The event `name` of an instance on an encoder.
pub open spec fn encoder_event(
    name: Seq<char>,
    i: InstanceView,
    detail: EncoderDetail,
) -> EncoderEventView {
    EncoderEventView {
        event: name,
        plugin: i.action.plugin,
        action: i.action.uuid,
        context: i.context,
        device: i.context.device,
        settings: i.settings,
        coordinates: dial_coordinates(i.context.position),
        detail,
    }
}

fn make_event(name: &str, instance: &ActionInstance, detail: EncoderDetail) -> (r: EncoderEvent)
    ensures
        r@ == encoder_event(name@, instance@, detail),
{
    broadcast use shared::lemma_instance_view;

    EncoderEvent {
        event: owned(name),
        plugin: instance.action.plugin.clone(),
        action: instance.action.uuid.clone(),
        context: instance.context.copy(),
        device: instance.context.device.clone(),
        settings: instance.settings.copy(),
        coordinates: Coordinates {
            row: instance.context.position / 3,
            column: instance.context.position % 3,
        },
        detail,
    }
}

/// An encoder is pressed or released (`dialDown`, `dialUp`): what is sent.
pub fn dial_press(instance: &ActionInstance, event: &str) -> (r: EncoderEvent)
    ensures
        r@ == encoder_event(event@, instance@, EncoderDetail::Press),
{
    make_event(event, instance, EncoderDetail::Press)
}

/// The encoder whose segment of the touch strip holds `x`: each segment is 200
/// pixels wide, and the last encoder has all that is behind it.
pub open spec fn touched(x: u16, encoders: u8) -> Option<u8> {
    if encoders == 0 {
        None
    } else if x / 200 < encoders {
        Some((x / 200) as u8)
    } else {
        Some((encoders - 1) as u8)
    }
}

/// The encoder whose segment of the touch strip holds `x`.
pub fn touched_encoder(x: u16, encoders: u8) -> (r: Option<u8>)
    ensures
        r == touched(x, encoders),
{
    if encoders == 0 {
        return None;
    }
    if x / 200 < encoders as u16 {
        Some((x / 200) as u8)
    } else {
        Some(encoders - 1)
    }
}

/// The touch strip is tapped: what is sent.
pub fn touch_tap(instance: &ActionInstance, x: u16, y: u16, hold: bool) -> (r: EncoderEvent)
    ensures
        r@ == encoder_event("touchTap"@, instance@, (EncoderDetail::Tap { hold, x, y })),
{
    make_event("touchTap", instance, EncoderDetail::Tap { hold, x, y })
}

/// The touch strip is swiped: what is sent.
pub fn touch_swipe(instance: &ActionInstance, start: (u16, u16), end: (u16, u16)) -> (r:
    EncoderEvent)
    ensures
        r@ == encoder_event(
            "touchSwipe"@,
            instance@,
            (EncoderDetail::Swipe { from: start, to: end }),
        ),
{
    make_event("touchSwipe", instance, EncoderDetail::Swipe { from: start, to: end })
}

/// Every tap on a device with encoders is for one of them.
pub proof fn law_touch_reaches_an_encoder(x: u16, encoders: u8)
    requires
        encoders > 0,
    ensures
        touched(x, encoders) is Some,
        touched(x, encoders)->0 < encoders,
{
}

// ---------------------------------------------------------------------------
// Rotation
// ---------------------------------------------------------------------------

/// Rotations of one encoder that have not been sent yet.
pub struct PendingDialRotate {
    /// The text of the encoder's context.
    pub key: String,
    pub plugin: String,
    pub action_uuid: String,
    pub ctx: ActionContext,
    pub settings: Json,
    pub coords: Coordinates,
    pub ticks: i16,
}

/// The model of a `PendingDialRotate`.
pub struct PendingView {
    pub key: Seq<char>,
    pub plugin: Seq<char>,
    pub action_uuid: Seq<char>,
    pub ctx: ActionContextView,
    pub settings: JsonView,
    pub coords: Coordinates,
    pub ticks: i16,
}

impl View for PendingDialRotate {
    type V = PendingView;

    open spec fn view(&self) -> PendingView {
        PendingView {
            key: self.key@,
            plugin: self.plugin@,
            action_uuid: self.action_uuid@,
            ctx: self.ctx@,
            settings: self.settings@,
            coords: self.coords,
            ticks: self.ticks,
        }
    }
}

/// The models of what is pending.
pub open spec fn pending_view(s: Seq<PendingDialRotate>) -> Seq<PendingView> {
    s.map_values(|p: PendingDialRotate| p@)
}

/// The keys of what is pending.
pub open spec fn pending_keys(s: Seq<PendingView>) -> Seq<Seq<char>> {
    s.map_values(|p: PendingView| p.key)
}

/// The sum of two numbers of ticks, held to what an `i16` takes.
pub open spec fn added(a: i16, b: i16) -> i16 {
    if a + b > 32767 {
        32767
    } else if a + b < -32768 {
        i16::MIN
    } else {
        (a + b) as i16
    }
}

/// What is pending for an instance.
pub open spec fn pending_of(i: InstanceView, ticks: i16) -> PendingView {
    PendingView {
        key: shared::context_text(i.context),
        plugin: i.action.plugin,
        action_uuid: i.action.uuid,
        ctx: i.context,
        settings: i.settings,
        coords: dial_coordinates(i.context.position),
        ticks,
    }
}

/// What is pending after a rotation: the ticks of one encoder are added up, and
/// its newest settings are kept. Nothing is pending for an action of the host.
pub open spec fn rotated(s: Seq<PendingView>, i: InstanceView, ticks: i16) -> Seq<PendingView> {
    let keys = pending_keys(s);
    let key = shared::context_text(i.context);
    if text::trimmed(i.action.plugin).len() == 0 {
        s
    } else if keys.contains(key) {
        let k = text::first_index(keys, key);
        s.update(k, pending_of(i, added(s[k].ticks, ticks)))
    } else {
        s.push(pending_of(i, ticks))
    }
}

fn position_of(pending: &Vec<PendingDialRotate>, key: &str) -> (r: Option<usize>)
    ensures
        ({
            let keys = pending_keys(pending_view(pending@));
            match r {
                Some(k) => keys.contains(key@) && k == text::first_index(keys, key@) && k
                    < keys.len() && keys[k as int] == key@,
                None => !keys.contains(key@),
            }
        }),
{
    let ghost keys = pending_keys(pending_view(pending@));
    let mut k: usize = 0;
    while k < pending.len()
        invariant
            k <= pending@.len(),
            keys == pending_keys(pending_view(pending@)),
            forall|j: int| 0 <= j < k ==> #[trigger] keys[j] != key@,
        decreases pending@.len() - k,
    {
        assert(keys[k as int] == pending@[k as int].key@);
        if same_text(&pending[k].key, key) {
            proof {
                text::lemma_first_index_is(keys, key@, k as int);
            }
            return Some(k);
        }
        k = k + 1;
    }
    None
}

/// An encoder is rotated. Whether a batch has been started, which is sent after
/// 16 milliseconds.
pub fn dial_rotate(pending: &mut Vec<PendingDialRotate>, instance: &ActionInstance, ticks: i16) -> (r:
    bool)
    ensures
        pending_view(final(pending)@) == rotated(pending_view(old(pending)@), instance@, ticks),
        r == (text::trimmed(instance@.action.plugin).len() > 0 && !pending_keys(
            pending_view(old(pending)@),
        ).contains(shared::context_text(instance@.context))),
{
    broadcast use shared::lemma_instance_view;

    if trim(&instance.action.plugin).as_str().is_empty() {
        return false;
    }
    let key = instance.context.to_text();
    let coords = Coordinates {
        row: instance.context.position / 3,
        column: instance.context.position % 3,
    };
    let ghost before = pending_view(pending@);
    match position_of(pending, &key) {
        Some(k) => {
            let sum: i32 = pending[k].ticks as i32 + ticks as i32;
            let total: i16 = if sum > 32767 {
                32767
            } else if sum < -32768 {
                i16::MIN
            } else {
                sum as i16
            };
            let p = PendingDialRotate {
                key,
                plugin: instance.action.plugin.clone(),
                action_uuid: instance.action.uuid.clone(),
                ctx: instance.context.copy(),
                settings: instance.settings.copy(),
                coords,
                ticks: total,
            };
            pending.set(k, p);
            assert(pending_view(pending@) =~= before.update(k as int, p@));
            false
        },
        None => {
            let p = PendingDialRotate {
                key,
                plugin: instance.action.plugin.clone(),
                action_uuid: instance.action.uuid.clone(),
                ctx: instance.context.copy(),
                settings: instance.settings.copy(),
                coords,
                ticks,
            };
            pending.push(p);
            assert(pending_view(pending@) =~= before.push(p@));
            true
        },
    }
}

/// The event of what is pending; none where the ticks have cancelled out.
pub open spec fn batch_event(p: PendingView) -> Option<EncoderEventView> {
    if p.ticks == 0 {
        None
    } else {
        Some(
            EncoderEventView {
                event: "dialRotate"@,
                plugin: p.plugin,
                action: p.action_uuid,
                context: p.ctx,
                device: p.ctx.device,
                settings: p.settings,
                coordinates: p.coords,
                detail: EncoderDetail::Rotate { ticks: p.ticks, pressed: false },
            },
        )
    }
}

/// What is sent for the encoder `key` when its batch ends.
pub open spec fn batch_of(s: Seq<PendingView>, key: Seq<char>) -> Option<EncoderEventView> {
    let keys = pending_keys(s);
    if keys.contains(key) {
        batch_event(s[text::first_index(keys, key)])
    } else {
        None
    }
}

/// What is pending after the batch of the encoder `key` has ended.
pub open spec fn without_batch(s: Seq<PendingView>, key: Seq<char>) -> Seq<PendingView> {
    let keys = pending_keys(s);
    if keys.contains(key) {
        s.remove(text::first_index(keys, key))
    } else {
        s
    }
}

/// The model of an event that may be sent.
pub open spec fn opt_event(e: Option<EncoderEvent>) -> Option<EncoderEventView> {
    match e {
        Some(x) => Some(x@),
        None => None,
    }
}

/// The batch of an encoder ends: what is sent.
pub fn take_batch(pending: &mut Vec<PendingDialRotate>, key: &str) -> (r: Option<EncoderEvent>)
    ensures
        opt_event(r) == batch_of(pending_view(old(pending)@), key@),
        pending_view(final(pending)@) == without_batch(pending_view(old(pending)@), key@),
{
    let ghost before = pending_view(pending@);
    match position_of(pending, key) {
        Some(k) => {
            let p = pending.remove(k);
            assert(p@ == before[k as int]);
            assert(pending_view(pending@) =~= before.remove(k as int));
            if p.ticks == 0 {
                return None;
            }
            let device = p.ctx.device.clone();
            Some(
                EncoderEvent {
                    event: owned("dialRotate"),
                    plugin: p.plugin,
                    action: p.action_uuid,
                    context: p.ctx,
                    device,
                    settings: p.settings,
                    coordinates: p.coords,
                    detail: EncoderDetail::Rotate { ticks: p.ticks, pressed: false },
                },
            )
        },
        None => None,
    }
}

/// No encoder has two batches: rotations keep the keys of what is pending
/// distinct.
pub proof fn law_one_batch_per_encoder(s: Seq<PendingView>, i: InstanceView, ticks: i16)
    requires
        pending_keys(s).no_duplicates(),
    ensures
        pending_keys(rotated(s, i, ticks)).no_duplicates(),
        pending_keys(without_batch(s, shared::context_text(i.context))).no_duplicates(),
        !pending_keys(without_batch(s, shared::context_text(i.context))).contains(
            shared::context_text(i.context),
        ),
{
    let keys = pending_keys(s);
    let key = shared::context_text(i.context);
    text::lemma_first_index(keys, key);
    if keys.contains(key) {
        let k = text::first_index(keys, key);
        assert(pending_keys(s.update(k, pending_of(i, added(s[k].ticks, ticks)))) =~= keys);
        let rest = pending_keys(s.remove(k));
        assert(rest =~= keys.remove(k));
        assert forall|a: int, b: int|
            0 <= a < rest.len() && 0 <= b < rest.len() && a != b implies rest[a] != rest[b] by {
            let x = if a < k { a } else { a + 1 };
            let y = if b < k { b } else { b + 1 };
            assert(rest[a] == keys[x] && rest[b] == keys[y]);
        }
        if rest.contains(key) {
            let a = rest.index_of(key);
            let x = if a < k { a } else { a + 1 };
            assert(keys[x] == key);
            assert(keys[k] == key);
        }
    } else {
        let grown = pending_keys(s.push(pending_of(i, ticks)));
        assert(grown =~= keys.push(key));
        assert forall|a: int, b: int|
            0 <= a < grown.len() && 0 <= b < grown.len() && a != b implies grown[a] != grown[b] by {
            if a == keys.len() {
                assert(keys[b] == grown[b]);
            } else if b == keys.len() {
                assert(keys[a] == grown[a]);
            }
        }
    }
}

/// Rotations of one encoder within one batch are sent as their sum, with the
/// settings of the newest; nothing is sent where the sum is zero.
pub proof fn law_rotations_are_summed(
    s: Seq<PendingView>,
    first: InstanceView,
    a: i16,
    second: InstanceView,
    b: i16,
)
    requires
        first.context == second.context,
        text::trimmed(first.action.plugin).len() > 0,
        text::trimmed(second.action.plugin).len() > 0,
        !pending_keys(s).contains(shared::context_text(first.context)),
    ensures
        ({
            let sent = batch_of(
                rotated(rotated(s, first, a), second, b),
                shared::context_text(first.context),
            );
            if added(a, b) == 0 {
                sent is None
            } else {
                sent == Some(
                    encoder_event(
                        "dialRotate"@,
                        second,
                        EncoderDetail::Rotate { ticks: added(a, b), pressed: false },
                    ),
                )
            }
        }),
{
    let key = shared::context_text(first.context);
    let one = rotated(s, first, a);
    let n = s.len() as int;
    assert(pending_keys(one) =~= pending_keys(s).push(key));
    assert(pending_keys(one)[n] == key);
    assert forall|j: int| 0 <= j < n implies pending_keys(one)[j] != key by {
        assert(pending_keys(one)[j] == pending_keys(s)[j]);
    }
    text::lemma_first_index_is(pending_keys(one), key, n);
    let two = rotated(one, second, b);
    assert(pending_keys(two) =~= pending_keys(one));
}

/// An event of an encoder is that of its instance: it goes to the plugin of the
/// action, carries exactly the settings of the instance, and its place leads back to
/// the encoder.
pub proof fn law_encoder_event_tells_of_instance(
    name: Seq<char>,
    i: InstanceView,
    detail: EncoderDetail,
)
    ensures
        ({
            let e = encoder_event(name, i, detail);
            &&& e.event == name
            &&& e.plugin == i.action.plugin
            &&& e.action == i.action.uuid
            &&& e.context == i.context
            &&& e.device == i.context.device
            &&& e.settings == i.settings
            &&& e.detail == detail
            &&& e.coordinates.row * 3 + e.coordinates.column == i.context.position
            &&& e.coordinates.column < 3
        }),
{
}

/// The batch of an encoder that was rotated once is sent with its ticks and the
/// settings of its instance, and nothing is sent for another encoder that has not
/// been rotated. Nothing is sent for an instance without a plugin.
pub proof fn law_single_rotation_is_sent(
    s: Seq<PendingView>,
    i: InstanceView,
    ticks: i16,
    other: Seq<char>,
)
    requires
        !pending_keys(s).contains(shared::context_text(i.context)),
        !pending_keys(s).contains(other),
        other != shared::context_text(i.context),
    ensures
        ({
            let key = shared::context_text(i.context);
            let now = rotated(s, i, ticks);
            &&& text::trimmed(i.action.plugin).len() == 0 ==> now == s && batch_of(now, key)
                is None
            &&& text::trimmed(i.action.plugin).len() > 0 && ticks == 0 ==> batch_of(now, key)
                is None
            &&& text::trimmed(i.action.plugin).len() > 0 && ticks != 0 ==> {
                &&& batch_of(now, key) matches Some(e) && e.event == "dialRotate"@ && e.settings
                    == i.settings && e.plugin == i.action.plugin && e.action == i.action.uuid
                    && e.context == i.context && e.device == i.context.device && e.detail
                    == (EncoderDetail::Rotate { ticks, pressed: false })
            }
            &&& batch_of(now, other) is None
        }),
{
    let key = shared::context_text(i.context);
    let now = rotated(s, i, ticks);
    if text::trimmed(i.action.plugin).len() > 0 {
        let n = s.len() as int;
        let keys = pending_keys(now);
        assert(keys =~= pending_keys(s).push(key));
        assert(keys[n] == key);
        assert forall|j: int| 0 <= j < n implies #[trigger] keys[j] != key by {
            assert(keys[j] == pending_keys(s)[j]);
        }
        text::lemma_first_index_is(keys, key, n);
        if keys.contains(other) {
            let j = choose|j: int| 0 <= j < keys.len() && keys[j] == other;
            assert(pending_keys(s)[j] == other);
        }
    }
}

/// Ending a batch takes that batch alone: what is pending for other encoders stays,
/// in its order.
pub proof fn law_ended_batch_is_gone(s: Seq<PendingView>, key: Seq<char>, k: int)
    requires
        pending_keys(s).no_duplicates(),
        0 <= k < s.len(),
        s[k].key == key,
    ensures
        without_batch(s, key) == s.remove(k),
        !pending_keys(without_batch(s, key)).contains(key),
{
    let keys = pending_keys(s);
    assert(keys[k] == key);
    assert forall|j: int| 0 <= j < k implies #[trigger] keys[j] != key by {}
    text::lemma_first_index_is(keys, key, k);
    let rest = pending_keys(s.remove(k));
    if rest.contains(key) {
        let j = choose|j: int| 0 <= j < rest.len() && rest[j] == key;
        let z = if j < k {
            j
        } else {
            j + 1
        };
        assert(keys[z] == key);
    }
}

/// Ticks add up as numbers do, within what an encoder can count.
pub proof fn law_ticks_add_up(a: i16, b: i16)
    ensures
        -32768 <= a + b <= 32767 ==> added(a, b) == a + b,
        a + b > 32767 ==> added(a, b) == 32767,
        a + b < -32768 ==> added(a, b) == -32768,
{
}

} // verus!
