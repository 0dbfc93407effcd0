//! What plugins and property inspectors ask for.
use vstd::prelude::*;
use crate::json;
use crate::json::{Json, JsonView};
use crate::path;
use crate::path::is_safe_relative_path;
use crate::shared;
use crate::shared::{
    convert_icon, join, ActionContext, ActionInstance, ActionState, Context, InstanceView,
    StateView,
};
use crate::text;
use crate::text::{concat2, concat3, decimal_text, owned, same_text, starts_with, trim};
use crate::ui::UiEvent;

verus! {

// ---------------------------------------------------------------------------
// Titles, images and states
// ---------------------------------------------------------------------------

/// A new title, for one state or for all.
pub struct SetTitlePayload {
    pub title: Option<String>,
    pub state: Option<u16>,
}

/// A new image, for one state or for all.
pub struct SetImagePayload {
    pub image: Option<String>,
    pub state: Option<u16>,
}

/// A new current state.
pub struct SetStatePayload {
    pub state: u16,
}

/// What follows a request.
pub struct Applied {
    /// Whether the instance has changed: the user interface is told.
    pub changed: bool,
    /// Whether the instance is drawn again.
    pub repaint: bool,
}

/// The state that a request is for exists.
pub open spec fn has_state(i: InstanceView, state: Option<u16>) -> bool {
    match state {
        Some(s) => (s as int) < i.states.len(),
        None => true,
    }
}

/// The state that an instance shows is one that the request is for.
pub open spec fn affects_visible(i: InstanceView, state: Option<u16>) -> bool {
    match state {
        Some(s) => s == i.current_state,
        None => true,
    }
}

/// A given text, or else the text of a state of the action.
pub open spec fn title_for(i: InstanceView, title: Option<Seq<char>>, k: int) -> Seq<char> {
    match title {
        Some(t) => t,
        None => if 0 <= k < i.action.states.len() {
            i.action.states[k].text
        } else {
            Seq::empty()
        },
    }
}

/// The instance with a new title.
pub open spec fn retitled(
    i: InstanceView,
    title: Option<Seq<char>>,
    state: Option<u16>,
) -> InstanceView {
    InstanceView {
        states: Seq::new(
            i.states.len(),
            |k: int|
                if state is None || state->0 == k {
                    StateView { text: title_for(i, title, k), ..i.states[k] }
                } else {
                    i.states[k]
                },
        ),
        ..i
    }
}

fn title_text(instance: &ActionInstance, title: &Option<String>, k: usize) -> (r: String)
    ensures
        r@ == title_for(instance@, text::opt_text(*title), k as int),
{
    broadcast use shared::lemma_instance_view;

    match title {
        Some(t) => t.clone(),
        None => if k < instance.action.states.len() {
            assert(instance@.action.states[k as int] == instance.action.states@[k as int]@);
            instance.action.states[k].text.clone()
        } else {
            String::new()
        },
    }
}

/// Sets the title of a state, or of all of them; without a title, that of the
/// action. An instance on the page that its device shows is drawn again where
/// the state it shows is affected.
pub fn set_title(
    instance: &mut ActionInstance,
    payload: &SetTitlePayload,
    active_profile: bool,
    active_page: &str,
) -> (r: Applied)
    requires
        payload.state is None ==> old(instance)@.states.len() <= old(
            instance,
        )@.action.states.len(),
    ensures
        r.changed == has_state(old(instance)@, payload.state),
        final(instance)@ == if r.changed {
            retitled(old(instance)@, text::opt_text(payload.title), payload.state)
        } else {
            old(instance)@
        },
        r.repaint == (r.changed && active_profile && active_page@ == old(
            instance,
        )@.context.page && affects_visible(old(instance)@, payload.state)),
{
    broadcast use {shared::lemma_instance_view, shared::lemma_states_update};

    let ghost before = instance@;
    let shown = active_profile && same_text(active_page, &instance.context.page);
    match payload.state {
        Some(s) => {
            let at: usize = s as usize;
            if at >= instance.states.len() {
                return Applied { changed: false, repaint: false };
            }
            let mut st = instance.states[at].copy();
            st.text = title_text(instance, &payload.title, at);
            assert(instance@.states[at as int] == instance.states@[at as int]@);
            instance.states.set(at, st);
            assert(instance@.states =~= retitled(
                before,
                text::opt_text(payload.title),
                payload.state,
            ).states);
            Applied { changed: true, repaint: shown && s == instance.current_state }
        },
        None => {
            let ghost goal = retitled(before, text::opt_text(payload.title), payload.state).states;
            let mut states: Vec<ActionState> = Vec::new();
            let mut k: usize = 0;
            while k < instance.states.len()
                invariant
                    k <= instance.states@.len(),
                    before == instance@,
                    states@.len() == k,
                    forall|j: int| 0 <= j < k ==> (#[trigger] states@[j])@ == goal[j],
                    goal == retitled(before, text::opt_text(payload.title), None).states,
                decreases instance.states@.len() - k,
            {
                assert(before.states[k as int] == instance.states@[k as int]@);
                let mut st = instance.states[k].copy();
                st.text = title_text(instance, &payload.title, k);
                states.push(st);
                k = k + 1;
            }
            instance.states = states;
            assert(instance@.states =~= goal);
            Applied { changed: true, repaint: shown }
        },
    }
}

/// The image that a plugin asks for: nothing where it is blank or leaves the
/// plugin's directory; data as it is; else the file in the plugin's directory.
pub open spec fn requested(
    image: Option<Seq<char>>,
    dir: Seq<char>,
    existing: Seq<Seq<char>>,
) -> Option<Seq<char>> {
    match image {
        None => None,
        Some(s) => {
            let t = text::trimmed(s);
            if t.len() == 0 {
                None
            } else if "data:"@.is_prefix_of(t) {
                Some(s)
            } else if !path::stays_below(t) {
                None
            } else {
                Some(shared::icon_file(shared::joined(dir, t), existing))
            }
        },
    }
}

/// The directory of a plugin.
pub open spec fn plugin_dir(config_dir: Seq<char>, plugin: Seq<char>) -> Seq<char> {
    shared::joined(shared::joined(config_dir, "plugins"@), plugin)
}

/// The file that a plugin means by an image, before its extension is known: the
/// variants of it are to be looked for.
pub fn requested_file(image: &str, config_dir: &str, plugin: &str) -> (r: Option<String>)
    ensures
        text::opt_text(r) == {
            let t = text::trimmed(image@);
            if t.len() == 0 || "data:"@.is_prefix_of(t) || !path::stays_below(t) {
                None
            } else {
                Some(shared::joined(plugin_dir(config_dir@, plugin@), t))
            }
        },
{
    let t = trim(image);
    if t.as_str().is_empty() || starts_with(&t, "data:") || !is_safe_relative_path(&t) {
        None
    } else {
        let plugins = join(config_dir, "plugins");
        let dir = join(&plugins, plugin);
        Some(join(&dir, &t))
    }
}

/// The image that a plugin asks for, given the files that exist.
pub fn requested_image(
    image: &Option<String>,
    config_dir: &str,
    plugin: &str,
    existing: &Vec<String>,
) -> (r: Option<String>)
    ensures
        text::opt_text(r) == requested(
            text::opt_text(*image),
            plugin_dir(config_dir@, plugin@),
            text::texts(existing@),
        ),
{
    match image {
        None => None,
        Some(s) => match requested_file(s, config_dir, plugin) {
            Some(file) => Some(convert_icon(&file, existing)),
            None => {
                let t = trim(s);
                if starts_with(&t, "data:") && !t.as_str().is_empty() {
                    Some(s.clone())
                } else {
                    None
                }
            },
        },
    }
}

/// A given image, or else that of a state of the action, or else the icon.
pub open spec fn image_for(i: InstanceView, image: Option<Seq<char>>, k: int) -> Seq<char> {
    match image {
        Some(s) => s,
        None => if 0 <= k < i.action.states.len() {
            i.action.states[k].image
        } else {
            i.action.icon
        },
    }
}

/// The instance with a new image.
pub open spec fn reimaged(
    i: InstanceView,
    image: Option<Seq<char>>,
    state: Option<u16>,
) -> InstanceView {
    InstanceView {
        states: Seq::new(
            i.states.len(),
            |k: int|
                if state is None || state->0 == k {
                    StateView { image: image_for(i, image, k), ..i.states[k] }
                } else {
                    i.states[k]
                },
        ),
        ..i
    }
}

fn image_text(instance: &ActionInstance, image: &Option<String>, k: usize) -> (r: String)
    ensures
        r@ == image_for(instance@, text::opt_text(*image), k as int),
{
    broadcast use shared::lemma_instance_view;

    match image {
        Some(s) => s.clone(),
        None => if k < instance.action.states.len() {
            assert(instance@.action.states[k as int] == instance.action.states@[k as int]@);
            instance.action.states[k].image.clone()
        } else {
            instance.action.icon.clone()
        },
    }
}

/// Sets the image of a state, or of all of them; without an image that the
/// plugin may use, that of the action.
pub fn set_image(
    instance: &mut ActionInstance,
    payload: &SetImagePayload,
    active: bool,
    config_dir: &str,
    existing: &Vec<String>,
) -> (r: Applied)
    requires
        payload.state is None ==> old(instance)@.states.len() <= old(
            instance,
        )@.action.states.len(),
    ensures
        r.changed == has_state(old(instance)@, payload.state),
        final(instance)@ == if r.changed {
            reimaged(
                old(instance)@,
                requested(
                    text::opt_text(payload.image),
                    plugin_dir(config_dir@, old(instance)@.action.plugin),
                    text::texts(existing@),
                ),
                payload.state,
            )
        } else {
            old(instance)@
        },
        r.repaint == (r.changed && active && affects_visible(old(instance)@, payload.state)),
{
    broadcast use {shared::lemma_instance_view, shared::lemma_states_update};

    let ghost before = instance@;
    let image = requested_image(&payload.image, config_dir, &instance.action.plugin, existing);
    let ghost wanted = text::opt_text(image);
    match payload.state {
        Some(s) => {
            let at: usize = s as usize;
            if at >= instance.states.len() {
                return Applied { changed: false, repaint: false };
            }
            let mut st = instance.states[at].copy();
            st.image = image_text(instance, &image, at);
            assert(instance@.states[at as int] == instance.states@[at as int]@);
            instance.states.set(at, st);
            assert(instance@.states =~= reimaged(before, wanted, payload.state).states);
            Applied { changed: true, repaint: active && s == instance.current_state }
        },
        None => {
            let ghost goal = reimaged(before, wanted, payload.state).states;
            let mut states: Vec<ActionState> = Vec::new();
            let mut k: usize = 0;
            while k < instance.states.len()
                invariant
                    k <= instance.states@.len(),
                    before == instance@,
                    states@.len() == k,
                    forall|j: int| 0 <= j < k ==> (#[trigger] states@[j])@ == goal[j],
                    wanted == text::opt_text(image),
                    goal == reimaged(before, wanted, None).states,
                decreases instance.states@.len() - k,
            {
                assert(before.states[k as int] == instance.states@[k as int]@);
                let mut st = instance.states[k].copy();
                st.image = image_text(instance, &image, k);
                states.push(st);
                k = k + 1;
            }
            instance.states = states;
            assert(instance@.states =~= goal);
            Applied { changed: true, repaint: active }
        },
    }
}

/// Sets the current state of an instance, where it has that state.
pub fn set_state(instance: &mut ActionInstance, payload: &SetStatePayload, active: bool) -> (r:
    Applied)
    requires
        old(instance)@.states.len() <= 65535,
    ensures
        r.changed == (payload.state < old(instance)@.states.len()),
        final(instance)@ == if r.changed {
            InstanceView { current_state: payload.state, ..old(instance)@ }
        } else {
            old(instance)@
        },
        r.repaint == (r.changed && active),
{
    broadcast use shared::lemma_instance_view;

    if payload.state >= instance.states.len() as u16 {
        return Applied { changed: false, repaint: false };
    }
    instance.current_state = payload.state;
    Applied { changed: true, repaint: active }
}

/// What a plugin asks of one state leaves the others as they are.
pub proof fn law_other_states_are_kept(
    i: InstanceView,
    text: Option<Seq<char>>,
    state: u16,
    k: int,
)
    requires
        0 <= k < i.states.len(),
        k != state,
    ensures
        retitled(i, text, Some(state)).states[k] == i.states[k],
        reimaged(i, text, Some(state)).states[k] == i.states[k],
{
}

/// No image that a plugin asks for by a path lies outside its directory.
pub proof fn law_images_stay_in_plugin(
    image: Seq<char>,
    dir: Seq<char>,
    existing: Seq<Seq<char>>,
)
    requires
        !"data:"@.is_prefix_of(text::trimmed(image)),
        requested(Some(image), dir, existing) is Some,
    ensures
        requested(Some(image), dir, existing) == Some(
            shared::icon_file(shared::joined(dir, text::trimmed(image)), existing),
        ),
        path::stays_below(text::trimmed(image)),
{
}

// ---------------------------------------------------------------------------
// Settings
// ---------------------------------------------------------------------------

/// The action that sets the brightness of a device.
pub open spec fn is_brightness_uuid(uuid: Seq<char>) -> bool {
    uuid == "io.github.sulrwin.riverdeck.starterpack.devicebrightness"@ || uuid
        == "com.amansprojects.starterpack.devicebrightness"@
}

/// Whether an action sets the brightness of a device.
pub fn is_starterpack_device_brightness_uuid(uuid: &str) -> (r: bool)
    ensures
        r == is_brightness_uuid(uuid@),
{
    same_text(uuid, "io.github.sulrwin.riverdeck.starterpack.devicebrightness") || same_text(
        uuid,
        "com.amansprojects.starterpack.devicebrightness",
    )
}

/// What a press does to the brightness.
#[derive(Clone, Copy, PartialEq, Eq, Structural, Debug)]
pub enum BrightnessAction {
    /// `set`
    Exact,
    Increase,
    Decrease,
}

/// What a setting says that a press does.
pub open spec fn brightness_action(s: Seq<char>) -> Option<BrightnessAction> {
    let t = text::trimmed(s);
    if t == "set"@ {
        Some(BrightnessAction::Exact)
    } else if t == "increase"@ {
        Some(BrightnessAction::Increase)
    } else if t == "decrease"@ {
        Some(BrightnessAction::Decrease)
    } else {
        None
    }
}

/// What a setting says that a press does.
pub fn normalize_device_brightness_action(s: &str) -> (r: Option<BrightnessAction>)
    ensures
        r == brightness_action(s@),
{
    let t = trim(s);
    if same_text(&t, "set") {
        Some(BrightnessAction::Exact)
    } else if same_text(&t, "increase") {
        Some(BrightnessAction::Increase)
    } else if same_text(&t, "decrease") {
        Some(BrightnessAction::Decrease)
    } else {
        None
    }
}

/// What the field `key` of the settings says that a press does.
pub open spec fn action_field(settings: JsonView, key: Seq<char>) -> Option<BrightnessAction> {
    match json::text_field(settings, key) {
        Some(s) => brightness_action(s),
        None => None,
    }
}

fn read_action(settings: &Json, key: &str) -> (r: Option<BrightnessAction>)
    ensures
        r == action_field(settings@, key@),
{
    match json::get_str(settings, key) {
        Some(s) => normalize_device_brightness_action(&s),
        None => None,
    }
}

/// The lowest byte of the number in the field `key` of the settings.
pub open spec fn byte_field(settings: JsonView, key: Seq<char>) -> Option<u8> {
    match json::field_of(settings, key) {
        Some(v) => match json::json_u64(v) {
            Some(n) => Some((n % 256) as u8),
            None => None,
        },
        None => None,
    }
}

fn read_byte(settings: &Json, key: &str) -> (r: Option<u8>)
    ensures
        r == byte_field(settings@, key@),
{
    match settings.get(key) {
        Some(v) => match v.as_u64() {
            Some(n) => Some((n % 256) as u8),
            None => None,
        },
        None => None,
    }
}

/// The percentage that a key for the brightness shows: the value that it sets,
/// or the step that it takes.
pub open spec fn brightness_percent(settings: JsonView) -> u8 {
    let press = match action_field(settings, "pressAction"@) {
        Some(a) => a,
        None => match action_field(settings, "action"@) {
            Some(a) => a,
            None => BrightnessAction::Exact,
        },
    };
    let (key, otherwise) = if press == BrightnessAction::Exact {
        ("setValue"@, 50u8)
    } else {
        ("step"@, 1u8)
    };
    let n = match byte_field(settings, key) {
        Some(n) => n,
        None => match byte_field(settings, "value"@) {
            Some(n) => n,
            None => otherwise,
        },
    };
    if n > 100 {
        100
    } else {
        n
    }
}

/// The title of a key for the brightness.
pub open spec fn brightness_title(settings: JsonView) -> Seq<char> {
    text::decimal(brightness_percent(settings) as nat) + "%"@
}

/// The title of a key for the brightness.
pub fn device_brightness_title_for_settings(settings: &Json) -> (r: String)
    ensures
        r@ == brightness_title(settings@),
{
    let press = match read_action(settings, "pressAction") {
        Some(a) => a,
        None => match read_action(settings, "action") {
            Some(a) => a,
            None => BrightnessAction::Exact,
        },
    };
    let first = if press == BrightnessAction::Exact {
        read_byte(settings, "setValue")
    } else {
        read_byte(settings, "step")
    };
    let n: u8 = match first {
        Some(n) => n,
        None => match read_byte(settings, "value") {
            Some(n) => n,
            None => if press == BrightnessAction::Exact {
                50
            } else {
                1
            },
        },
    };
    let shown: u8 = if n > 100 {
        100
    } else {
        n
    };
    let digits = decimal_text(shown as u64);
    concat2(&digits, "%")
}

/// The instance with new settings. A key for the brightness shows it as its
/// title in every state.
pub open spec fn with_settings(i: InstanceView, settings: JsonView) -> InstanceView {
    if is_brightness_uuid(i.action.uuid) {
        InstanceView {
            settings,
            states: Seq::new(
                i.states.len(),
                |k: int|
                    StateView { text: brightness_title(settings), show: true, ..i.states[k] },
            ),
            ..i
        }
    } else {
        InstanceView { settings, ..i }
    }
}

/// Sets the settings of an instance. Whether it is drawn again.
pub fn set_settings(instance: &mut ActionInstance, settings: Json) -> (r: bool)
    ensures
        final(instance)@ == with_settings(old(instance)@, settings@),
        r == is_brightness_uuid(old(instance)@.action.uuid),
{
    broadcast use {shared::lemma_instance_view, shared::lemma_states_update};

    let ghost before = instance@;
    let title = device_brightness_title_for_settings(&settings);
    instance.settings = settings;
    if !is_starterpack_device_brightness_uuid(&instance.action.uuid) {
        return false;
    }
    let ghost goal = with_settings(before, settings@).states;
    let mut states: Vec<ActionState> = Vec::new();
    let mut k: usize = 0;
    while k < instance.states.len()
        invariant
            k <= instance.states@.len(),
            before.states == instance@.states,
            states@.len() == k,
            title@ == brightness_title(settings@),
            forall|j: int| 0 <= j < k ==> (#[trigger] states@[j])@ == goal[j],
            is_brightness_uuid(before.action.uuid),
            goal == with_settings(before, settings@).states,
        decreases instance.states@.len() - k,
    {
        assert(before.states[k as int] == instance.states@[k as int]@);
        let mut st = instance.states[k].copy();
        st.text = title.clone();
        st.show = true;
        states.push(st);
        k = k + 1;
    }
    instance.states = states;
    assert(instance@.states =~= goal);
    true
}

/// The plugin whose global settings are meant: that of the instance for a
/// property inspector, given the plugin of the instance that its context names,
/// else the sender.
pub fn settings_owner(
    from_property_inspector: bool,
    context: &str,
    instance_plugin: &Option<String>,
) -> (r: Option<String>)
    ensures
        text::opt_text(r) == if from_property_inspector {
            text::opt_text(*instance_plugin)
        } else {
            Some(context@)
        },
{
    if from_property_inspector {
        text::clone_opt(instance_plugin)
    } else {
        Some(owned(context))
    }
}

/// The file of a plugin's global settings.
pub fn global_settings_file(config_dir: &str, uuid: &str) -> (r: String)
    ensures
        r@ == shared::joined(shared::joined(config_dir@, "settings"@), uuid@ + ".json"@),
{
    let dir = join(config_dir, "settings");
    let name = concat2(uuid, ".json");
    join(&dir, &name)
}

// ---------------------------------------------------------------------------
// Other requests
// ---------------------------------------------------------------------------

/// A page to open in the browser.
pub struct OpenUrlEvent {
    pub url: String,
}

/// A line for the log.
pub struct LogMessageEvent {
    pub message: String,
}

/// A profile to show on a device.
pub struct SwitchProfileEvent {
    pub device: String,
    pub profile: String,
}

/// A change of the brightness.
pub struct DeviceBrightnessEvent {
    pub action: String,
    pub value: u8,
}

/// The line of the log for a message, with the name of the plugin, where it is
/// known.
pub fn log_message(plugin_name: &Option<String>, event: &LogMessageEvent) -> (r: String)
    ensures
        r@ == text::trimmed(
            match *plugin_name {
                Some(name) => "["@ + name@ + "] "@ + event.message@,
                None => event.message@,
            },
        ),
{
    match plugin_name {
        Some(name) => {
            let head = concat3("[", name, "] ");
            let line = concat2(&head, &event.message);
            assert(line@ =~= "["@ + name@ + "] "@ + event.message@);
            trim(&line)
        },
        None => trim(&event.message),
    }
}

/// Shows an alert on a key.
pub fn show_alert(context: &ActionContext) -> (r: UiEvent)
    ensures
        r matches UiEvent::ShowAlert { context: c } && c@ == shared::slot_of(context@),
{
    UiEvent::ShowAlert { context: Context::of_action(context) }
}

/// Shows on a key that all went well.
pub fn show_ok(context: &ActionContext) -> (r: UiEvent)
    ensures
        r matches UiEvent::ShowOk { context: c } && c@ == shared::slot_of(context@),
{
    UiEvent::ShowOk { context: Context::of_action(context) }
}

/// Switches the profile of a device.
pub fn switch_profile(event: SwitchProfileEvent) -> (r: UiEvent)
    ensures
        r == (UiEvent::SwitchProfile { device: event.device, profile: event.profile }),
{
    UiEvent::SwitchProfile { device: event.device, profile: event.profile }
}

/// Changes the brightness.
pub fn device_brightness(event: DeviceBrightnessEvent) -> (r: UiEvent)
    ensures
        r == (UiEvent::DeviceBrightness { action: event.action, value: event.value }),
{
    UiEvent::DeviceBrightness { action: event.action, value: event.value }
}

/// A title that a plugin gives for a state is the text of that state, one that it
/// gives for none is the text of every state, and taking it back restores the text
/// that the action has for the state. Nothing else of the instance changes.
pub proof fn law_title_is_shown(
    i: InstanceView,
    title: Seq<char>,
    state: Option<u16>,
    k: int,
)
    requires
        0 <= k < i.states.len(),
    ensures
        ({
            let r = retitled(i, Some(title), state);
            let b = retitled(r, None, state);
            let meant = state is None || k == state->0;
            &&& r.states.len() == i.states.len()
            &&& r.action == i.action && r.settings == i.settings && r.context == i.context
            &&& r.current_state == i.current_state && r.children == i.children
            &&& meant ==> r.states[k] == (StateView { text: title, ..i.states[k] })
            &&& meant && k < i.action.states.len() ==> b.states[k].text == i.action.states[k].text
            &&& meant && k >= i.action.states.len() ==> b.states[k].text.len() == 0
            &&& !meant ==> r.states[k] == i.states[k]
        }),
{
}

/// An image that a plugin gives for a state is the image of that state, one that it
/// gives for none is the image of every state, and taking it back restores the image
/// that the action has for the state, or its icon. Nothing else changes.
pub proof fn law_image_is_shown(
    i: InstanceView,
    image: Seq<char>,
    state: Option<u16>,
    k: int,
)
    requires
        0 <= k < i.states.len(),
    ensures
        ({
            let r = reimaged(i, Some(image), state);
            let b = reimaged(r, None, state);
            let meant = state is None || k == state->0;
            &&& r.states.len() == i.states.len()
            &&& r.action == i.action && r.settings == i.settings && r.context == i.context
            &&& r.current_state == i.current_state && r.children == i.children
            &&& meant ==> r.states[k] == (StateView { image, ..i.states[k] })
            &&& meant && k < i.action.states.len() ==> b.states[k].image
                == i.action.states[k].image
            &&& meant && k >= i.action.states.len() ==> b.states[k].image == i.action.icon
            &&& !meant ==> r.states[k] == i.states[k]
        }),
{
}

/// An image given as data is used as it is, and a blank one, or one outside the
/// directory of the plugin, is none.
pub proof fn law_requested_image(
    image: Seq<char>,
    dir: Seq<char>,
    existing: Seq<Seq<char>>,
)
    ensures
        text::trimmed(image).len() == 0 ==> requested(Some(image), dir, existing) is None,
        text::trimmed(image).len() > 0 && "data:"@.is_prefix_of(text::trimmed(image))
            ==> requested(Some(image), dir, existing) == Some(image),
        !"data:"@.is_prefix_of(text::trimmed(image)) && !path::stays_below(text::trimmed(image))
            ==> requested(Some(image), dir, existing) is None,
        requested(None, dir, existing) is None,
{
}

/// A request has an effect that is seen exactly where it is for the state that is
/// shown, or for all.
pub proof fn law_visible_requests(i: InstanceView, state: u16)
    ensures
        affects_visible(i, None),
        affects_visible(i, Some(state)) <==> state == i.current_state,
        has_state(i, None),
        has_state(i, Some(state)) <==> (state as int) < i.states.len(),
{
}

/// New settings are the settings of the instance, exactly as they were given. They
/// change nothing that is shown, but for a key for the brightness, whose every state
/// is then titled by a percentage.
pub proof fn law_settings_are_kept(i: InstanceView, settings: JsonView, k: int)
    requires
        0 <= k < i.states.len(),
    ensures
        ({
            let r = with_settings(i, settings);
            &&& r.settings == settings
            &&& r.action == i.action && r.context == i.context && r.children == i.children
            &&& r.current_state == i.current_state && r.states.len() == i.states.len()
            &&& !is_brightness_uuid(i.action.uuid) ==> r.states == i.states
            &&& is_brightness_uuid(i.action.uuid) ==> r.states[k].show && r.states[k].text
                == text::decimal(brightness_percent(settings) as nat) + "%"@ && r.states[k].image
                == i.states[k].image && r.states[k].colour == i.states[k].colour
        }),
{
}

/// The percentage that a key for the brightness shows is at most 100. It is the value
/// that the key sets where it sets one, and the step that it takes where it takes
/// one.
pub proof fn law_brightness_is_shown(settings: JsonView, n: u8)
    requires
        n <= 100,
    ensures
        brightness_percent(settings) <= 100,
        json::text_field(settings, "pressAction"@) == Some("set"@) && json::field_of(
            settings,
            "setValue"@,
        ) == Some(JsonView::Number(json::NumberView::Unsigned(n as u64))) ==> brightness_percent(
            settings,
        ) == n,
        (json::text_field(settings, "pressAction"@) == Some("increase"@) || json::text_field(
            settings,
            "pressAction"@,
        ) == Some("decrease"@)) && json::field_of(settings, "step"@) == Some(
            JsonView::Number(json::NumberView::Unsigned(n as u64)),
        ) ==> brightness_percent(settings) == n,
        settings == JsonView::Object(Seq::empty()) ==> brightness_percent(settings) == 50,
{
    reveal_strlit("set");
    reveal_strlit("increase");
    reveal_strlit("decrease");
    text::lemma_trimmed_behind("set"@, Seq::empty());
    assert("set"@ + Seq::<char>::empty() =~= "set"@);
    text::lemma_trimmed_behind("increase"@, Seq::empty());
    assert("increase"@ + Seq::<char>::empty() =~= "increase"@);
    text::lemma_trimmed_behind("decrease"@, Seq::empty());
    assert("decrease"@ + Seq::<char>::empty() =~= "decrease"@);
    assert((n as u64) % 256 == n);
}

/// The directory of a plugin lies among those of all plugins, under its name.
pub proof fn law_directory_of_a_plugin(config_dir: Seq<char>, plugin: Seq<char>)
    requires
        config_dir.len() > 0,
        config_dir.last() != '/',
        path::is_plain(plugin),
    ensures
        plugin_dir(config_dir, plugin) == config_dir + "/plugins/"@ + plugin,
{
    reveal_strlit("plugins");
    reveal_strlit("/plugins/");
    text::lemma_split_on_none("plugins"@, '/');
    assert(path::is_plain("plugins"@));
    path::law_joined_path_is_relative(config_dir, "plugins"@);
    let dir = config_dir + seq!['/'] + "plugins"@;
    assert(dir.last() == 's');
    path::law_joined_path_is_relative(dir, plugin);
    assert(dir + seq!['/'] + plugin =~= config_dir + "/plugins/"@ + plugin);
}

} // verus!
