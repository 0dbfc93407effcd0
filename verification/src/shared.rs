//! The data that the rest of the library works on: devices, actions, action
//! instances, pages and profiles.
use vstd::prelude::*;
use crate::json::{Json, JsonView};
use crate::text;
use crate::text::{
    clone_opt, clone_texts, concat2, concat3, decimal_text, ends_with, owned, parse_unsigned,
    replace_text, same_text, split, strip_prefix, to_lowercase,
};

verus! {

pub const BUILTIN_PLUGIN_ID: &'static str = "riverdeck";

pub const MULTI_ACTION_UUID: &'static str = "riverdeck.multiaction";

pub const TOGGLE_ACTION_UUID: &'static str = "riverdeck.toggleaction";

pub const STARTERPACK_PLUGIN_ID: &'static str = "io.github.sulrwin.riverdeck.starterpack.sdPlugin";

pub const LEGACY_STARTERPACK_PLUGIN_ID: &'static str = "com.amansprojects.starterpack.sdPlugin";

pub const STARTERPACK_UUID_PREFIX: &'static str = "io.github.sulrwin.riverdeck.starterpack.";

pub const LEGACY_STARTERPACK_UUID_PREFIX: &'static str = "com.amansprojects.starterpack.";

// ---------------------------------------------------------------------------
// Action identifiers
// ---------------------------------------------------------------------------

/// `uuid` names a multi action.
pub open spec fn is_multi(uuid: Seq<char>) -> bool {
    uuid == MULTI_ACTION_UUID@ || uuid == "opendeck.multiaction"@
}

/// `uuid` names a toggle action.
pub open spec fn is_toggle(uuid: Seq<char>) -> bool {
    uuid == TOGGLE_ACTION_UUID@ || uuid == "opendeck.toggleaction"@
}

/// `uuid` names an action that holds child actions.
pub open spec fn holds_children(uuid: Seq<char>) -> bool {
    is_multi(uuid) || is_toggle(uuid)
}

/// `uuid` names a multi action.
pub fn is_multi_action_uuid(uuid: &str) -> (r: bool)
    ensures
        r == is_multi(uuid@),
{
    same_text(uuid, MULTI_ACTION_UUID) || same_text(uuid, "opendeck.multiaction")
}

/// `uuid` names a toggle action.
pub fn is_toggle_action_uuid(uuid: &str) -> (r: bool)
    ensures
        r == is_toggle(uuid@),
{
    same_text(uuid, TOGGLE_ACTION_UUID) || same_text(uuid, "opendeck.toggleaction")
}

/// The plugin that a built-in plugin id stands for.
pub open spec fn builtin_plugin(plugin: Seq<char>) -> Seq<char> {
    if plugin == "opendeck"@ {
        BUILTIN_PLUGIN_ID@
    } else {
        plugin
    }
}

/// The action that a built-in action uuid stands for.
pub open spec fn builtin_uuid(uuid: Seq<char>) -> Seq<char> {
    if uuid == "opendeck.multiaction"@ {
        MULTI_ACTION_UUID@
    } else if uuid == "opendeck.toggleaction"@ {
        TOGGLE_ACTION_UUID@
    } else {
        uuid
    }
}

/// Gives the legacy names of built-in actions their present ones.
pub fn normalize_builtin_action(plugin: &mut String, uuid: &mut String)
    ensures
        final(plugin)@ == builtin_plugin(old(plugin)@),
        final(uuid)@ == builtin_uuid(old(uuid)@),
{
    if same_text(plugin.as_str(), "opendeck") {
        *plugin = owned(BUILTIN_PLUGIN_ID);
    }
    if same_text(uuid.as_str(), "opendeck.multiaction") {
        *uuid = owned(MULTI_ACTION_UUID);
    } else if same_text(uuid.as_str(), "opendeck.toggleaction") {
        *uuid = owned(TOGGLE_ACTION_UUID);
    }
}

/// The plugin that a starter pack plugin id stands for.
pub open spec fn starterpack_plugin(plugin: Seq<char>) -> Seq<char> {
    if plugin == LEGACY_STARTERPACK_PLUGIN_ID@ {
        STARTERPACK_PLUGIN_ID@
    } else {
        plugin
    }
}

/// The action that a starter pack action uuid stands for.
pub open spec fn starterpack_uuid(uuid: Seq<char>) -> Seq<char> {
    if LEGACY_STARTERPACK_UUID_PREFIX@.is_prefix_of(uuid) {
        STARTERPACK_UUID_PREFIX@ + uuid.skip(LEGACY_STARTERPACK_UUID_PREFIX@.len() as int)
    } else {
        uuid
    }
}

/// Gives the legacy names of starter pack actions their present ones.
pub fn normalize_starterpack_action(plugin: &mut String, uuid: &mut String)
    ensures
        final(plugin)@ == starterpack_plugin(old(plugin)@),
        final(uuid)@ == starterpack_uuid(old(uuid)@),
{
    if same_text(plugin.as_str(), LEGACY_STARTERPACK_PLUGIN_ID) {
        *plugin = owned(STARTERPACK_PLUGIN_ID);
    }
    match strip_prefix(uuid.as_str(), LEGACY_STARTERPACK_UUID_PREFIX) {
        Some(rest) => {
            *uuid = concat2(STARTERPACK_UUID_PREFIX, &rest);
        },
        None => {},
    }
}

/// `value` with `to` in place of `from` at its beginning, where it begins so.
pub open spec fn with_beginning(value: Seq<char>, from: Seq<char>, to: Seq<char>) -> Seq<char> {
    if from.is_prefix_of(value) {
        to + value.skip(from.len() as int)
    } else {
        value
    }
}

fn replace_beginning(value: &str, from: &str, to: &str) -> (r: String)
    ensures
        r@ == with_beginning(value@, from@, to@),
{
    match strip_prefix(value, from) {
        Some(rest) => concat2(to, &rest),
        None => owned(value),
    }
}

/// `value` with the folder of the legacy starter pack replaced by the present
/// one, for either path separator. The folder of the plugins stands anywhere in
/// an absolute path, and may be what a relative path begins with.
pub open spec fn starterpack_path(value: Seq<char>) -> Seq<char> {
    let from = "plugins/"@ + LEGACY_STARTERPACK_PLUGIN_ID@ + "/"@;
    let to = "plugins/"@ + STARTERPACK_PLUGIN_ID@ + "/"@;
    let unix = with_beginning(text::replace_all(value, "/"@ + from, "/"@ + to), from, to);
    let from = "plugins\\"@ + LEGACY_STARTERPACK_PLUGIN_ID@ + "\\"@;
    let to = "plugins\\"@ + STARTERPACK_PLUGIN_ID@ + "\\"@;
    with_beginning(text::replace_all(unix, "\\"@ + from, "\\"@ + to), from, to)
}

/// Rewrites paths, absolute or relative, under the legacy starter pack folder.
pub fn normalize_starterpack_paths(value: &mut String)
    ensures
        final(value)@ == starterpack_path(old(value)@),
{
    proof {
        reveal_strlit("/");
        reveal_strlit("\\");
    }
    let from = concat3("plugins/", LEGACY_STARTERPACK_PLUGIN_ID, "/");
    let to = concat3("plugins/", STARTERPACK_PLUGIN_ID, "/");
    let inner = replace_text(value.as_str(), &concat2("/", &from), &concat2("/", &to));
    let unix = replace_beginning(&inner, &from, &to);
    let from = concat3("plugins\\", LEGACY_STARTERPACK_PLUGIN_ID, "\\");
    let to = concat3("plugins\\", STARTERPACK_PLUGIN_ID, "\\");
    let inner = replace_text(&unix, &concat2("\\", &from), &concat2("\\", &to));
    *value = replace_beginning(&inner, &from, &to);
}

/// Normalising an action twice changes nothing more.
pub proof fn law_normalize_action_idempotent(plugin: Seq<char>, uuid: Seq<char>)
    ensures
        builtin_plugin(builtin_plugin(plugin)) == builtin_plugin(plugin),
        builtin_uuid(builtin_uuid(uuid)) == builtin_uuid(uuid),
        starterpack_plugin(starterpack_plugin(plugin)) == starterpack_plugin(plugin),
        starterpack_uuid(starterpack_uuid(uuid)) == starterpack_uuid(uuid),
{
    reveal_strlit("opendeck");
    reveal_strlit("riverdeck");
    reveal_strlit("opendeck.multiaction");
    reveal_strlit("opendeck.toggleaction");
    reveal_strlit("riverdeck.multiaction");
    reveal_strlit("riverdeck.toggleaction");
    reveal_strlit("com.amansprojects.starterpack.sdPlugin");
    reveal_strlit("io.github.sulrwin.riverdeck.starterpack.sdPlugin");
    reveal_strlit("com.amansprojects.starterpack.");
    reveal_strlit("io.github.sulrwin.riverdeck.starterpack.");
    assert(BUILTIN_PLUGIN_ID@[0] == 'r');
    assert("opendeck"@[0] == 'o');
    assert(MULTI_ACTION_UUID@[0] == 'r');
    assert(TOGGLE_ACTION_UUID@[0] == 'r');
    assert("opendeck.multiaction"@[0] == 'o');
    assert("opendeck.toggleaction"@[0] == 'o');
    assert(STARTERPACK_PLUGIN_ID@[0] == 'i');
    assert(LEGACY_STARTERPACK_PLUGIN_ID@[0] == 'c');
    let t = starterpack_uuid(uuid);
    if LEGACY_STARTERPACK_UUID_PREFIX@.is_prefix_of(uuid) {
        assert(t[0] == STARTERPACK_UUID_PREFIX@[0]);
        assert(STARTERPACK_UUID_PREFIX@[0] == 'i');
        assert(LEGACY_STARTERPACK_UUID_PREFIX@[0] == 'c');
        if LEGACY_STARTERPACK_UUID_PREFIX@.is_prefix_of(t) {
            assert(t[0] == LEGACY_STARTERPACK_UUID_PREFIX@[0]);
        }
    }
}

/// A normalised action holds children exactly if the action did.
pub proof fn law_normalize_keeps_kind(uuid: Seq<char>)
    ensures
        is_multi(builtin_uuid(uuid)) == is_multi(uuid),
        is_toggle(builtin_uuid(uuid)) == is_toggle(uuid),
{
    reveal_strlit("opendeck.multiaction");
    reveal_strlit("opendeck.toggleaction");
    reveal_strlit("riverdeck.multiaction");
    reveal_strlit("riverdeck.toggleaction");
    assert(MULTI_ACTION_UUID@[10] == 'm');
    assert(TOGGLE_ACTION_UUID@[10] == 't');
    assert("opendeck.multiaction"@[0] == 'o');
    assert("opendeck.toggleaction"@[0] == 'o');
    assert(MULTI_ACTION_UUID@[0] == 'r');
    assert(TOGGLE_ACTION_UUID@[0] == 'r');
    assert("opendeck.multiaction"@[9] == 'm');
    assert("opendeck.toggleaction"@[9] == 't');
}

// ---------------------------------------------------------------------------
// Directories
// ---------------------------------------------------------------------------

/// The directories of the application.
pub struct Paths {
    pub config_dir: String,
    pub data_dir: String,
    pub log_dir: String,
    /// The directory of bundled resources, if there is one.
    pub resource_dir: Option<String>,
}

/// Sets the directories, unless they were set before.
pub fn init_paths(cell: &mut Option<Paths>, paths: Paths)
    ensures
        *final(cell) == if *old(cell) is Some {
            *old(cell)
        } else {
            Some(paths)
        },
{
    if cell.is_none() {
        *cell = Some(paths);
    }
}

/// The application's directories below the user's configuration and data
/// directories.
pub fn discover_paths(config_base: &str, data_base: &str) -> (r: Paths)
    ensures
        r.config_dir@ == joined(config_base@, "io.github.sulrwin.riverdeck"@),
        r.data_dir@ == joined(data_base@, "io.github.sulrwin.riverdeck"@),
        r.log_dir@ == joined(r.data_dir@, "logs"@),
        r.resource_dir is None,
{
    let data_dir = join(data_base, "io.github.sulrwin.riverdeck");
    let log_dir = join(&data_dir, "logs");
    Paths {
        config_dir: join(config_base, "io.github.sulrwin.riverdeck"),
        data_dir,
        log_dir,
        resource_dir: None,
    }
}

/// The configuration directory.
pub fn config_dir(paths: &Paths) -> (r: String)
    ensures
        r@ == paths.config_dir@,
{
    paths.config_dir.clone()
}

/// The log directory.
pub fn log_dir(paths: &Paths) -> (r: String)
    ensures
        r@ == paths.log_dir@,
{
    paths.log_dir.clone()
}

/// The data directory.
pub fn data_dir(paths: &Paths) -> (r: String)
    ensures
        r@ == paths.data_dir@,
{
    paths.data_dir.clone()
}

/// The directory of bundled resources.
pub fn resource_dir(paths: &Paths) -> (r: Option<String>)
    ensures
        text::opt_text(r) == text::opt_text(paths.resource_dir),
{
    clone_opt(&paths.resource_dir)
}

/// `name` below the directory `dir`: `name` itself where it is absolute, else
/// the two with one `/` between them, unless `dir` is empty or ends in one.
pub open spec fn joined(dir: Seq<char>, name: Seq<char>) -> Seq<char> {
    if name.len() > 0 && name[0] == '/' {
        name
    } else if dir.len() == 0 || dir.last() == '/' {
        dir + name
    } else {
        dir + seq!['/'] + name
    }
}

/// `name` below the directory `dir`.
pub fn join(dir: &str, name: &str) -> (r: String)
    ensures
        r@ == joined(dir@, name@),
{
    proof {
        reveal_strlit("/");
        assert("/"@ =~= seq!['/']);
    }
    let n = text::chars_of(name);
    if n.len() > 0 && n[0] == '/' {
        return owned(name);
    }
    let d = text::chars_of(dir);
    if d.len() == 0 || d[d.len() - 1] == '/' {
        concat2(dir, name)
    } else {
        concat3(dir, "/", name)
    }
}

// ---------------------------------------------------------------------------
// Icons
// ---------------------------------------------------------------------------

/// `path` has the extension of an image.
pub open spec fn has_image_extension(path: Seq<char>) -> bool {
    let l = text::lowercased(path);
    ||| ".png"@.is_suffix_of(l)
    ||| ".jpg"@.is_suffix_of(l)
    ||| ".jpeg"@.is_suffix_of(l)
    ||| ".gif"@.is_suffix_of(l)
    ||| ".svg"@.is_suffix_of(l)
    ||| ".bmp"@.is_suffix_of(l)
    ||| ".webp"@.is_suffix_of(l)
}

/// The file that an icon path of a manifest stands for, given the files that
/// exist: the path itself where it has an image extension, else the first of
/// its raster and vector variants that exists, else the PNG.
pub open spec fn icon_file(path: Seq<char>, existing: Seq<Seq<char>>) -> Seq<char> {
    if has_image_extension(path) {
        path
    } else if existing.contains(path + "@2x.png"@) {
        path + "@2x.png"@
    } else if existing.contains(path + ".png"@) {
        path + ".png"@
    } else if existing.contains(path + ".jpg"@) {
        path + ".jpg"@
    } else if existing.contains(path + ".svg"@) {
        path + ".svg"@
    } else {
        path + ".png"@
    }
}

/// The files to look for before an icon path is converted.
pub fn icon_candidates(path: &str) -> (r: Vec<String>)
    ensures
        text::texts(r@) == seq![
            path@ + "@2x.png"@,
            path@ + ".png"@,
            path@ + ".jpg"@,
            path@ + ".svg"@,
        ],
{
    let mut v: Vec<String> = Vec::new();
    v.push(concat2(path, "@2x.png"));
    v.push(concat2(path, ".png"));
    v.push(concat2(path, ".jpg"));
    v.push(concat2(path, ".svg"));
    assert(text::texts(v@) =~= seq![
        path@ + "@2x.png"@,
        path@ + ".png"@,
        path@ + ".jpg"@,
        path@ + ".svg"@,
    ]);
    v
}

/// Converts an icon path of a plugin manifest to the file it stands for, given
/// the files that exist.
pub fn convert_icon(path: &str, existing: &Vec<String>) -> (r: String)
    ensures
        r@ == icon_file(path@, text::texts(existing@)),
{
    let l = to_lowercase(path);
    if ends_with(&l, ".png") || ends_with(&l, ".jpg") || ends_with(&l, ".jpeg") || ends_with(
        &l,
        ".gif",
    ) || ends_with(&l, ".svg") || ends_with(&l, ".bmp") || ends_with(&l, ".webp") {
        return owned(path);
    }
    let double = concat2(path, "@2x.png");
    if text::texts_contain(existing, &double) {
        return double;
    }
    let png = concat2(path, ".png");
    if text::texts_contain(existing, &png) {
        return png;
    }
    let jpg = concat2(path, ".jpg");
    if text::texts_contain(existing, &jpg) {
        return jpg;
    }
    let svg = concat2(path, ".svg");
    if text::texts_contain(existing, &svg) {
        return svg;
    }
    png
}

/// Whether the environment is that of a Flatpak sandbox: `FLATPAK_ID` is set,
/// or `container` is `flatpak` in any case.
pub fn is_flatpak(has_flatpak_id: bool, container: &Option<String>) -> (r: bool)
    ensures
        r == (has_flatpak_id || (container matches Some(c) && text::trimmed(text::lowercased(c@))
            == "flatpak"@)),
{
    if has_flatpak_id {
        return true;
    }
    match container {
        Some(c) => {
            let l = to_lowercase(c);
            let t = text::trim(&l);
            same_text(&t, "flatpak")
        },
        None => false,
    }
}

// ---------------------------------------------------------------------------
// Devices
// ---------------------------------------------------------------------------

#[derive(Clone, Copy, PartialEq, Eq, Structural, Debug)]
pub enum ScreenPlacement {
    BetweenKeypadAndEncoders,
}

#[derive(Clone, Copy, PartialEq, Eq, Structural, Debug)]
pub struct DeviceScreenInfo {
    pub width_px: u16,
    pub height_px: u16,
    pub segments: u8,
    pub placement: ScreenPlacement,
}

/// Metadata of a device.
pub struct DeviceInfo {
    pub id: String,
    pub plugin: String,
    pub name: String,
    pub rows: u8,
    pub columns: u8,
    pub encoders: u8,
    pub device_type: u8,
    pub screen: Option<DeviceScreenInfo>,
}

// ---------------------------------------------------------------------------
// Actions
// ---------------------------------------------------------------------------

#[derive(Clone, Copy, PartialEq, Eq, Structural, Debug)]
pub struct FontSize(pub u16);

impl FontSize {
    /// The font size that a number of a manifest stands for: its lower 16 bits.
    pub fn from_number(n: u64) -> (r: FontSize)
        ensures
            r.0 == n % 65536,
    {
        FontSize((n % 65536) as u16)
    }

    /// The font size that a text of a manifest stands for.
    pub fn from_text(s: &str) -> (r: Option<FontSize>)
        ensures
            match text::parsed_unsigned(s@, u64::MAX as nat) {
                Some(n) => r matches Some(size) && size.0 == n % 65536,
                None => r is None,
            },
    {
        match parse_unsigned(s, u64::MAX) {
            Some(n) => Some(FontSize::from_number(n)),
            None => None,
        }
    }
}

#[derive(Clone, Copy, PartialEq, Eq, Structural, Debug)]
pub enum TextPlacement {
    Top,
    Bottom,
    Left,
    Right,
}

/// A state of an action.
pub struct ActionState {
    pub image: String,
    pub name: String,
    pub text: String,
    pub show: bool,
    /// Whether the name of the action is drawn as a second label.
    pub show_action_name: bool,
    /// Whether the icon is drawn.
    pub show_icon: bool,
    pub colour: String,
    pub alignment: String,
    /// Where the label is drawn.
    pub text_placement: TextPlacement,
    pub family: String,
    pub style: String,
    pub size: FontSize,
    pub underline: bool,
}

/// The model of an `ActionState`.
pub struct StateView {
    pub image: Seq<char>,
    pub name: Seq<char>,
    pub text: Seq<char>,
    pub show: bool,
    pub show_action_name: bool,
    pub show_icon: bool,
    pub colour: Seq<char>,
    pub alignment: Seq<char>,
    pub text_placement: TextPlacement,
    pub family: Seq<char>,
    pub style: Seq<char>,
    pub size: FontSize,
    pub underline: bool,
}

impl View for ActionState {
    type V = StateView;

    open spec fn view(&self) -> StateView {
        StateView {
            image: self.image@,
            name: self.name@,
            text: self.text@,
            show: self.show,
            show_action_name: self.show_action_name,
            show_icon: self.show_icon,
            colour: self.colour@,
            alignment: self.alignment@,
            text_placement: self.text_placement,
            family: self.family@,
            style: self.style@,
            size: self.size,
            underline: self.underline,
        }
    }
}

/// The state of an action whose manifest leaves everything open.
pub open spec fn default_state() -> StateView {
    StateView {
        image: "actionDefaultImage"@,
        name: Seq::empty(),
        text: Seq::empty(),
        show: true,
        show_action_name: true,
        show_icon: true,
        colour: "#FFFFFF"@,
        alignment: "middle"@,
        text_placement: TextPlacement::Bottom,
        family: "Liberation Sans"@,
        style: "Regular"@,
        size: FontSize(16),
        underline: false,
    }
}

impl Default for ActionState {
    fn default() -> (r: ActionState)
        ensures
            r@ == default_state(),
    {
        ActionState {
            image: owned("actionDefaultImage"),
            name: String::new(),
            text: String::new(),
            show: true,
            show_action_name: true,
            show_icon: true,
            colour: owned("#FFFFFF"),
            alignment: owned("middle"),
            text_placement: TextPlacement::Bottom,
            family: owned("Liberation Sans"),
            style: owned("Regular"),
            size: FontSize(16),
            underline: false,
        }
    }
}

impl ActionState {
    /// A copy of the state.
    pub fn copy(&self) -> (r: ActionState)
        ensures
            r@ == self@,
    {
        ActionState {
            image: self.image.clone(),
            name: self.name.clone(),
            text: self.text.clone(),
            show: self.show,
            show_action_name: self.show_action_name,
            show_icon: self.show_icon,
            colour: self.colour.clone(),
            alignment: self.alignment.clone(),
            text_placement: self.text_placement,
            family: self.family.clone(),
            style: self.style.clone(),
            size: self.size,
            underline: self.underline,
        }
    }
}

/// The models of a row of states.
pub open spec fn states_view(s: Seq<ActionState>) -> Seq<StateView> {
    s.map_values(|x: ActionState| x@)
}

/// A copy of a row of states.
pub fn copy_states(v: &Vec<ActionState>) -> (r: Vec<ActionState>)
    ensures
        states_view(r@) == states_view(v@),
        r@.len() == v@.len(),
{
    let mut out: Vec<ActionState> = Vec::new();
    let mut i: usize = 0;
    while i < v.len()
        invariant
            i <= v@.len(),
            out@.len() == i,
            forall|k: int| 0 <= k < i ==> (#[trigger] out@[k])@ == v@[k]@,
        decreases v@.len() - i,
    {
        out.push(v[i].copy());
        i = i + 1;
    }
    assert(states_view(out@) =~= states_view(v@));
    out
}

/// An action of a plugin.
pub struct Action {
    pub name: String,
    pub uuid: String,
    pub plugin: String,
    pub tooltip: String,
    pub icon: String,
    pub disable_automatic_states: bool,
    pub visible_in_action_list: bool,
    pub supported_in_multi_actions: bool,
    pub property_inspector: String,
    pub controllers: Vec<String>,
    pub states: Vec<ActionState>,
}

/// The model of an `Action`.
pub struct ActionView {
    pub name: Seq<char>,
    pub uuid: Seq<char>,
    pub plugin: Seq<char>,
    pub tooltip: Seq<char>,
    pub icon: Seq<char>,
    pub disable_automatic_states: bool,
    pub visible_in_action_list: bool,
    pub supported_in_multi_actions: bool,
    pub property_inspector: Seq<char>,
    pub controllers: Seq<Seq<char>>,
    pub states: Seq<StateView>,
}

impl View for Action {
    type V = ActionView;

    open spec fn view(&self) -> ActionView {
        ActionView {
            name: self.name@,
            uuid: self.uuid@,
            plugin: self.plugin@,
            tooltip: self.tooltip@,
            icon: self.icon@,
            disable_automatic_states: self.disable_automatic_states,
            visible_in_action_list: self.visible_in_action_list,
            supported_in_multi_actions: self.supported_in_multi_actions,
            property_inspector: self.property_inspector@,
            controllers: text::texts(self.controllers@),
            states: states_view(self.states@),
        }
    }
}

impl Action {
    /// A copy of the action.
    pub fn copy(&self) -> (r: Action)
        ensures
            r@ == self@,
    {
        Action {
            name: self.name.clone(),
            uuid: self.uuid.clone(),
            plugin: self.plugin.clone(),
            tooltip: self.tooltip.clone(),
            icon: self.icon.clone(),
            disable_automatic_states: self.disable_automatic_states,
            visible_in_action_list: self.visible_in_action_list,
            supported_in_multi_actions: self.supported_in_multi_actions,
            property_inspector: self.property_inspector.clone(),
            controllers: clone_texts(&self.controllers),
            states: copy_states(&self.states),
        }
    }
}

/// The models of a row of actions.
pub open spec fn actions_view(s: Seq<Action>) -> Seq<ActionView> {
    s.map_values(|x: Action| x@)
}

/// The actions of one category.
pub struct Category {
    pub icon: Option<String>,
    pub actions: Vec<Action>,
}

/// A built-in action that holds children.
pub open spec fn builtin_action(
    name: Seq<char>,
    uuid: Seq<char>,
    tooltip: Seq<char>,
    icon: Seq<char>,
) -> ActionView {
    ActionView {
        name,
        uuid,
        plugin: BUILTIN_PLUGIN_ID@,
        tooltip,
        icon,
        disable_automatic_states: false,
        visible_in_action_list: true,
        supported_in_multi_actions: false,
        property_inspector: Seq::empty(),
        controllers: seq!["Keypad"@],
        states: seq![(StateView { image: icon, ..default_state() })],
    }
}

fn make_builtin_action(name: &str, uuid: &str, tooltip: &str, icon: &str) -> (r: Action)
    ensures
        r@ == builtin_action(name@, uuid@, tooltip@, icon@),
{
    let mut state = ActionState::default();
    state.image = owned(icon);
    let mut states: Vec<ActionState> = Vec::new();
    states.push(state);
    let mut controllers: Vec<String> = Vec::new();
    controllers.push(owned("Keypad"));
    let r = Action {
        name: owned(name),
        uuid: owned(uuid),
        plugin: owned(BUILTIN_PLUGIN_ID),
        tooltip: owned(tooltip),
        icon: owned(icon),
        disable_automatic_states: false,
        visible_in_action_list: true,
        supported_in_multi_actions: false,
        property_inspector: String::new(),
        controllers,
        states,
    };
    assert(r@.controllers =~= seq!["Keypad"@]);
    assert(r@.states =~= seq![(StateView { image: icon@, ..default_state() })]);
    r
}

/// The category of the built-in actions: the multi action and the toggle
/// action.
pub fn builtin_category() -> (r: Category)
    ensures
        r.icon is None,
        actions_view(r.actions@) == seq![
            builtin_action(
                "Multi Action"@,
                MULTI_ACTION_UUID@,
                "Execute multiple actions"@,
                "riverdeck/multi-action.png"@,
            ),
            builtin_action(
                "Toggle Action"@,
                TOGGLE_ACTION_UUID@,
                "Cycle through multiple actions"@,
                "riverdeck/toggle-action.png"@,
            ),
        ],
{
    let mut actions: Vec<Action> = Vec::new();
    let multi = make_builtin_action(
        "Multi Action",
        MULTI_ACTION_UUID,
        "Execute multiple actions",
        "riverdeck/multi-action.png",
    );
    let toggle = make_builtin_action(
        "Toggle Action",
        TOGGLE_ACTION_UUID,
        "Cycle through multiple actions",
        "riverdeck/toggle-action.png",
    );
    actions.push(multi);
    actions.push(toggle);
    assert(actions_view(actions@) =~= seq![multi@, toggle@]);
    Category { icon: None, actions }
}

// ---------------------------------------------------------------------------
// Contexts
// ---------------------------------------------------------------------------

/// The place of a slot.
pub struct Context {
    pub device: String,
    pub profile: String,
    /// The id of the page within the profile.
    pub page: String,
    pub controller: String,
    pub position: u8,
}

/// The model of a `Context`.
pub struct ContextView {
    pub device: Seq<char>,
    pub profile: Seq<char>,
    pub page: Seq<char>,
    pub controller: Seq<char>,
    pub position: u8,
}

impl View for Context {
    type V = ContextView;

    open spec fn view(&self) -> ContextView {
        ContextView {
            device: self.device@,
            profile: self.profile@,
            page: self.page@,
            controller: self.controller@,
            position: self.position,
        }
    }
}

impl Context {
    /// A copy of the context.
    pub fn copy(&self) -> (r: Context)
        ensures
            r@ == self@,
    {
        Context {
            device: self.device.clone(),
            profile: self.profile.clone(),
            page: self.page.clone(),
            controller: self.controller.clone(),
            position: self.position,
        }
    }

    /// The slot of an instance.
    pub fn of_action(value: &ActionContext) -> (r: Context)
        ensures
            r@ == slot_of(value@),
    {
        Context {
            device: value.device.clone(),
            profile: value.profile.clone(),
            page: value.page.clone(),
            controller: value.controller.clone(),
            position: value.position,
        }
    }

    /// Both contexts name the same slot.
    pub fn same(&self, other: &Context) -> (r: bool)
        ensures
            r == (self@ == other@),
    {
        same_text(&self.device, &other.device) && same_text(&self.profile, &other.profile)
            && same_text(&self.page, &other.page) && same_text(&self.controller, &other.controller)
            && self.position == other.position
    }
}

/// The place of an instance: its slot, and its index among the instances there.
pub struct ActionContext {
    pub device: String,
    pub profile: String,
    /// The id of the page within the profile.
    pub page: String,
    pub controller: String,
    pub position: u8,
    pub index: u16,
}

/// The model of an `ActionContext`.
pub struct ActionContextView {
    pub device: Seq<char>,
    pub profile: Seq<char>,
    pub page: Seq<char>,
    pub controller: Seq<char>,
    pub position: u8,
    pub index: u16,
}

impl View for ActionContext {
    type V = ActionContextView;

    open spec fn view(&self) -> ActionContextView {
        ActionContextView {
            device: self.device@,
            profile: self.profile@,
            page: self.page@,
            controller: self.controller@,
            position: self.position,
            index: self.index,
        }
    }
}

/// The slot of an instance.
pub open spec fn slot_of(c: ActionContextView) -> ContextView {
    ContextView {
        device: c.device,
        profile: c.profile,
        page: c.page,
        controller: c.controller,
        position: c.position,
    }
}

/// The place number `index` in a slot.
pub open spec fn at_index(c: ContextView, index: u16) -> ActionContextView {
    ActionContextView {
        device: c.device,
        profile: c.profile,
        page: c.page,
        controller: c.controller,
        position: c.position,
        index,
    }
}

/// The text of a context: its parts with dots between them.
pub open spec fn context_text(c: ActionContextView) -> Seq<char> {
    c.device + seq!['.'] + (c.profile + seq!['.'] + (c.page + seq!['.'] + (c.controller + seq!['.']
        + (text::decimal(c.position as nat) + seq!['.'] + text::decimal(c.index as nat)))))
}

/// The context that a text stands for. The parts are device, profile, page,
/// controller, position and index; with five parts the page is "1". Parts
/// behind the sixth are ignored.
pub open spec fn parsed_context(s: Seq<char>) -> Option<ActionContextView> {
    let p = text::split_on(s, '.');
    let k: int = if p.len() >= 6 {
        1
    } else {
        0
    };
    if p.len() < 5 {
        None
    } else {
        match (
            text::parsed_unsigned(p[3 + k], 255),
            text::parsed_unsigned(p[4 + k], 65535),
        ) {
            (Some(position), Some(index)) => Some(
                ActionContextView {
                    device: p[0],
                    profile: p[1],
                    page: if p.len() >= 6 {
                        p[2]
                    } else {
                        "1"@
                    },
                    controller: p[2 + k],
                    position: position as u8,
                    index: index as u16,
                },
            ),
            _ => None,
        }
    }
}

/// Why a text is no context.
#[derive(Clone, Copy, PartialEq, Eq, Structural, Debug)]
pub enum ContextError {
    NotEnoughSegments,
    InvalidNumber,
}

impl ActionContext {
    /// The place number `index` in the slot `context`.
    pub fn from_context(context: Context, index: u16) -> (r: ActionContext)
        ensures
            r@ == at_index(context@, index),
    {
        ActionContext {
            device: context.device,
            profile: context.profile,
            page: context.page,
            controller: context.controller,
            position: context.position,
            index,
        }
    }

    /// A copy of the context.
    pub fn copy(&self) -> (r: ActionContext)
        ensures
            r@ == self@,
    {
        ActionContext {
            device: self.device.clone(),
            profile: self.profile.clone(),
            page: self.page.clone(),
            controller: self.controller.clone(),
            position: self.position,
            index: self.index,
        }
    }

    /// Both contexts name the same place.
    pub fn same(&self, other: &ActionContext) -> (r: bool)
        ensures
            r == (self@ == other@),
    {
        same_text(&self.device, &other.device) && same_text(&self.profile, &other.profile)
            && same_text(&self.page, &other.page) && same_text(&self.controller, &other.controller)
            && self.position == other.position && self.index == other.index
    }

    /// The text of the context.
    pub fn to_text(&self) -> (r: String)
        ensures
            r@ == context_text(self@),
    {
        let mut s = self.device.clone();
        s.push('.');
        s.append(&self.profile);
        s.push('.');
        s.append(&self.page);
        s.push('.');
        s.append(&self.controller);
        s.push('.');
        let position = decimal_text(self.position as u64);
        s.append(&position);
        s.push('.');
        let index = decimal_text(self.index as u64);
        s.append(&index);
        assert(s@ =~= context_text(self@));
        s
    }

    /// The context that a text stands for.
    pub fn parse(s: &str) -> (r: Result<ActionContext, ContextError>)
        ensures
            match r {
                Ok(c) => parsed_context(s@) == Some(c@),
                Err(e) => parsed_context(s@) is None && (e == ContextError::NotEnoughSegments
                    <==> text::split_on(s@, '.').len() < 5),
            },
    {
        let p = split(s, '.');
        let ghost parts = text::split_on(s@, '.');
        assert(parts.len() == p@.len());
        assert(forall|i: int| 0 <= i < p@.len() ==> parts[i] == (#[trigger] p@[i])@);
        if p.len() < 5 {
            return Err(ContextError::NotEnoughSegments);
        }
        let k: usize = if p.len() >= 6 {
            1
        } else {
            0
        };
        let page = if p.len() >= 6 {
            p[2].clone()
        } else {
            owned("1")
        };
        let position = match parse_unsigned(&p[3 + k], 255) {
            Some(n) => n as u8,
            None => {
                return Err(ContextError::InvalidNumber);
            },
        };
        let index = match parse_unsigned(&p[4 + k], 65535) {
            Some(n) => n as u16,
            None => {
                return Err(ContextError::InvalidNumber);
            },
        };
        Ok(
            ActionContext {
                device: p[0].clone(),
                profile: p[1].clone(),
                page,
                controller: p[2 + k].clone(),
                position,
                index,
            },
        )
    }
}

/// The context whose parts hold no dot is read back from its text.
pub proof fn law_context_round_trip(c: ActionContextView)
    requires
        !c.device.contains('.'),
        !c.profile.contains('.'),
        !c.page.contains('.'),
        !c.controller.contains('.'),
    ensures
        parsed_context(context_text(c)) == Some(c),
{
    let pos = text::decimal(c.position as nat);
    let idx = text::decimal(c.index as nat);
    text::lemma_parse_decimal(c.position as nat, 255);
    text::lemma_parse_decimal(c.index as nat, 65535);
    let t5 = pos + seq!['.'] + idx;
    let t4 = c.controller + seq!['.'] + t5;
    let t3 = c.page + seq!['.'] + t4;
    let t2 = c.profile + seq!['.'] + t3;
    text::lemma_split_on_none(idx, '.');
    text::lemma_split_on_head(pos, '.', idx);
    text::lemma_split_on_head(c.controller, '.', t5);
    text::lemma_split_on_head(c.page, '.', t4);
    text::lemma_split_on_head(c.profile, '.', t3);
    text::lemma_split_on_head(c.device, '.', t2);
    assert(text::split_on(context_text(c), '.') =~= seq![
        c.device,
        c.profile,
        c.page,
        c.controller,
        pos,
        idx,
    ]);
}

/// A text of the older form, without a page, names the same place on page "1".
pub proof fn law_legacy_context(c: ActionContextView)
    requires
        !c.device.contains('.'),
        !c.profile.contains('.'),
        !c.controller.contains('.'),
        c.page == "1"@,
    ensures
        parsed_context(
            c.device + seq!['.'] + (c.profile + seq!['.'] + (c.controller + seq!['.']
                + (text::decimal(c.position as nat) + seq!['.'] + text::decimal(c.index as nat)))),
        ) == Some(c),
{
    let pos = text::decimal(c.position as nat);
    let idx = text::decimal(c.index as nat);
    text::lemma_parse_decimal(c.position as nat, 255);
    text::lemma_parse_decimal(c.index as nat, 65535);
    let t5 = pos + seq!['.'] + idx;
    let t4 = c.controller + seq!['.'] + t5;
    let t2 = c.profile + seq!['.'] + t4;
    let s = c.device + seq!['.'] + t2;
    text::lemma_split_on_none(idx, '.');
    text::lemma_split_on_head(pos, '.', idx);
    text::lemma_split_on_head(c.controller, '.', t5);
    text::lemma_split_on_head(c.profile, '.', t4);
    text::lemma_split_on_head(c.device, '.', t2);
    assert(text::split_on(s, '.') =~= seq![c.device, c.profile, c.controller, pos, idx]);
}

// ---------------------------------------------------------------------------
// Instances, pages and profiles
// ---------------------------------------------------------------------------

/// An instance of an action.
pub struct ActionInstance {
    pub action: Action,
    pub context: ActionContext,
    pub states: Vec<ActionState>,
    pub current_state: u16,
    pub settings: Json,
    pub children: Option<Vec<ActionInstance>>,
}

/// The model of an `ActionInstance`.
pub struct InstanceView {
    pub action: ActionView,
    pub context: ActionContextView,
    pub states: Seq<StateView>,
    pub current_state: u16,
    pub settings: JsonView,
    pub children: Option<Seq<InstanceView>>,
}

/// The model of an instance.
pub open spec fn instance_model(i: ActionInstance) -> InstanceView
    decreases i,
{
    InstanceView {
        action: i.action@,
        context: i.context@,
        states: states_view(i.states@),
        current_state: i.current_state,
        settings: i.settings@,
        children: match i.children {
            Some(c) => Some(
                Seq::new(
                    c@.len(),
                    |k: int|
                        if 0 <= k < c@.len() {
                            instance_model(c@[k])
                        } else {
                            arbitrary()
                        },
                ),
            ),
            None => None,
        },
    }
}

impl View for ActionInstance {
    type V = InstanceView;

    open spec fn view(&self) -> InstanceView {
        instance_model(*self)
    }
}

/// The models of a row of instances.
pub open spec fn instances_view(s: Seq<ActionInstance>) -> Seq<InstanceView> {
    Seq::new(s.len(), |k: int| s[k]@)
}

/// The models of the children of an instance.
pub open spec fn children_view(c: Option<Vec<ActionInstance>>) -> Option<Seq<InstanceView>> {
    match c {
        Some(v) => Some(instances_view(v@)),
        None => None,
    }
}

/// The view of an instance is that of its parts.
pub broadcast proof fn lemma_instance_view(i: ActionInstance)
    ensures
        #[trigger] i@ == (InstanceView {
            action: i.action@,
            context: i.context@,
            states: states_view(i.states@),
            current_state: i.current_state,
            settings: i.settings@,
            children: children_view(i.children),
        }),
{
    match i.children {
        Some(c) => {
            assert(i@.children->0 =~= instances_view(c@));
        },
        None => {},
    }
}

impl ActionInstance {
    /// A copy of the instance.
    pub fn copy(&self) -> (r: ActionInstance)
        ensures
            r@ == self@,
        decreases self,
    {
        broadcast use lemma_instance_view;

        let children = match &self.children {
            Some(c) => {
                let mut out: Vec<ActionInstance> = Vec::new();
                let mut i: usize = 0;
                while i < c.len()
                    invariant
                        i <= c@.len(),
                        self.children == Some(*c),
                        out@.len() == i,
                        forall|k: int| 0 <= k < i ==> (#[trigger] out@[k])@ == c@[k]@,
                    decreases c@.len() - i,
                {
                    assert(decreases_to!(self => self.children));
                    assert(decreases_to!(self.children => self.children->0));
                    assert(decreases_to!(c => c@));
                    assert(decreases_to!(c@ => c@[i as int]));
                    out.push(c[i].copy());
                    i = i + 1;
                }
                assert(instances_view(out@) =~= instances_view(c@));
                Some(out)
            },
            None => None,
        };
        ActionInstance {
            action: self.action.copy(),
            context: self.context.copy(),
            states: copy_states(&self.states),
            current_state: self.current_state,
            settings: self.settings.copy(),
            children,
        }
    }
}

/// The model of a slot.
pub open spec fn slot_view(s: Option<ActionInstance>) -> Option<InstanceView> {
    match s {
        Some(i) => Some(i@),
        None => None,
    }
}

/// The models of a row of slots.
pub open spec fn slots_view(s: Seq<Option<ActionInstance>>) -> Seq<Option<InstanceView>> {
    s.map_values(|x: Option<ActionInstance>| slot_view(x))
}

/// Changing a slot changes its model.
pub broadcast proof fn lemma_slots_update(
    s: Seq<Option<ActionInstance>>,
    i: int,
    x: Option<ActionInstance>,
)
    requires
        0 <= i < s.len(),
    ensures
        #[trigger] slots_view(s.update(i, x)) == slots_view(s).update(i, slot_view(x)),
{
    assert(slots_view(s.update(i, x)) =~= slots_view(s).update(i, slot_view(x)));
}

/// Changing a page changes its model.
pub broadcast proof fn lemma_pages_update(s: Seq<Page>, i: int, x: Page)
    requires
        0 <= i < s.len(),
    ensures
        #[trigger] pages_view(s.update(i, x)) == pages_view(s).update(i, x@),
{
    assert(pages_view(s.update(i, x)) =~= pages_view(s).update(i, x@));
}

/// Changing a child changes its model.
pub broadcast proof fn lemma_instances_update(s: Seq<ActionInstance>, i: int, x: ActionInstance)
    requires
        0 <= i < s.len(),
    ensures
        #[trigger] instances_view(s.update(i, x)) == instances_view(s).update(i, x@),
{
    assert(instances_view(s.update(i, x)) =~= instances_view(s).update(i, x@));
}

/// Changing a state changes its model.
pub broadcast proof fn lemma_states_update(s: Seq<ActionState>, i: int, x: ActionState)
    requires
        0 <= i < s.len(),
    ensures
        #[trigger] states_view(s.update(i, x)) == states_view(s).update(i, x@),
{
    assert(states_view(s.update(i, x)) =~= states_view(s).update(i, x@));
}

/// A copy of a slot.
pub fn copy_slot(s: &Option<ActionInstance>) -> (r: Option<ActionInstance>)
    ensures
        slot_view(r) == slot_view(*s),
{
    match s {
        Some(i) => Some(i.copy()),
        None => None,
    }
}

/// A copy of a row of slots.
pub fn copy_slots(v: &Vec<Option<ActionInstance>>) -> (r: Vec<Option<ActionInstance>>)
    ensures
        slots_view(r@) == slots_view(v@),
{
    let mut out: Vec<Option<ActionInstance>> = Vec::new();
    let mut i: usize = 0;
    while i < v.len()
        invariant
            i <= v@.len(),
            out@.len() == i,
            forall|k: int| 0 <= k < i ==> slot_view(#[trigger] out@[k]) == slot_view(v@[k]),
        decreases v@.len() - i,
    {
        out.push(copy_slot(&v[i]));
        i = i + 1;
    }
    assert(slots_view(out@) =~= slots_view(v@));
    out
}

/// The part of a background image that the encoder screen shows. Each number
/// is held as the bits of its 32-bit floating-point form.
#[derive(Clone, Copy, PartialEq, Eq, Structural, Debug)]
pub struct EncoderScreenCrop {
    pub focus_x_bits: u32,
    pub focus_y_bits: u32,
    pub zoom_bits: u32,
}

/// A page of a profile.
pub struct Page {
    pub id: String,
    pub keys: Vec<Option<ActionInstance>>,
    pub sliders: Vec<Option<ActionInstance>>,
    pub encoder_screen_background: Option<String>,
    pub encoder_screen_crop: Option<EncoderScreenCrop>,
}

/// The model of a `Page`.
pub struct PageView {
    pub id: Seq<char>,
    pub keys: Seq<Option<InstanceView>>,
    pub sliders: Seq<Option<InstanceView>>,
    pub encoder_screen_background: Option<Seq<char>>,
    pub encoder_screen_crop: Option<EncoderScreenCrop>,
}

impl View for Page {
    type V = PageView;

    open spec fn view(&self) -> PageView {
        PageView {
            id: self.id@,
            keys: slots_view(self.keys@),
            sliders: slots_view(self.sliders@),
            encoder_screen_background: text::opt_text(self.encoder_screen_background),
            encoder_screen_crop: self.encoder_screen_crop,
        }
    }
}

impl Page {
    /// A copy of the page.
    pub fn copy(&self) -> (r: Page)
        ensures
            r@ == self@,
    {
        Page {
            id: self.id.clone(),
            keys: copy_slots(&self.keys),
            sliders: copy_slots(&self.sliders),
            encoder_screen_background: clone_opt(&self.encoder_screen_background),
            encoder_screen_crop: self.encoder_screen_crop,
        }
    }
}

/// The models of a row of pages.
pub open spec fn pages_view(s: Seq<Page>) -> Seq<PageView> {
    s.map_values(|x: Page| x@)
}

/// A profile: pages of action instances, one of which is selected.
pub struct Profile {
    pub id: String,
    pub pages: Vec<Page>,
    pub selected_page: String,
}

/// The model of a `Profile`.
pub struct ProfileView {
    pub id: Seq<char>,
    pub pages: Seq<PageView>,
    pub selected_page: Seq<char>,
}

impl View for Profile {
    type V = ProfileView;

    open spec fn view(&self) -> ProfileView {
        ProfileView {
            id: self.id@,
            pages: pages_view(self.pages@),
            selected_page: self.selected_page@,
        }
    }
}

/// The page that a profile without a selection shows.
pub fn default_selected_page() -> (r: String)
    ensures
        r@ == "1"@,
{
    owned("1")
}

/// The name, version and operating system of the application.
pub fn get_build_info(product_name: &str, version: &str, os: &str) -> (r: String)
    ensures
        r@ == product_name@ + " v"@ + version@ + " ("@ + os@ + ")"@,
{
    let head = concat3(product_name, " v", version);
    let tail = concat3(" (", os, ")");
    let r = concat2(&head, &tail);
    assert(r@ =~= product_name@ + " v"@ + version@ + " ("@ + os@ + ")"@);
    r
}

/// The file that an icon stands for is one that exists wherever a variant of it does:
/// the large PNG before the small one, and those before the other kinds. A path with
/// the extension of an image stands for itself.
pub proof fn law_icon_file_exists(path: Seq<char>, existing: Seq<Seq<char>>)
    ensures
        has_image_extension(path) ==> icon_file(path, existing) == path,
        !has_image_extension(path) ==> ({
            let f = icon_file(path, existing);
            let large = path + "@2x.png"@;
            let small = path + ".png"@;
            let photo = path + ".jpg"@;
            let drawn = path + ".svg"@;
            &&& f == large || f == small || f == photo || f == drawn
            &&& existing.contains(large) || existing.contains(small) || existing.contains(photo)
                || existing.contains(drawn) ==> existing.contains(f)
            &&& existing.contains(large) ==> f == large
            &&& !existing.contains(large) && existing.contains(small) ==> f == small
            &&& !existing.contains(f) ==> f == small
        }),
{
}

/// A name of former days stands for the present one, and every other name for itself.
pub proof fn law_former_names(rest: Seq<char>, name: Seq<char>)
    ensures
        starterpack_uuid(LEGACY_STARTERPACK_UUID_PREFIX@ + rest) == STARTERPACK_UUID_PREFIX@ + rest,
        !LEGACY_STARTERPACK_UUID_PREFIX@.is_prefix_of(name) ==> starterpack_uuid(name) == name,
        starterpack_plugin(LEGACY_STARTERPACK_PLUGIN_ID@) == STARTERPACK_PLUGIN_ID@,
        name != LEGACY_STARTERPACK_PLUGIN_ID@ ==> starterpack_plugin(name) == name,
        builtin_plugin("opendeck"@) == "riverdeck"@,
        name != "opendeck"@ ==> builtin_plugin(name) == name,
        is_multi(name) ==> builtin_uuid(name) == MULTI_ACTION_UUID@,
        is_toggle(name) ==> !is_multi(name) ==> builtin_uuid(name) == TOGGLE_ACTION_UUID@,
        !holds_children(name) ==> builtin_uuid(name) == name,
{
    let p = LEGACY_STARTERPACK_UUID_PREFIX@;
    let w = p + rest;
    assert(w.subrange(0, p.len() as int) =~= p);
    assert(w.skip(p.len() as int) =~= rest);
    reveal_strlit("opendeck.multiaction");
    reveal_strlit("opendeck.toggleaction");
    reveal_strlit("riverdeck.multiaction");
    reveal_strlit("riverdeck.toggleaction");
    assert("opendeck.multiaction"@.len() != "opendeck.toggleaction"@.len());
    assert("riverdeck.multiaction"@.len() == 21 && "riverdeck.toggleaction"@.len() == 22);
    assert("opendeck.toggleaction"@.len() == 21);
    assert("riverdeck.multiaction"@[0] == 'r' && "opendeck.toggleaction"@[0] == 'o');
}

/// The place number `index` of a slot is in that slot.
pub proof fn law_place_is_in_its_slot(c: ContextView, index: u16, at: ActionContextView)
    ensures
        slot_of(at_index(c, index)) == c,
        at_index(c, index).index == index,
        at_index(slot_of(at), at.index) == at,
{
}

/// A built-in action stands on keys alone, is no child of another, and has one state,
/// which shows its icon.
pub proof fn law_builtin_action_is_a_container(
    name: Seq<char>,
    uuid: Seq<char>,
    tooltip: Seq<char>,
    icon: Seq<char>,
)
    ensures
        ({
            let a = builtin_action(name, uuid, tooltip, icon);
            &&& a.name == name && a.uuid == uuid && a.tooltip == tooltip && a.icon == icon
            &&& a.plugin == "riverdeck"@
            &&& a.controllers == seq!["Keypad"@]
            &&& !a.supported_in_multi_actions && a.visible_in_action_list
            &&& a.states.len() == 1 && a.states[0].image == icon
            &&& a.states[0].show && a.states[0].show_icon && a.states[0].text.len() == 0
        }),
{
    assert(Seq::<char>::empty().len() == 0);
}

} // verus!
