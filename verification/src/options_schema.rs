//! The settings of actions that the host itself can edit, and access to
//! settings by path.
use vstd::prelude::*;
use crate::json;
use crate::json::{find_field, set_field, Json, JsonNumber, JsonView, NumberView};
use crate::text;
use crate::text::{owned, same_text, split, trim};

verus! {

// ---------------------------------------------------------------------------
// Schemas
// ---------------------------------------------------------------------------

/// The value of a field that is not set.
#[derive(Clone, Copy)]
pub enum DefaultValue {
    Null,
    Bool(bool),
    Int(i64),
    Text(&'static str),
}

/// One of the values of a field.
pub struct EnumOption {
    pub label: &'static str,
    pub value: &'static str,
}

/// What a field holds.
pub enum FieldKind {
    Bool,
    Int,
    Float,
    Text,
    Enum(Vec<EnumOption>),
    PathFile,
    PathDir,
}

/// A field of the settings of an action.
pub struct Field {
    pub label: &'static str,
    /// The path of the field in the settings, with dots between its parts.
    pub key_path: &'static str,
    pub help: Option<&'static str>,
    pub kind: FieldKind,
    pub default: DefaultValue,
    pub min: Option<i64>,
    pub max: Option<i64>,
}

/// The fields of the settings of an action.
pub struct OptionsSchema {
    pub title: &'static str,
    pub fields: Vec<Field>,
}

/// The model of a `DefaultValue`.
pub enum DefaultView {
    Null,
    Bool(bool),
    Int(i64),
    Text(Seq<char>),
}

/// The model of a `FieldKind`; the options of an enumeration are pairs of label
/// and value.
pub enum KindView {
    Bool,
    Int,
    Float,
    Text,
    Enum(Seq<(Seq<char>, Seq<char>)>),
    PathFile,
    PathDir,
}

/// The model of a `Field`.
pub struct FieldView {
    pub label: Seq<char>,
    pub key_path: Seq<char>,
    pub help: Option<Seq<char>>,
    pub kind: KindView,
    pub default: DefaultView,
    pub min: Option<i64>,
    pub max: Option<i64>,
}

impl View for DefaultValue {
    type V = DefaultView;

    open spec fn view(&self) -> DefaultView {
        match self {
            DefaultValue::Null => DefaultView::Null,
            DefaultValue::Bool(b) => DefaultView::Bool(*b),
            DefaultValue::Int(n) => DefaultView::Int(*n),
            DefaultValue::Text(s) => DefaultView::Text(s@),
        }
    }
}

impl View for FieldKind {
    type V = KindView;

    open spec fn view(&self) -> KindView {
        match self {
            FieldKind::Bool => KindView::Bool,
            FieldKind::Int => KindView::Int,
            FieldKind::Float => KindView::Float,
            FieldKind::Text => KindView::Text,
            FieldKind::Enum(v) => KindView::Enum(
                v@.map_values(|o: EnumOption| (o.label@, o.value@)),
            ),
            FieldKind::PathFile => KindView::PathFile,
            FieldKind::PathDir => KindView::PathDir,
        }
    }
}

impl View for Field {
    type V = FieldView;

    open spec fn view(&self) -> FieldView {
        FieldView {
            label: self.label@,
            key_path: self.key_path@,
            help: match self.help {
                Some(h) => Some(h@),
                None => None,
            },
            kind: self.kind@,
            default: self.default@,
            min: self.min,
            max: self.max,
        }
    }
}

/// The models of fields.
pub open spec fn fields_view(s: Seq<Field>) -> Seq<FieldView> {
    s.map_values(|f: Field| f@)
}

/// A field.
pub open spec fn field_view(
    label: Seq<char>,
    key_path: Seq<char>,
    help: Option<Seq<char>>,
    kind: KindView,
    default: DefaultView,
    min: Option<i64>,
    max: Option<i64>,
) -> FieldView {
    FieldView { label, key_path, help, kind, default, min, max }
}

/// The JSON value of a default.
pub open spec fn default_json(d: DefaultView) -> JsonView {
    match d {
        DefaultView::Null => JsonView::Null,
        DefaultView::Bool(b) => JsonView::Bool(b),
        DefaultView::Int(n) => JsonView::Number(
            if n >= 0 {
                NumberView::Unsigned(n as u64)
            } else {
                NumberView::Negative(n)
            },
        ),
        DefaultView::Text(s) => JsonView::Text(s),
    }
}

impl DefaultValue {
    /// The JSON value of the default.
    pub fn to_json(self) -> (r: Json)
        ensures
            r@ == default_json(self@),
    {
        match self {
            DefaultValue::Null => Json::Null,
            DefaultValue::Bool(b) => Json::Bool(b),
            DefaultValue::Int(n) => Json::Number(
                if n >= 0 {
                    JsonNumber::Unsigned(n as u64)
                } else {
                    JsonNumber::Negative(n)
                },
            ),
            DefaultValue::Text(s) => Json::Text(owned(s)),
        }
    }
}

/// What an action may do to the brightness.
pub open spec fn brightness_options() -> Seq<(Seq<char>, Seq<char>)> {
    seq![
        ("None"@, "none"@),
        ("Set"@, "set"@),
        ("Increase"@, "increase"@),
        ("Decrease"@, "decrease"@),
    ]
}

fn make_brightness_options() -> (r: Vec<EnumOption>)
    ensures
        r@.map_values(|o: EnumOption| (o.label@, o.value@)) == brightness_options(),
{
    let mut v: Vec<EnumOption> = Vec::new();
    v.push(EnumOption { label: "None", value: "none" });
    v.push(EnumOption { label: "Set", value: "set" });
    v.push(EnumOption { label: "Increase", value: "increase" });
    v.push(EnumOption { label: "Decrease", value: "decrease" });
    assert(v@.map_values(|o: EnumOption| (o.label@, o.value@)) =~= brightness_options());
    v
}

/// The field of the counter actions.
pub open spec fn counter_fields() -> Seq<FieldView> {
    seq![
        field_view(
            "Step"@,
            "step"@,
            Some("Amount to add/subtract per press/turn."@),
            KindView::Int,
            DefaultView::Int(1),
            Some(1i64),
            None,
        ),
    ]
}

fn make_counter_fields() -> (r: Vec<Field>)
    ensures
        fields_view(r@) == counter_fields(),
{
    let mut v: Vec<Field> = Vec::new();
    v.push(
        Field {
            label: "Step",
            key_path: "step",
            help: Some("Amount to add/subtract per press/turn."),
            kind: FieldKind::Int,
            default: DefaultValue::Int(1),
            min: Some(1),
            max: None,
        },
    );
    assert(fields_view(v@) =~= counter_fields());
    v
}

/// The fields of the action that runs a command.
pub open spec fn run_command_fields() -> Seq<FieldView> {
    seq![
        field_view(
            "Key down"@,
            "down"@,
            None,
            KindView::Text,
            DefaultView::Text(""@),
            None,
            None,
        ),
        field_view(
            "Key up"@,
            "up"@,
            None,
            KindView::Text,
            DefaultView::Text(""@),
            None,
            None,
        ),
        field_view(
            "Dial rotate (encoder)"@,
            "rotate"@,
            Some("Use %d for ticks; negative is counterclockwise, positive is clockwise."@),
            KindView::Text,
            DefaultView::Text(""@),
            None,
            None,
        ),
        field_view(
            "Write to path"@,
            "file"@,
            None,
            KindView::Text,
            DefaultView::Text(""@),
            None,
            None,
        ),
        field_view(
            "Show on key"@,
            "show"@,
            None,
            KindView::Bool,
            DefaultView::Bool(false),
            None,
            None,
        ),
    ]
}

fn make_run_command_fields() -> (r: Vec<Field>)
    ensures
        fields_view(r@) == run_command_fields(),
{
    let mut v: Vec<Field> = Vec::new();
    v.push(
        Field {
            label: "Key down",
            key_path: "down",
            help: None,
            kind: FieldKind::Text,
            default: DefaultValue::Text(""),
            min: None,
            max: None,
        },
    );
    v.push(
        Field {
            label: "Key up",
            key_path: "up",
            help: None,
            kind: FieldKind::Text,
            default: DefaultValue::Text(""),
            min: None,
            max: None,
        },
    );
    v.push(
        Field {
            label: "Dial rotate (encoder)",
            key_path: "rotate",
            help: Some("Use %d for ticks; negative is counterclockwise, positive is clockwise."),
            kind: FieldKind::Text,
            default: DefaultValue::Text(""),
            min: None,
            max: None,
        },
    );
    v.push(
        Field {
            label: "Write to path",
            key_path: "file",
            help: None,
            kind: FieldKind::Text,
            default: DefaultValue::Text(""),
            min: None,
            max: None,
        },
    );
    v.push(
        Field {
            label: "Show on key",
            key_path: "show",
            help: None,
            kind: FieldKind::Bool,
            default: DefaultValue::Bool(false),
            min: None,
            max: None,
        },
    );
    assert(fields_view(v@) =~= run_command_fields());
    v
}

/// The fields of the action that simulates input.
pub open spec fn input_simulation_fields() -> Seq<FieldView> {
    seq![
        field_view(
            "Key down"@,
            "down"@,
            Some("Input to be executed on key down."@),
            KindView::Text,
            DefaultView::Text(""@),
            None,
            None,
        ),
        field_view(
            "Key up"@,
            "up"@,
            Some("Input to be executed on key up."@),
            KindView::Text,
            DefaultView::Text(""@),
            None,
            None,
        ),
        field_view(
            "Dial rotate anticlockwise (encoder)"@,
            "anticlockwise"@,
            Some("Input to be executed on dial rotate anticlockwise."@),
            KindView::Text,
            DefaultView::Text(""@),
            None,
            None,
        ),
        field_view(
            "Dial rotate clockwise (encoder)"@,
            "clockwise"@,
            Some("Input to be executed on dial rotate clockwise."@),
            KindView::Text,
            DefaultView::Text(""@),
            None,
            None,
        ),
    ]
}

fn make_input_simulation_fields() -> (r: Vec<Field>)
    ensures
        fields_view(r@) == input_simulation_fields(),
{
    let mut v: Vec<Field> = Vec::new();
    v.push(
        Field {
            label: "Key down",
            key_path: "down",
            help: Some("Input to be executed on key down."),
            kind: FieldKind::Text,
            default: DefaultValue::Text(""),
            min: None,
            max: None,
        },
    );
    v.push(
        Field {
            label: "Key up",
            key_path: "up",
            help: Some("Input to be executed on key up."),
            kind: FieldKind::Text,
            default: DefaultValue::Text(""),
            min: None,
            max: None,
        },
    );
    v.push(
        Field {
            label: "Dial rotate anticlockwise (encoder)",
            key_path: "anticlockwise",
            help: Some("Input to be executed on dial rotate anticlockwise."),
            kind: FieldKind::Text,
            default: DefaultValue::Text(""),
            min: None,
            max: None,
        },
    );
    v.push(
        Field {
            label: "Dial rotate clockwise (encoder)",
            key_path: "clockwise",
            help: Some("Input to be executed on dial rotate clockwise."),
            kind: FieldKind::Text,
            default: DefaultValue::Text(""),
            min: None,
            max: None,
        },
    );
    assert(fields_view(v@) =~= input_simulation_fields());
    v
}

/// The fields of the action that switches the profile.
pub open spec fn switch_profile_fields() -> Seq<FieldView> {
    seq![
        field_view(
            "Device ID"@,
            "device"@,
            Some("Defaults to the current device if empty."@),
            KindView::Text,
            DefaultView::Text(""@),
            None,
            None,
        ),
        field_view(
            "Profile"@,
            "profile"@,
            None,
            KindView::Text,
            DefaultView::Text("Default"@),
            None,
            None,
        ),
    ]
}

fn make_switch_profile_fields() -> (r: Vec<Field>)
    ensures
        fields_view(r@) == switch_profile_fields(),
{
    let mut v: Vec<Field> = Vec::new();
    v.push(
        Field {
            label: "Device ID",
            key_path: "device",
            help: Some("Defaults to the current device if empty."),
            kind: FieldKind::Text,
            default: DefaultValue::Text(""),
            min: None,
            max: None,
        },
    );
    v.push(
        Field {
            label: "Profile",
            key_path: "profile",
            help: None,
            kind: FieldKind::Text,
            default: DefaultValue::Text("Default"),
            min: None,
            max: None,
        },
    );
    assert(fields_view(v@) =~= switch_profile_fields());
    v
}

/// The fields of the action that sets the brightness.
pub open spec fn device_brightness_fields() -> Seq<FieldView> {
    seq![
        field_view(
            "Press action"@,
            "pressAction"@,
            Some("What happens when you press the key / dial."@),
            KindView::Enum(brightness_options()),
            DefaultView::Text("set"@),
            None,
            None,
        ),
        field_view(
            "Dial clockwise action"@,
            "clockwiseAction"@,
            Some("What happens when you rotate the dial clockwise (right)."@),
            KindView::Enum(brightness_options()),
            DefaultView::Text("increase"@),
            None,
            None,
        ),
        field_view(
            "Dial anticlockwise action"@,
            "anticlockwiseAction"@,
            Some("What happens when you rotate the dial anticlockwise (left)."@),
            KindView::Enum(brightness_options()),
            DefaultView::Text("decrease"@),
            None,
            None,
        ),
        field_view(
            "Set value (%)"@,
            "setValue"@,
            Some("Only used when the selected action is Set."@),
            KindView::Int,
            DefaultView::Int(50),
            Some(0i64),
            Some(100i64),
        ),
        field_view(
            "Step (%)"@,
            "step"@,
            Some("Only used when the selected action is Increase/Decrease."@),
            KindView::Int,
            DefaultView::Int(1),
            Some(1i64),
            Some(100i64),
        ),
    ]
}

fn make_device_brightness_fields() -> (r: Vec<Field>)
    ensures
        fields_view(r@) == device_brightness_fields(),
{
    let mut v: Vec<Field> = Vec::new();
    v.push(
        Field {
            label: "Press action",
            key_path: "pressAction",
            help: Some("What happens when you press the key / dial."),
            kind: FieldKind::Enum(make_brightness_options()),
            default: DefaultValue::Text("set"),
            min: None,
            max: None,
        },
    );
    v.push(
        Field {
            label: "Dial clockwise action",
            key_path: "clockwiseAction",
            help: Some("What happens when you rotate the dial clockwise (right)."),
            kind: FieldKind::Enum(make_brightness_options()),
            default: DefaultValue::Text("increase"),
            min: None,
            max: None,
        },
    );
    v.push(
        Field {
            label: "Dial anticlockwise action",
            key_path: "anticlockwiseAction",
            help: Some("What happens when you rotate the dial anticlockwise (left)."),
            kind: FieldKind::Enum(make_brightness_options()),
            default: DefaultValue::Text("decrease"),
            min: None,
            max: None,
        },
    );
    v.push(
        Field {
            label: "Set value (%)",
            key_path: "setValue",
            help: Some("Only used when the selected action is Set."),
            kind: FieldKind::Int,
            default: DefaultValue::Int(50),
            min: Some(0),
            max: Some(100),
        },
    );
    v.push(
        Field {
            label: "Step (%)",
            key_path: "step",
            help: Some("Only used when the selected action is Increase/Decrease."),
            kind: FieldKind::Int,
            default: DefaultValue::Int(1),
            min: Some(1),
            max: Some(100),
        },
    );
    assert(fields_view(v@) =~= device_brightness_fields());
    v
}

/// The title and the fields of the settings of an action; `None` where the host
/// does not know them.
pub open spec fn schema_of(action_uuid: Seq<char>) -> Option<(Seq<char>, Seq<FieldView>)> {
    let u = text::trimmed(action_uuid);
    if u == "me.amankhanna.oacounter.temporary"@ {
        Some(("Temporary Counter"@, counter_fields()))
    } else if u == "me.amankhanna.oacounter.persisted"@ {
        Some(("Persisted Counter"@, counter_fields()))
    } else if u == "io.github.sulrwin.riverdeck.starterpack.runcommand"@ {
        Some(("Run Command"@, run_command_fields()))
    } else if u == "io.github.sulrwin.riverdeck.starterpack.inputsimulation"@ {
        Some(("Input Simulation"@, input_simulation_fields()))
    } else if u == "io.github.sulrwin.riverdeck.starterpack.switchprofile"@ {
        Some(("Switch Profile"@, switch_profile_fields()))
    } else if u == "io.github.sulrwin.riverdeck.starterpack.devicebrightness"@ {
        Some(("Device Brightness"@, device_brightness_fields()))
    } else if u == "io.github.sulrwin.riverdeck.template.action"@ {
        Some(("Template Action"@, Seq::empty()))
    } else {
        None
    }
}

/// The settings of an action that the host can edit.
pub fn get_schema(action_uuid: &str) -> (r: Option<OptionsSchema>)
    ensures
        match r {
            Some(s) => schema_of(action_uuid@) == Some((s.title@, fields_view(s.fields@))),
            None => schema_of(action_uuid@) is None,
        },
{
    let u = trim(action_uuid);
    if same_text(&u, "me.amankhanna.oacounter.temporary") {
        Some(OptionsSchema { title: "Temporary Counter", fields: make_counter_fields() })
    } else if same_text(&u, "me.amankhanna.oacounter.persisted") {
        Some(OptionsSchema { title: "Persisted Counter", fields: make_counter_fields() })
    } else if same_text(&u, "io.github.sulrwin.riverdeck.starterpack.runcommand") {
        Some(OptionsSchema { title: "Run Command", fields: make_run_command_fields() })
    } else if same_text(&u, "io.github.sulrwin.riverdeck.starterpack.inputsimulation") {
        Some(OptionsSchema { title: "Input Simulation", fields: make_input_simulation_fields() })
    } else if same_text(&u, "io.github.sulrwin.riverdeck.starterpack.switchprofile") {
        Some(OptionsSchema { title: "Switch Profile", fields: make_switch_profile_fields() })
    } else if same_text(&u, "io.github.sulrwin.riverdeck.starterpack.devicebrightness") {
        Some(OptionsSchema { title: "Device Brightness", fields: make_device_brightness_fields() })
    } else if same_text(&u, "io.github.sulrwin.riverdeck.template.action") {
        let fields: Vec<Field> = Vec::new();
        assert(fields_view(fields@) =~= Seq::empty());
        Some(OptionsSchema { title: "Template Action", fields })
    } else {
        None
    }
}

// ---------------------------------------------------------------------------
// Paths
// ---------------------------------------------------------------------------

/// The parts of a path, trimmed.
pub open spec fn trimmed_parts(path: Seq<char>) -> Seq<Seq<char>> {
    text::split_on(text::trimmed(path), '.').map_values(|s: Seq<char>| text::trimmed(s))
}

/// The value at the parts `p` of a path; `None` where a part is empty or names
/// no field.
pub open spec fn value_at(j: JsonView, p: Seq<Seq<char>>) -> Option<JsonView>
    decreases p.len(),
{
    if p.len() == 0 {
        Some(j)
    } else if p[0].len() == 0 {
        None
    } else {
        match json::field_of(j, p[0]) {
            Some(v) => value_at(v, p.drop_first()),
            None => None,
        }
    }
}

/// The value at a path. A blank path means the whole.
pub open spec fn value_at_path(j: JsonView, path: Seq<char>) -> Option<JsonView> {
    if text::trimmed(path).len() == 0 {
        Some(j)
    } else {
        value_at(j, trimmed_parts(path))
    }
}

/// The value at a path.
pub fn get_by_path<'a>(root: &'a Json, path: &str) -> (r: Option<&'a Json>)
    ensures
        match r {
            Some(v) => value_at_path(root@, path@) == Some(v@),
            None => value_at_path(root@, path@) is None,
        },
{
    let t = trim(path);
    if t.as_str().is_empty() {
        return Some(root);
    }
    let parts = split(&t, '.');
    let ghost all = trimmed_parts(path@);
    assert(all.len() == parts@.len());
    let mut cur = root;
    let mut i: usize = 0;
    assert(all.skip(0) =~= all);
    while i < parts.len()
        invariant
            i <= parts@.len(),
            all == trimmed_parts(path@),
            text::texts(parts@) == text::split_on(text::trimmed(path@), '.'),
            text::trimmed(path@).len() > 0,
            all.len() == parts@.len(),
            value_at_path(root@, path@) == value_at(cur@, all.skip(i as int)),
        decreases parts@.len() - i,
    {
        let seg = trim(&parts[i]);
        assert(text::texts(parts@)[i as int] == parts@[i as int]@);
        assert(all.skip(i as int)[0] == seg@);
        assert(all.skip(i as int).drop_first() =~= all.skip(i + 1));
        if seg.as_str().is_empty() {
            return None;
        }
        match cur.get(&seg) {
            Some(v) => {
                cur = v;
            },
            None => {
                return None;
            },
        }
        i = i + 1;
    }
    assert(all.skip(i as int).len() == 0);
    Some(cur)
}

/// The parts among the first `n` that are not empty.
pub open spec fn non_empty(p: Seq<Seq<char>>, n: nat) -> Seq<Seq<char>>
    decreases n,
{
    if n == 0 || n > p.len() {
        Seq::empty()
    } else {
        let before = non_empty(p, (n - 1) as nat);
        if p[n - 1].len() == 0 {
            before
        } else {
            before.push(p[n - 1])
        }
    }
}

/// The fields with the value at the parts `p` set. Missing objects on the way
/// are created. `None` where a part on the way is there but no object.
pub open spec fn fields_with(
    o: Seq<(Seq<char>, JsonView)>,
    p: Seq<Seq<char>>,
    value: JsonView,
) -> Option<Seq<(Seq<char>, JsonView)>>
    decreases p.len(),
{
    if p.len() == 0 {
        None
    } else if p.len() == 1 {
        Some(json::with_field(o, p[0], value))
    } else {
        let child = match json::field_of(JsonView::Object(o), p[0]) {
            Some(v) => v,
            None => JsonView::Object(Seq::empty()),
        };
        match child {
            JsonView::Object(c) => match fields_with(c, p.drop_first(), value) {
                Some(n) => Some(json::with_field(o, p[0], JsonView::Object(n))),
                None => None,
            },
            _ => None,
        }
    }
}

/// The parts of the path that are set.
pub open spec fn set_parts(path: Seq<char>) -> Seq<Seq<char>> {
    non_empty(trimmed_parts(path), trimmed_parts(path).len())
}

/// The value with what is at the path set. A path without parts means the
/// whole. A root that is no object becomes one. `None` where a part on the way
/// is no object.
pub open spec fn with_value(root: JsonView, path: Seq<char>, value: JsonView) -> Option<JsonView> {
    if text::trimmed(path).len() == 0 || set_parts(path).len() == 0 {
        Some(value)
    } else {
        let fields = match root {
            JsonView::Object(o) => o,
            _ => Seq::empty(),
        };
        match fields_with(fields, set_parts(path), value) {
            Some(n) => Some(JsonView::Object(n)),
            None => None,
        }
    }
}

/// Sets the value at `parts[at..]`; returns whether that was possible.
fn set_in(o: &mut Vec<(String, Json)>, parts: &Vec<String>, at: usize, value: Json) -> (r: bool)
    requires
        at < parts@.len(),
    ensures
        ({
            let want = fields_with(
                json::fields_view(old(o)@),
                text::texts(parts@).skip(at as int),
                value@,
            );
            match want {
                Some(n) => r && json::fields_view(final(o)@) == n,
                None => !r && json::fields_view(final(o)@) == json::fields_view(old(o)@),
            }
        }),
    decreases parts@.len() - at,
{
    broadcast use json::lemma_json_view;

    let ghost rest = text::texts(parts@).skip(at as int);
    let ghost before = json::fields_view(o@);
    assert(rest[0] == parts@[at as int]@);
    if at == parts.len() - 1 {
        set_field(o, &parts[at], value);
        return true;
    }
    assert(rest.drop_first() =~= text::texts(parts@).skip(at + 1));
    let k = find_field(o, &parts[at]);
    let mut child: Vec<(String, Json)> = if k < o.len() {
        assert(before[k as int] == (o@[k as int].0@, o@[k as int].1@));
        match o[k].1.copy() {
            Json::Object(c) => c,
            _ => {
                return false;
            },
        }
    } else {
        let none: Vec<(String, Json)> = Vec::new();
        assert(json::fields_view(none@) =~= Seq::empty());
        none
    };
    if !set_in(&mut child, parts, at + 1, value) {
        return false;
    }
    set_field(o, &parts[at], Json::Object(child));
    true
}

/// Sets the value at a path, creating objects on the way where they are
/// missing.
pub fn set_by_path(root: &mut Json, path: &str, value: Json) -> (r: Result<(), &'static str>)
    ensures
        match with_value(old(root)@, path@, value@) {
            Some(n) => r is Ok && final(root)@ == n,
            None => r matches Err(e) && e@ == "intermediate path component is not an object"@
                && final(root)@ == old(root)@,
        },
{
    broadcast use json::lemma_json_view;

    let t = trim(path);
    if t.as_str().is_empty() {
        *root = value;
        return Ok(());
    }
    let pieces = split(&t, '.');
    let ghost all = trimmed_parts(path@);
    assert(all.len() == pieces@.len());
    let mut parts: Vec<String> = Vec::new();
    let mut i: usize = 0;
    assert(text::texts(parts@) =~= Seq::<Seq<char>>::empty());
    while i < pieces.len()
        invariant
            i <= pieces@.len(),
            all == trimmed_parts(path@),
            text::texts(pieces@) == text::split_on(text::trimmed(path@), '.'),
            all.len() == pieces@.len(),
            text::texts(parts@) == non_empty(all, i as nat),
        decreases pieces@.len() - i,
    {
        let seg = trim(&pieces[i]);
        assert(text::texts(pieces@)[i as int] == pieces@[i as int]@);
        assert(all[i as int] == seg@);
        if !seg.as_str().is_empty() {
            let ghost before = parts@;
            parts.push(seg);
            assert(text::texts(parts@) =~= text::texts(before).push(seg@));
        }
        i = i + 1;
    }
    assert(text::texts(parts@).len() == parts@.len());
    if parts.len() == 0 {
        *root = value;
        return Ok(());
    }
    let ghost fields0 = match root@ {
        JsonView::Object(o) => o,
        _ => Seq::empty(),
    };
    let mut fields: Vec<(String, Json)> = match root.copy() {
        Json::Object(o) => o,
        _ => Vec::new(),
    };
    assert(json::fields_view(fields@) =~= fields0);
    assert(text::texts(parts@).skip(0) =~= text::texts(parts@));
    if set_in(&mut fields, &parts, 0, value) {
        *root = Json::Object(fields);
        Ok(())
    } else {
        Err("intermediate path component is not an object")
    }
}

proof fn lemma_set_then_get(o: Seq<(Seq<char>, JsonView)>, p: Seq<Seq<char>>, value: JsonView)
    requires
        p.len() > 0,
        forall|i: int| 0 <= i < p.len() ==> (#[trigger] p[i]).len() > 0,
        fields_with(o, p, value) is Some,
    ensures
        value_at(JsonView::Object(fields_with(o, p, value)->0), p) == Some(value),
    decreases p.len(),
{
    let n = fields_with(o, p, value)->0;
    assert(p[0].len() > 0);
    if p.len() == 1 {
        json::lemma_field_after_set(o, p[0], value, Seq::empty());
        assert(value_at(value, p.drop_first()) == Some(value));
    } else {
        let child = match json::field_of(JsonView::Object(o), p[0]) {
            Some(v) => v,
            None => JsonView::Object(Seq::empty()),
        };
        let c = child->Object_0;
        let q = p.drop_first();
        assert forall|i: int| 0 <= i < q.len() implies (#[trigger] q[i]).len() > 0 by {
            assert(q[i] == p[i + 1]);
        }
        lemma_set_then_get(c, q, value);
        let m = fields_with(c, q, value)->0;
        json::lemma_field_after_set(o, p[0], JsonView::Object(m), Seq::empty());
    }
}

proof fn lemma_non_empty_all(p: Seq<Seq<char>>, n: nat)
    requires
        n <= p.len(),
        forall|i: int| 0 <= i < p.len() ==> (#[trigger] p[i]).len() > 0,
    ensures
        non_empty(p, n) == p.take(n as int),
    decreases n,
{
    if n > 0 {
        lemma_non_empty_all(p, (n - 1) as nat);
        assert(p[n - 1].len() > 0);
        assert(p.take(n as int) =~= p.take(n - 1).push(p[n - 1]));
    } else {
        assert(p.take(0) =~= Seq::empty());
    }
}

/// A value that was set at a path without empty parts is what is read at that
/// path.
pub proof fn law_set_then_get(root: JsonView, path: Seq<char>, value: JsonView)
    requires
        with_value(root, path, value) is Some,
        forall|i: int|
            0 <= i < trimmed_parts(path).len() ==> (#[trigger] trimmed_parts(path)[i]).len() > 0,
    ensures
        value_at_path(with_value(root, path, value)->0, path) == Some(value),
{
    let p = trimmed_parts(path);
    if text::trimmed(path).len() > 0 {
        text::lemma_split_on_step(text::trimmed(path), '.');
        assert(p.len() >= 1);
        lemma_non_empty_all(p, p.len());
        assert(p.take(p.len() as int) =~= p);
        let fields = match root {
            JsonView::Object(o) => o,
            _ => Seq::empty(),
        };
        lemma_set_then_get(fields, p, value);
    }
}

/// Setting a value leaves alone every field of the settings that its path does not
/// begin with.
pub proof fn law_set_keeps_other_fields(
    o: Seq<(Seq<char>, JsonView)>,
    p: Seq<Seq<char>>,
    value: JsonView,
    key: Seq<char>,
)
    requires
        p.len() > 0,
        p[0] != key,
        fields_with(o, p, value) is Some,
    ensures
        json::field_of(JsonView::Object(fields_with(o, p, value)->0), key) == json::field_of(
            JsonView::Object(o),
            key,
        ),
{
    if p.len() == 1 {
        json::lemma_field_after_set(o, p[0], value, key);
    } else {
        let child = match json::field_of(JsonView::Object(o), p[0]) {
            Some(v) => v,
            None => JsonView::Object(Seq::empty()),
        };
        if let JsonView::Object(c) = child {
            if let Some(n) = fields_with(c, p.drop_first(), value) {
                json::lemma_field_after_set(o, p[0], JsonView::Object(n), key);
            }
        }
    }
}

/// The settings that the host knows are those of its own actions and of the counters;
/// both counters have the same, and an action that it does not know has none.
pub proof fn law_known_settings(uuid: Seq<char>)
    requires
        text::trimmed(uuid) == uuid,
    ensures
        uuid == "me.amankhanna.oacounter.temporary"@ ==> (schema_of(uuid) matches Some(s) && s.1
            == counter_fields()),
        uuid == "me.amankhanna.oacounter.persisted"@ ==> (schema_of(uuid) matches Some(s) && s.1
            == counter_fields()),
        schema_of(uuid) is Some ==> uuid == "me.amankhanna.oacounter.temporary"@ || uuid
            == "me.amankhanna.oacounter.persisted"@ || uuid
            == "io.github.sulrwin.riverdeck.starterpack.runcommand"@ || uuid
            == "io.github.sulrwin.riverdeck.starterpack.inputsimulation"@ || uuid
            == "io.github.sulrwin.riverdeck.starterpack.switchprofile"@ || uuid
            == "io.github.sulrwin.riverdeck.starterpack.devicebrightness"@ || uuid
            == "io.github.sulrwin.riverdeck.template.action"@,
        counter_fields().len() == 1 && counter_fields()[0].key_path == "step"@,
{
}

/// A default is the value that it says.
pub proof fn law_default_values(n: i64, s: Seq<char>, b: bool)
    ensures
        default_json(DefaultView::Bool(b)) == JsonView::Bool(b),
        default_json(DefaultView::Text(s)) == JsonView::Text(s),
        default_json(DefaultView::Null) is Null,
        n >= 0 ==> json::json_u64(default_json(DefaultView::Int(n))) == Some(n as u64),
        n < 0 ==> default_json(DefaultView::Int(n)) == JsonView::Number(NumberView::Negative(n)),
{
}

/// One of some options has a value.
pub open spec fn offers(o: Seq<(Seq<char>, Seq<char>)>, value: Seq<char>) -> bool {
    exists|k: int| 0 <= k < o.len() && (#[trigger] o[k]).1 == value
}

proof fn lemma_offers(o: Seq<(Seq<char>, Seq<char>)>, k: int)
    requires
        0 <= k < o.len(),
    ensures
        offers(o, o[k].1),
{
}

/// The default of a field is a value that the field takes.
pub open spec fn takes_its_default(f: FieldView) -> bool {
    match f.kind {
        KindView::Bool => f.default is Bool,
        KindView::Int => f.default matches DefaultView::Int(n) && (f.min matches Some(m) ==> m <= n)
            && (f.max matches Some(m) ==> n <= m),
        KindView::Text => f.default is Text,
        KindView::Enum(o) => f.default matches DefaultView::Text(t) && offers(o, t),
        _ => true,
    }
}

/// A field has a name and a place, and takes its own default.
pub open spec fn is_usable(f: FieldView) -> bool {
    takes_its_default(f) && f.key_path.len() > 0 && f.label.len() > 0
}

/// Every field that the host shows has a name and a place in the settings, and takes
/// its own default.
pub proof fn law_fields_take_their_defaults(uuid: Seq<char>, k: int)
    ensures
        schema_of(uuid) matches Some(s) ==> 0 <= k < s.1.len() ==> is_usable(s.1[k]),
{
    lemma_command_fields(k);
    lemma_input_fields(k);
    lemma_profile_fields(k);
    lemma_brightness_fields(k);
}

#[verifier::rlimit(50)]
proof fn lemma_command_fields(k: int)
    ensures
        0 <= k < run_command_fields().len() ==> is_usable(run_command_fields()[k]),
        0 <= k < counter_fields().len() ==> is_usable(counter_fields()[k]),
{
    reveal_strlit("down");
    reveal_strlit("up");
    reveal_strlit("rotate");
    reveal_strlit("file");
    reveal_strlit("show");
    reveal_strlit("step");
    reveal_strlit("Step");
    reveal_strlit("Key down");
    reveal_strlit("Key up");
    reveal_strlit("Dial rotate (encoder)");
    reveal_strlit("Write to path");
    reveal_strlit("Show on key");
    let f = run_command_fields();
    assert(is_usable(f[0]));
    assert(is_usable(f[1]));
    assert(is_usable(f[2]));
    assert(is_usable(f[3]));
    assert(is_usable(f[4]));
    assert(is_usable(counter_fields()[0]));
}

#[verifier::rlimit(50)]
proof fn lemma_input_fields(k: int)
    ensures
        0 <= k < input_simulation_fields().len() ==> is_usable(input_simulation_fields()[k]),
{
    reveal_strlit("down");
    reveal_strlit("up");
    reveal_strlit("anticlockwise");
    reveal_strlit("clockwise");
    reveal_strlit("Key down");
    reveal_strlit("Key up");
    reveal_strlit("Dial rotate anticlockwise (encoder)");
    reveal_strlit("Dial rotate clockwise (encoder)");
    let f = input_simulation_fields();
    assert(is_usable(f[0]));
    assert(is_usable(f[1]));
    assert(is_usable(f[2]));
    assert(is_usable(f[3]));
}

proof fn lemma_profile_fields(k: int)
    ensures
        0 <= k < switch_profile_fields().len() ==> is_usable(switch_profile_fields()[k]),
{
    reveal_strlit("device");
    reveal_strlit("profile");
    reveal_strlit("Device ID");
    reveal_strlit("Profile");
    let f = switch_profile_fields();
    assert(is_usable(f[0]));
    assert(is_usable(f[1]));
}

#[verifier::rlimit(50)]
proof fn lemma_brightness_fields(k: int)
    ensures
        0 <= k < device_brightness_fields().len() ==> is_usable(device_brightness_fields()[k]),
{
    reveal_strlit("pressAction");
    reveal_strlit("clockwiseAction");
    reveal_strlit("anticlockwiseAction");
    reveal_strlit("setValue");
    reveal_strlit("step");
    reveal_strlit("Press action");
    reveal_strlit("Dial clockwise action");
    reveal_strlit("Dial anticlockwise action");
    reveal_strlit("Set value (%)");
    reveal_strlit("Step (%)");
    let o = brightness_options();
    assert(o[1].1 == "set"@ && o[2].1 == "increase"@ && o[3].1 == "decrease"@);
    let f = device_brightness_fields();
    lemma_offers(o, 1);
    lemma_offers(o, 2);
    lemma_offers(o, 3);
    assert(is_usable(f[0]));
    assert(is_usable(f[1]));
    assert(is_usable(f[2]));
    assert(is_usable(f[3]));
    assert(is_usable(f[4]));
}

} // verus!
