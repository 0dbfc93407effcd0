use riverdeck_core::audio::{
    handle_request, list_applications, method_of, mute_arguments, parse_sink_inputs, reply_id,
    volume_arguments, Call, CallResult, Method, Outcome, Reply,
};
use riverdeck_core::deck::{PlusDeviceState, PlusLayer};
use riverdeck_core::disk::{load_instance, store_instance};
use riverdeck_core::json::{parse_json, Json, JsonNumber};
use riverdeck_core::label::{ink, layout_label, Ink};
use riverdeck_core::manifest::{
    infer_name, synthesize_manifest_from_bundle, Bundle, Platform,
};
use riverdeck_core::manifest_text::{decode_manifest, decode_utf32, ManifestTextError};
use riverdeck_core::options_schema::{get_schema, set_by_path, FieldKind};
use riverdeck_core::plugins::Categories;
use riverdeck_core::profiles::{canonical_profile_id, get_instance_mut, new_profile, PluginFacts};
use riverdeck_core::shared::{
    builtin_category, default_selected_page, Action, ActionContext, ActionInstance, ActionState,
    Category, DeviceInfo, TextPlacement,
};
use riverdeck_core::stores::{ProfileStoreError, ProfileStores, Settings, SettingsSerde, ThemeId};
use riverdeck_core::webserver::{
    access_control_allow_origin_for, file_of_path, inspector_child_page, inspector_page, Served,
};

fn action(uuid: &str) -> Action {
    Action {
        name: "N".to_owned(),
        uuid: uuid.to_owned(),
        plugin: "p.sdPlugin".to_owned(),
        tooltip: String::new(),
        icon: "i.png".to_owned(),
        disable_automatic_states: false,
        visible_in_action_list: true,
        supported_in_multi_actions: true,
        property_inspector: String::new(),
        controllers: vec![],
        states: vec![],
    }
}

fn instance(index: u16, image: &str) -> ActionInstance {
    let mut state = ActionState::default();
    state.image = image.to_owned();
    ActionInstance {
        action: action("a"),
        context: ActionContext {
            device: "sd-1".to_owned(),
            profile: "Default".to_owned(),
            page: "1".to_owned(),
            controller: "Keypad".to_owned(),
            position: 0,
            index,
        },
        states: vec![state],
        current_state: 0,
        settings: Json::Null,
        children: None,
    }
}

fn bundle(files: &[&str]) -> Bundle {
    Bundle {
        plugin_id: Some("com.elgato.volume-controller.sdPlugin".to_owned()),
        localization: parse_json(
            br#"{"com.elgato.volume-controller.mute":{"Name":"Mute It","Tooltip":"Mutes"}}"#,
        ),
        root_names: vec!["ESDVolume".to_owned(), "ESDVolume.exe".to_owned()],
        files: files.iter().map(|f| (*f).to_owned()).collect(),
        placeholders: vec!["imgs/actions/mute/action.png".to_owned()],
        kinds: vec![("ESDVolume".to_owned(), "elf 64-bit lsb executable".to_owned())],
    }
}

#[test]
fn names_are_inferred() {
    assert_eq!(infer_name("com.elgato.volume-controller.sdPlugin"), "Volume Controller");
    assert_eq!(infer_name("x.\u{df}eta"), "SSeta");
}

#[test]
fn bundles_describe_their_actions() {
    let b = bundle(&[
        "plugin.js",
        "imgs/actions/mute/action.png",
        "imgs/actions/mute/key.png",
        "pi/mute/inspector.html",
        "icon.png",
    ]);
    let m = synthesize_manifest_from_bundle(&b, Platform::Linux);
    assert_eq!(m.name, "Volume Controller");
    assert_eq!(m.author, "Elgato");
    assert_eq!(m.icon, "icon.png");
    assert_eq!(m.code_path, Some("plugin.js".to_owned()));
    assert_eq!(m.os.len(), 3);
    assert_eq!(m.actions.len(), 1);
    assert_eq!(m.actions[0].uuid, "com.elgato.volume-controller.mute");
    assert_eq!(m.actions[0].name, "Mute It");
    assert_eq!(m.actions[0].icon, "imgs/actions/mute/key.png");
    assert_eq!(m.actions[0].property_inspector, "pi/mute/inspector.html");
}

#[test]
fn bundles_show_pixels_before_drawings() {
    let files = ["images/actions/mute.svg", "images/actions/mute.png"];
    let m = synthesize_manifest_from_bundle(&bundle(&files), Platform::Linux);
    assert_eq!(m.actions[0].icon, "images/actions/mute.png");
    assert_eq!(m.actions[0].states[0].image, "images/actions/mute.png");
    let m = synthesize_manifest_from_bundle(&bundle(&files[..1]), Platform::Linux);
    assert_eq!(m.actions[0].icon, "images/actions/mute.svg");
}

#[test]
fn bundles_run_what_fits_the_platform() {
    let mut two = bundle(&[]);
    two.root_names.push("ESDVolumeMac".to_owned());
    two.kinds.push(("ESDVolumeMac".to_owned(), "mach-o universal binary".to_owned()));
    let m = synthesize_manifest_from_bundle(&two, Platform::MacOs);
    assert_eq!(m.code_path_macos, Some("ESDVolumeMac".to_owned()));
    let b = bundle(&[]);
    let m = synthesize_manifest_from_bundle(&b, Platform::Linux);
    assert_eq!(m.code_path, Some("ESDVolume".to_owned()));
    assert_eq!(m.code_path_linux, Some("ESDVolume".to_owned()));
    assert_eq!(m.os[0].platform, "linux");
    let m = synthesize_manifest_from_bundle(&b, Platform::MacOs);
    assert_eq!(m.code_path, Some("ESDVolume.exe".to_owned()));
    assert_eq!(m.os[0].platform, "windows");
}

#[test]
fn wide_encodings_are_decoded() {
    let bytes = [0x7b, 0, 0, 0, 0xe9, 0, 0, 0];
    assert_eq!(decode_utf32(&bytes, 0, true).ok().unwrap(), "{\u{e9}");
    assert!(matches!(
        decode_utf32(&bytes[..6], 0, true),
        Err(ManifestTextError::InvalidUtf32Length)
    ));
    assert_eq!(decode_manifest(&[0xfe, 0xff, 0, b'{', 0, b'}']).ok().unwrap(), "{}");
    assert_eq!(decode_manifest(&[b'{', 0, b'}', 0]).ok().unwrap(), "{}");
    assert_eq!(decode_manifest(&[0, b'{', 0, b'}']).ok().unwrap(), "{}");
    assert_eq!(decode_manifest(&[b'{', 0, 0, 0, b'}', 0, 0, 0]).ok().unwrap(), "{}");
    assert_eq!(decode_manifest(&[0, 0, 0, b'{', 0, 0, 0, b'}']).ok().unwrap(), "{}");
    assert_eq!(decode_manifest(b"{}").ok().unwrap(), "{}");
    let long: Vec<u8> = "{\"Name\": \"Volume\"}".bytes().flat_map(|b| [b, 0]).collect();
    assert_eq!(decode_manifest(&long).ok().unwrap(), "{\"Name\": \"Volume\"}");
    assert_eq!(
        decode_manifest(&[b'{', 0, 0xe9, 0, b'}', 0]).ok().unwrap(),
        "{\u{e9}}"
    );
    assert!(matches!(decode_manifest(b"ELGATO\x00"), Err(ManifestTextError::Protected)));
    assert!(matches!(
        decode_manifest(&[0xef, 0xbb, 0xbf, 0xff]),
        Err(ManifestTextError::InvalidUtf8)
    ));
    assert!(matches!(
        decode_manifest(&[0xff, 0xfe, 0x00, 0xd8]),
        Err(ManifestTextError::InvalidUtf16)
    ));
    assert!(matches!(
        decode_manifest(&[0xff, 0xff, 0xff]),
        Err(ManifestTextError::UnsupportedEncoding)
    ));
}

#[test]
fn images_that_start_with_a_number_are_of_the_instance() {
    let mut d = store_instance(&instance(0, "x.png"), "/c", &vec![]);
    d.states[0].image = "\u{663}.png".to_owned();
    let i = load_instance(&d, "/c", "sd-1", "Default", "1", &vec![]);
    assert_eq!(i.states[0].image, "/c/images/sd-1/Default/Keypad.0.0/\u{663}.png");
    d.states[0].image = "a.png".to_owned();
    let i = load_instance(&d, "/c", "sd-1", "Default", "1", &vec![]);
    assert_eq!(i.states[0].image, "/c/a.png");
}

#[test]
fn labels_have_their_place() {
    let l = layout_label(72, 72, "A", TextPlacement::Bottom).unwrap();
    assert_eq!((l.scale, l.x, l.y, l.text_width, l.text_height), (1, 31, 62, 9, 8));
    let l = layout_label(72, 72, "Hello World", TextPlacement::Left).unwrap();
    assert_eq!(l.lines.len(), 7);
    assert_eq!(l.lines[6], vec!['\u{2026}']);
    assert_eq!((l.x, l.y, l.text_width, l.text_height), (4, 5, 8, 62));
    let l = layout_label(144, 144, "Mute", TextPlacement::Top).unwrap();
    assert_eq!((l.scale, l.y), (3, 2));
}

#[test]
fn labels_that_are_cut_end_in_dots() {
    let lines = |label: &str| -> Vec<String> {
        let l = layout_label(72, 72, label, TextPlacement::Top).unwrap();
        l.lines.iter().map(|x| x.iter().collect()).collect()
    };
    assert_eq!(lines("alpha beta gamma"), vec!["alpha", "beta..."]);
    assert_eq!(lines("alpha beta"), vec!["alpha", "beta"]);
    assert_eq!(lines("microphones everywhere"), vec!["microph", "ones..."]);
    assert_eq!(lines("abcdefghijklmnopqrst"), vec!["abcdefg", "hijk..."]);
}

#[test]
fn glyphs_are_drawn() {
    let l = layout_label(72, 72, "|", TextPlacement::Bottom).unwrap();
    let text: Vec<bool> = (0..8).map(|x| matches!(ink(&l, x, 0), Ink::Text)).collect();
    let expected = font8x8::UnicodeFonts::get(&font8x8::BASIC_FONTS, '|').unwrap()[0];
    let bits: Vec<bool> = (0..8).map(|c| (expected >> c) & 1 == 1).collect();
    assert_eq!(text, bits);
    assert!(text.contains(&true));
}

#[test]
fn schemas_name_their_fields() {
    let s = get_schema(" io.github.sulrwin.riverdeck.starterpack.devicebrightness ").unwrap();
    assert_eq!(s.title, "Device Brightness");
    let keys: Vec<&str> = s.fields.iter().map(|f| f.key_path).collect();
    assert_eq!(
        keys,
        vec!["pressAction", "clockwiseAction", "anticlockwiseAction", "setValue", "step"]
    );
    assert!(matches!(&s.fields[0].kind, FieldKind::Enum(o) if o.len() == 4));
    assert_eq!((s.fields[3].min, s.fields[3].max), (Some(0), Some(100)));
    assert!(matches!(
        s.fields[3].default.to_json(),
        Json::Number(JsonNumber::Unsigned(50))
    ));
    assert_eq!(get_schema("me.amankhanna.oacounter.temporary").unwrap().fields.len(), 1);
    assert_eq!(get_schema("io.github.sulrwin.riverdeck.template.action").unwrap().fields.len(), 0);
    let mut root = parse_json(br#"{"a":1}"#).unwrap();
    assert!(set_by_path(&mut root, "a.b", Json::Null).is_err());
    assert!(root.get("a").is_some());
    assert!(set_by_path(&mut root, " . ", Json::Bool(true)).is_ok());
    assert!(matches!(root, Json::Bool(true)));
}

#[test]
fn audio_calls_have_their_methods() {
    assert!(matches!(method_of("getApplicationInstanceCount"), Method::Count));
    assert!(matches!(method_of("setApplicationInstanceVolume"), Method::SetVolume));
    assert!(matches!(method_of("setApplicationInstanceMute"), Method::SetMute));
    assert_eq!(volume_arguments(3, 50), vec!["set-sink-input-volume", "3", "50%"]);
    assert_eq!(mute_arguments(3, false), vec!["set-sink-input-mute", "3", "0"]);
    assert!(matches!(reply_id(&Some(Json::Bool(true))), Json::Bool(true)));
    let sinks = parse_sink_inputs("Sink Input #1\n application.process.id = \"9\"\nSink Input #x\n");
    assert_eq!(sinks.len(), 1);
    let apps = list_applications(&sinks, &vec![(9, "player".to_owned())]);
    assert_eq!(apps[0].executable_file, "player");
    assert_eq!(apps[0].volume_percent, 100);
    let r = handle_request(Call::DefaultDevice, &apps, None);
    assert!(matches!(r, Outcome::Reply(Reply::Error(e)) if e.message == "No default device found"));
    let r = handle_request(Call::Count, &apps, None);
    assert!(matches!(r, Outcome::Reply(Reply::Result(CallResult::Count(c))) if c.count == 1));
}

#[test]
fn old_categories_are_merged() {
    let category = |uuid: &str| Category { icon: None, actions: vec![action(uuid)] };
    let mut c = Categories {
        list: vec![
            ("OpenDeck".to_owned(), category("a")),
            ("RiverDeck".to_owned(), category("b")),
        ],
    };
    c.merge_legacy_category("RiverDeck");
    assert_eq!(c.list.len(), 1);
    let uuids: Vec<&str> = c.list[0].1.actions.iter().map(|a| a.uuid.as_str()).collect();
    assert_eq!(uuids, vec!["b", "a"]);
    let b = builtin_category();
    assert_eq!(b.actions[0].uuid, "riverdeck.multiaction");
    assert_eq!(b.actions[1].states[0].image, "riverdeck/toggle-action.png");
    assert!(!b.actions[1].supported_in_multi_actions);
}

#[test]
fn open_profiles_can_be_changed() {
    let device = DeviceInfo {
        id: "sd-1".to_owned(),
        plugin: String::new(),
        name: String::new(),
        rows: 1,
        columns: 2,
        encoders: 0,
        device_type: 0,
        screen: None,
    };
    let facts = PluginFacts { installed: vec![], registered: vec![], known_actions: vec![] };
    let mut stores = ProfileStores::new();
    assert!(stores.open_profile(&device, "A", new_profile("A"), &facts).is_ok());
    assert!(stores.open_profile(&device, "../A", new_profile("A"), &facts).is_err());
    if let Ok(p) = stores.get_profile_store_mut("sd-1", "A") {
        p.selected_page = "7".to_owned();
    }
    assert!(matches!(stores.get_profile_store("sd-1", "A"), Ok(p) if p.selected_page == "7"));
    assert!(matches!(
        stores.get_profile_store_mut("sd-1", "B"),
        Err(ProfileStoreError::NotFound)
    ));
    assert_eq!(canonical_profile_id("sd-1", "x/A"), "sd-1/x/A");
    assert_eq!(default_selected_page(), "1");
}

#[test]
fn instances_can_be_changed_in_their_slot() {
    let mut parent = instance(0, "x.png");
    parent.children = Some(vec![instance(1, "y.png")]);
    let context = parent.children.as_ref().unwrap()[0].context.copy();
    let mut slot = Some(parent);
    if let Some(i) = get_instance_mut(&mut slot, &context) {
        i.current_state = 3;
    }
    let children = slot.as_ref().unwrap().children.as_ref().unwrap();
    assert_eq!(children[0].current_state, 3);
    let mut elsewhere = context.copy();
    elsewhere.index = 9;
    assert!(get_instance_mut(&mut slot, &elsewhere).is_none());
}

fn read_settings(theme: Option<&str>, dark: Option<bool>) -> Settings {
    Settings::from_disk(SettingsSerde {
        version: "1".to_owned(),
        language: "de".to_owned(),
        brightness: 7,
        theme: theme.map(|t| ThemeId(t.to_owned())),
        darktheme: dark,
        background: true,
        autolaunch: true,
        screensaver: false,
        updatecheck: true,
        statistics: false,
        separatewine: true,
        developer: false,
        disableelgato: true,
        disabled_plugins: vec!["p".to_owned()],
    })
}

#[test]
fn old_themes_are_taken_over() {
    assert_eq!(read_settings(None, Some(false)).theme.0, "river-light");
    assert_eq!(read_settings(None, Some(true)).theme.0, "river-dark");
    assert_eq!(read_settings(None, None).theme.0, "river-dark");
    let s = read_settings(Some("other"), Some(true));
    assert_eq!(s.theme.0, "other");
    assert!(!s.darktheme);
    assert_eq!(s.disabled_plugins, vec!["p"]);
}

#[test]
fn pages_of_inspectors_are_completed() {
    assert_eq!(inspector_page("a", "b"), "ab");
    assert_eq!(
        inspector_child_page("x"),
        "<script>window.opener ??= window.parent;</script>x"
    );
    let (file, served) = file_of_path("/a/pi.html|riverdeck_property_inspector");
    assert_eq!(file, "/a/pi.html");
    assert!(matches!(served, Served::Inspector));
    let here = Some("http://127.0.0.1:1".to_owned());
    assert_eq!(access_control_allow_origin_for(&here), here);
    assert_eq!(access_control_allow_origin_for(&Some("https://x".to_owned())), None);
    assert_eq!(access_control_allow_origin_for(&None), None);
}

#[test]
fn a_task_that_ends_can_be_claimed_again() {
    let mut s = PlusDeviceState::new(1);
    let g = s.set_background(PlusLayer::Empty);
    assert!(s.claim_task(g));
    s.release_task();
    assert!(s.claim_task(g));
}
