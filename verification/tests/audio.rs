use riverdeck_core::audio::{
    device_mute_arguments, device_volume_arguments, effect_arguments, finish_request, get_app_mute,
    get_app_volume, get_device, get_device_mute, get_device_volume, get_sink_input_by_pid,
    get_system_default_device, handle_request, list_applications, method_of, mute_arguments, parse_sink_inputs, reply_id, volume_arguments,
    ActivityState, AudioDevice, Call, CallResult, Effect, GetApplicationInstanceAtIndexParams,
    GetApplicationInstanceParams, Method, Outcome, Reply, SetApplicationMuteParams,
};
use riverdeck_core::json::{parse_json, Json};
use riverdeck_core::options_schema::{get_by_path, get_schema, set_by_path, DefaultValue};
use riverdeck_core::shared::{
    convert_icon, discover_paths, get_build_info, icon_candidates, init_paths, is_flatpak, join,
    Paths,
};

const LISTING: &str = "Sink Input #7
\tMute: yes
\tCorked: no
\tVolume: 0: 50% 1: 60%
\tProperties:
\t\tapplication.name = \"Player\"
\t\tapplication.process.id = \"321\"
Sink Input #9
\tMute: no
\tCorked: yes
\tVolume: front-left: 65536 / 100% / 0.00 dB
\tProperties:
\t\tapplication.name = \"Game\"
\t\tapplication.process.id = \"654\"
";

#[test]
fn sink_inputs_are_read() {
    let sinks = parse_sink_inputs(LISTING);
    assert_eq!(sinks.len(), 2);
    assert_eq!(sinks[0].index, 7);
    assert_eq!(sinks[0].pid, Some(321));
    assert_eq!(sinks[0].volume_percent, 50);
    assert_eq!(sinks[1].volume_percent, 100);
    assert!(sinks[0].mute);
    assert!(!sinks[0].corked && sinks[1].corked);
    assert_eq!(get_sink_input_by_pid(&sinks, 654).unwrap().index, 9);
    assert!(get_sink_input_by_pid(&sinks, 1).is_none());
}

fn device(id: &str, default: bool) -> AudioDevice {
    AudioDevice {
        id: id.to_owned(),
        friendly_name: id.to_owned(),
        volume_percent: 40,
        mute: false,
        is_default: default,
        is_default_communication: false,
    }
}

#[test]
fn volumes_are_looked_up() {
    let sinks = parse_sink_inputs(LISTING);
    assert_eq!(get_app_volume(&sinks, 321), Some(50));
    assert_eq!(get_app_mute(&sinks, 321), Some(true));
    assert_eq!(get_app_mute(&sinks, 654), Some(false));
    assert_eq!(get_app_volume(&sinks, 1), None);
    assert_eq!(get_app_mute(&sinks, 1), None);
    let mut devices = vec![device("a", false), device("b", true)];
    devices[1].mute = true;
    devices[1].volume_percent = 75;
    assert_eq!(get_device(&devices, "b").unwrap().friendly_name, "b");
    assert_eq!(get_device_volume(&devices, "b"), Some(75));
    assert_eq!(get_device_mute(&devices, "b"), Some(true));
    assert_eq!(get_device_volume(&devices, "a"), Some(40));
    assert_eq!(get_device_volume(&devices, "c"), None);
    assert_eq!(get_device_mute(&devices, "c"), None);
    assert_eq!(device_volume_arguments("b", 75), vec!["set-sink-volume", "b", "75%"]);
    assert_eq!(device_mute_arguments("b", true), vec!["set-sink-mute", "b", "1"]);
    assert_eq!(device_mute_arguments("b", false), vec!["set-sink-mute", "b", "0"]);
}

#[test]
fn requests_are_answered() {
    let apps = list_applications(&parse_sink_inputs(LISTING), &vec![(321, "/bin/player".to_owned())]);
    assert_eq!(apps.len(), 2);
    assert_eq!(ActivityState::Active.number(), 0);
    let r = handle_request(Call::Count, &apps, None);
    assert!(matches!(r, Outcome::Reply(Reply::Result(CallResult::Count(c))) if c.count == 2));
    let r = handle_request(
        Call::Instance(Ok(GetApplicationInstanceParams { process_id: 321 })),
        &apps,
        None,
    );
    assert!(
        matches!(r, Outcome::Reply(Reply::Result(CallResult::Application(a))) if a.display_name == "Player")
    );
    let r = handle_request(
        Call::InstanceAtIndex(Ok(GetApplicationInstanceAtIndexParams { index: 9 })),
        &apps,
        None,
    );
    assert!(matches!(r, Outcome::Reply(Reply::Error(_))));
    let r = handle_request(Call::Unknown("x".to_owned()), &apps, None);
    assert!(matches!(r, Outcome::Reply(Reply::Error(e)) if e.code == -32601));
    let r = handle_request(Call::Instance(Err("bad".to_owned())), &apps, None);
    assert!(matches!(r, Outcome::Reply(Reply::Error(e)) if e.code == -32602));
    let r = handle_request(
        Call::SetMute(Ok(SetApplicationMuteParams { process_id: 321, mute: true })),
        &apps,
        None,
    );
    let Outcome::Effect(effect) = r else { panic!("no effect") };
    assert!(matches!(&effect, Effect::SetMute(p) if p.mute));
    assert!(matches!(finish_request(&effect, &Ok(())), Reply::Result(CallResult::Done)));
    assert!(matches!(finish_request(&effect, &Err("no".to_owned())), Reply::Error(_)));
    assert!(matches!(method_of("nothing"), Method::Unknown));
    let sinks = parse_sink_inputs(LISTING);
    let args = effect_arguments(&sinks, &effect, 0).ok().unwrap();
    assert_eq!(args, vec!["set-sink-input-mute", "7", "1"]);
    let gone = Effect::SetMute(SetApplicationMuteParams { process_id: 1, mute: true });
    assert_eq!(
        effect_arguments(&sinks, &gone, 0).err().unwrap(),
        "Application with PID 1 not found"
    );
}

#[test]
fn the_default_device_is_found() {
    let d = vec![device("a", false), device("b", true)];
    assert_eq!(get_system_default_device(&d).unwrap().id, "b");
    assert!(get_system_default_device(&vec![]).is_none());
    let v = volume_arguments(7, 30);
    assert!(v.contains(&"7".to_owned()));
    assert!(v.contains(&"30%".to_owned()));
    assert_eq!(mute_arguments(7, true).last().unwrap(), "1");
    assert!(matches!(reply_id(&None), Json::Null));
}

#[test]
fn options_that_are_set_are_read() {
    let mut root = parse_json(br#"{"a":{"b":1}}"#).unwrap();
    assert!(set_by_path(&mut root, "a.c.d", Json::Bool(true)).is_ok());
    assert!(matches!(get_by_path(&root, "a.c.d"), Some(Json::Bool(true))));
    assert!(get_by_path(&root, "a.b").is_some());
    assert!(get_by_path(&root, "a.x").is_none());
    assert!(matches!(DefaultValue::Bool(true).to_json(), Json::Bool(true)));
    assert!(get_schema("no.such.action").is_none());
}

#[test]
fn paths_are_set_once() {
    let p = discover_paths("/cfg", "/data");
    let mut cell: Option<Paths> = None;
    let config = p.config_dir.clone();
    init_paths(&mut cell, p);
    init_paths(&mut cell, discover_paths("/x", "/y"));
    assert_eq!(cell.unwrap().config_dir, config);
    assert_eq!(join("/a", "b"), "/a/b");
    assert_eq!(join("/a/", "b"), "/a/b");
    assert_eq!(join("/a", "/b"), "/b");
    assert!(is_flatpak(true, &None));
    assert!(!is_flatpak(false, &None));
    assert_eq!(get_build_info("RiverDeck", "1.2.3", "linux"), "RiverDeck v1.2.3 (linux)");
}

#[test]
fn icons_have_variants() {
    assert_eq!(convert_icon("x.PNG", &vec![]), "x.PNG");
    assert_eq!(convert_icon("x", &vec![]), "x.png");
    assert_eq!(convert_icon("x", &vec!["x.jpg".to_owned()]), "x.jpg");
    assert_eq!(
        convert_icon("x", &vec!["x.svg".to_owned(), "x@2x.png".to_owned()]),
        "x@2x.png"
    );
    assert_eq!(icon_candidates("x")[0], "x@2x.png");
}
