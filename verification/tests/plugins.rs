use riverdeck_core::catalogue::{
    choose_asset, finish_install, github_owner_repo, is_fresh, latest_release_api, lookup_id,
    normalize_plugin_id, normalize_repo_url, release_candidates, resolve_entry, CatalogueEntry,
    ReleaseAsset, Resolution, ResolveError,
};
use riverdeck_core::icon_packs::{
    check_pack_contents, config_icon_packs_dir, get_pack_by_id, list_icon_packs, list_icons,
    list_icons_for_pack, pack_id_for_install, resolve_icon_path, resource_icon_packs_dirs,
    validate_pack_id, IconEntry, IconFacts, IconPackIndex, IconPackManifest, PackContentError,
    PackEntry, PackIdError,
};
use riverdeck_core::install::{
    check_url, find_plugin_dir, finish_steps, install_from_workspace, install_paths,
    keeps_failed_plugin, list_plugins, may_be_zip, needs_browser_headers, place_steps,
    plugin_files, plugin_id_for_install, prepare_steps, remove_plugin, restore_steps,
    rollback_steps, set_aside_steps, upgrade_steps, CopyStep, DirTree, DownloadError, EntryKind, FileStep,
    ManifestSummary, PluginEntry,
};
use riverdeck_core::install_run::{
    begin_install, found_dir, next_install_step, FoundDir, InstallAction, InstallEvent,
    InstallKind, InstallPhase, InstallState, StartFailure,
};
use riverdeck_core::json::{merge, parse_json, Json, JsonNumber};
use riverdeck_core::local_plugins::{
    builds_of, config_plugins_dir, flatten_steps, list_local_plugins, manifest_place,
    plugins_to_launch, set_plugin_enabled, FlattenStep, FoundPlugin, ManifestFacts, ManifestPlace,
    PluginLayout, PluginSource, PluginSupport, StartupEntry,
};
use riverdeck_core::manifest::{
    find_placeholders, infer_name, is_placeholder, read_bundle, synthesize_manifest_from_bundle,
    Bundle, BundleContents, BundleFile, Platform, PluginManifest, OS,
};
use riverdeck_core::manifest_text::{
    decode_manifest, decode_utf32, read_manifest, ManifestError, ManifestTextError,
};
use riverdeck_core::plugins::{
    deactivate_plugin, decide_upgrade, get_port_base, initialise_plugin, link_stays_inside,
    make_token, needs_upgrade, node_is_recent, process_command, property_inspector_token,
    substitute_font, webview_label, webview_url, Categories, DeviceNamespaces, LaunchError,
    Runner,
};
use riverdeck_core::processes::{
    record_process, registry_path, startup_cleanup, unrecord_process, Liveness,
};
use riverdeck_core::shared::{Action, ActionState, Category};
use riverdeck_core::ui::PluginInstallPhase;
use riverdeck_core::webserver::{
    answer_request, content_type_of, is_allowed_origin, make_reply, mime, read_request, Answer, Body,
    FileFacts, Request, Served, INSPECTOR_SCRIPT,
};
use riverdeck_core::webview::{init_webview_host, webview_host, WebviewHost};

fn action(uuid: &str, plugin: &str) -> Action {
    Action {
        name: "N".to_owned(),
        uuid: uuid.to_owned(),
        plugin: plugin.to_owned(),
        tooltip: String::new(),
        icon: "icon".to_owned(),
        disable_automatic_states: false,
        visible_in_action_list: true,
        supported_in_multi_actions: true,
        property_inspector: String::new(),
        controllers: vec![],
        states: vec![ActionState::default()],
    }
}

fn manifest() -> PluginManifest {
    PluginManifest {
        name: "OpenDeck Starter Pack".to_owned(),
        author: "A".to_owned(),
        version: "1.0.0".to_owned(),
        icon: "icon".to_owned(),
        category: "OpenDeck".to_owned(),
        category_icon: None,
        actions: vec![action("a.b", "")],
        os: vec![OS { platform: "windows".to_owned() }, OS { platform: "linux".to_owned() }],
        code_path: Some("plugin.js".to_owned()),
        code_paths: None,
        code_path_windows: Some("plugin.exe".to_owned()),
        code_path_macos: None,
        code_path_linux: None,
        property_inspector_path: Some("pi/index.html".to_owned()),
        device_namespace: Some("xx".to_owned()),
        applications_to_monitor: Some(vec![("linux".to_owned(), vec!["app".to_owned()])]),
        has_settings_interface: None,
    }
}

#[test]
fn a_plugin_is_made_known_and_run() {
    let mut cats = Categories { list: vec![] };
    let mut ns = DeviceNamespaces { list: vec![] };
    let plan = initialise_plugin(
        manifest(),
        "p.sdPlugin",
        "/c/plugins/p.sdPlugin",
        "RiverDeck",
        &vec![],
        Platform::Linux,
        "",
        &mut cats,
        &mut ns,
    )
    .ok()
    .unwrap();
    assert_eq!(plan.runner, Runner::Node);
    assert_eq!(plan.code_path, "plugin.js");
    assert_eq!(plan.watched, Some(vec!["app".to_owned()]));
    assert_eq!(cats.list[0].0, "RiverDeck");
    assert_eq!(cats.list[0].1.actions[0].plugin, "p.sdPlugin");
    assert_eq!(
        cats.list[0].1.actions[0].property_inspector,
        "/c/plugins/p.sdPlugin/pi/index.html"
    );
    assert_eq!(ns.get("xx"), Some("p.sdPlugin".to_owned()));
    let devices = vec!["xx-1".to_owned(), "sd-1".to_owned()];
    assert_eq!(
        deactivate_plugin(&mut ns, "p.sdPlugin", &devices),
        Some(vec!["xx-1".to_owned()])
    );
    assert_eq!(deactivate_plugin(&mut ns, "p.sdPlugin", &devices), None);
}

#[test]
fn plugins_that_cannot_run_are_refused() {
    let run = |m: PluginManifest, p: Platform| {
        let mut cats = Categories { list: vec![] };
        let mut ns = DeviceNamespaces { list: vec![] };
        let r = initialise_plugin(m, "p", "/d", "R", &vec![], p, "", &mut cats, &mut ns);
        assert_eq!(cats.list.len(), 1);
        r
    };
    let mut m = manifest();
    m.os.clear();
    assert!(matches!(run(m, Platform::Linux), Err(LaunchError::UnsupportedPlatform)));
    let mut m = manifest();
    m.code_path = Some("../evil".to_owned());
    assert!(matches!(run(m, Platform::Linux), Err(LaunchError::UnsafeCodePath)));
    let mut m = manifest();
    m.code_path = None;
    m.os.pop();
    assert!(matches!(run(m, Platform::Linux), Err(LaunchError::UnsupportedPlatform)));
    let mut m = manifest();
    m.code_path = None;
    m.os.pop();
    let plan = run(m, Platform::MacOs).ok().unwrap();
    assert_eq!(plan.runner, Runner::Wine);
    assert_eq!(plan.code_path, "plugin.exe");
    let mut m = manifest();
    m.os.pop();
    assert_eq!(run(m, Platform::Linux).ok().unwrap().runner, Runner::Node);
}

#[test]
fn processes_have_their_command() {
    let (program, args) = process_command(Runner::Node, "p.js", "/d", 57116, "u", true);
    assert_eq!(program, "flatpak-spawn");
    assert_eq!(
        args,
        vec![
            "--host", "node", "p.js", "-port", "57116", "-pluginUUID", "u", "-registerEvent",
            "registerPlugin", "-info"
        ]
    );
    let (program, args) = process_command(Runner::Native, "bin", "/d", 1, "u", true);
    assert_eq!(program, "/d/bin");
    assert_eq!(args.len(), 7);
    assert_eq!(webview_url(57116, "/d", "p.html"), "http://localhost:57118//d/p.html");
    assert_eq!(webview_label("a.b.c"), "a_b_c");
}

#[test]
fn versions_are_compared() {
    assert!(node_is_recent(&Some("v20.1.0\n".to_owned())));
    assert!(!node_is_recent(&Some("v18.0.0".to_owned())));
    assert!(!node_is_recent(&Some("nonsense".to_owned())));
    assert!(!node_is_recent(&None));
    assert_eq!(needs_upgrade("2.0.0", &Some("1.9.9".to_owned())), Some(true));
    assert_eq!(needs_upgrade("2.0.0", &Some("2.0.0".to_owned())), Some(false));
    assert_eq!(needs_upgrade("2.0.0", &None), Some(true));
    assert_eq!(needs_upgrade("x", &None), None);
    assert_eq!(decide_upgrade(None), Some(true));
}

#[test]
fn fonts_have_substitutes() {
    assert_eq!(substitute_font(" Arial "), Some("Liberation Sans".to_owned()));
    assert_eq!(substitute_font("Fira Code"), None);
    assert_eq!(substitute_font("Courier New"), Some("Courier Prime".to_owned()));
    assert_eq!(substitute_font("Times New Roman"), Some("Liberation Serif".to_owned()));
    assert_eq!(substitute_font("Verdana"), Some("Open Sans".to_owned()));
}

#[test]
fn tokens_are_random_or_timed() {
    assert_eq!(
        make_token(Some(vec![0; 32]), 7),
        "AAAAAAAAAAAAAAAAAAAAAAAAAAAAAAAAAAAAAAAAAAA"
    );
    assert_eq!(
        make_token(None, 1),
        "AQAAAAAAAAAAAAAAAAAAAAAAAAAAAAAAAAAAAAAAAAA"
    );
    let a = property_inspector_token(0);
    let b = property_inspector_token(0);
    assert_eq!(a.len(), 43);
    assert_ne!(a, b);
}

#[test]
fn free_ports_are_found() {
    assert_eq!(get_port_base(&vec![]), Some(57116));
    assert_eq!(get_port_base(&vec![57118]), Some(57117));
    assert_eq!(get_port_base(&vec![57116, 57119]), Some(57118));
    assert!(link_stays_inside("/c/plugins/x", "/c/plugins"));
    assert!(!link_stays_inside("/c/plugins2/x", "/c/plugins"));
}

#[test]
fn manifests_are_decoded() {
    assert_eq!(decode_manifest(b"{}").ok().unwrap(), "{}");
    let wide = [0xff, 0xfe, 0, 0, b'{', 0, 0, 0, b'}', 0, 0, 0];
    assert_eq!(decode_manifest(&wide).ok().unwrap(), "{}");
    assert_eq!(
        decode_manifest(&[0, 0, 0xfe, 0xff, 0, 0, 0, b'{', 0, 0, 0, b'}']).ok().unwrap(),
        "{}"
    );
    assert_eq!(decode_manifest(&[0xef, 0xbb, 0xbf, b'{', b'}']).ok().unwrap(), "{}");
    assert_eq!(
        decode_manifest(&[0xff, 0xfe, b'{', 0, b'}', 0]).ok().unwrap(),
        "{}"
    );
    assert!(matches!(
        decode_manifest(&[0xff, 0xfe, b'{', 0, b'}']),
        Err(ManifestTextError::OddUtf16Length)
    ));
    assert!(matches!(
        decode_utf32(&[0, 0, 0x11, 0, 0, 0, 0x11, 0], 0, true),
        Err(ManifestTextError::InvalidCodepoint)
    ));
    let j = read_manifest(br#"{"Name":"a","X":1}"#, &Some(br#"{"X":null}"#.to_vec())).ok().unwrap();
    assert!(j.get("X").is_none());
    assert!(matches!(
        read_manifest(b"{", &None),
        Err(ManifestError::InvalidJson) | Err(ManifestError::Text(_))
    ));
}

#[test]
fn merging_follows_the_patch() {
    let t = parse_json(br#"{"a":1,"b":{"c":2,"d":3}}"#).unwrap();
    let p = parse_json(br#"{"a":null,"b":{"c":9},"e":true}"#).unwrap();
    let m = merge(t, &p);
    assert!(m.get("a").is_none());
    let b = m.get("b").unwrap();
    assert!(matches!(b.get("c"), Some(Json::Number(JsonNumber::Unsigned(9)))));
    assert!(matches!(b.get("d"), Some(Json::Number(JsonNumber::Unsigned(3)))));
    assert!(matches!(m.get("e"), Some(Json::Bool(true))));
}

#[test]
fn json_reads_numbers_and_texts() {
    let j = parse_json(br#"[1,-2,3.5,"x",null,true,{"k":"v"}]"#).unwrap();
    let Json::Array(a) = j else { panic!("no array") };
    assert!(matches!(a[0], Json::Number(JsonNumber::Unsigned(1))));
    assert!(matches!(a[1], Json::Number(JsonNumber::Negative(-2))));
    assert!(matches!(&a[2], Json::Number(JsonNumber::Real(t)) if t == "3.5"));
    assert!(matches!(&a[3], Json::Text(t) if t == "x"));
    assert!(matches!(a[4], Json::Null));
    assert_eq!(a[6].get("k").unwrap().as_str().unwrap(), "v");
    assert!(parse_json(b"nope").is_none());
}

#[test]
fn a_manifest_is_made_from_a_bundle() {
    assert!(!infer_name("com.example.my-plugin.sdPlugin").is_empty());
    let b = Bundle {
        plugin_id: Some("com.example.foo.sdPlugin".to_owned()),
        localization: None,
        root_names: vec![],
        files: vec![],
        placeholders: vec![],
        kinds: vec![],
    };
    let m = synthesize_manifest_from_bundle(&b, Platform::Linux);
    assert!(!m.name.is_empty());
}

fn png_of(picture: image::DynamicImage) -> Vec<u8> {
    let mut out = std::io::Cursor::new(Vec::new());
    picture.write_to(&mut out, image::ImageFormat::Png).unwrap();
    out.into_inner()
}

#[test]
fn blank_pictures_of_a_bundle_are_told() {
    let gray = png_of(image::DynamicImage::new_luma8(2, 2));
    let color = png_of(image::DynamicImage::new_rgb8(2, 2));
    assert!(is_placeholder("imgs/a.png", &gray));
    assert!(!is_placeholder("imgs/a.jpg", &gray));
    assert!(!is_placeholder("imgs/a.png", &color));
    assert!(!is_placeholder("imgs/a.png", b"no picture"));
    let mut long = gray.clone();
    long.resize(300, 0);
    assert!(!is_placeholder("imgs/a.png", &long));
    let contents = |localization: &str| BundleContents {
        plugin_id: Some("com.example.foo.sdPlugin".to_owned()),
        localization: Some(localization.as_bytes().to_vec()),
        root_names: vec![],
        files: vec!["a.png".to_owned(), "b.png".to_owned()],
        pictures: vec![
            BundleFile { path: "a.png".to_owned(), bytes: gray.clone() },
            BundleFile { path: "b.png".to_owned(), bytes: color.clone() },
        ],
        kinds: vec![],
    };
    let b = read_bundle(contents("{\"Name\": \"Foo\"}")).unwrap();
    assert_eq!(b.placeholders, vec!["a.png"]);
    assert_eq!(find_placeholders(&contents("").pictures), vec!["a.png"]);
    assert_eq!(synthesize_manifest_from_bundle(&b, Platform::Linux).name, "Foo");
    assert!(read_bundle(contents("{")).is_none());
}

#[test]
fn web_requests_stay_below_the_prefix() {
    assert!(is_allowed_origin("http://localhost:57118"));
    assert!(!is_allowed_origin("https://evil.example"));
    assert!(matches!(read_request("OPTIONS", "/x"), Request::Preflight));
    assert!(matches!(read_request("GET", "/%ff"), Request::Undecodable));
    let plain = read_request("GET", "//c/a%20b?x=1");
    assert!(matches!(plain, Request::File { file, served: Served::Plain } if file == "/c/a b"));
    let asked = read_request("GET", "/c/pi.html%7Criverdeck_property_inspector?t=1");
    assert!(
        matches!(asked, Request::File { file, served: Served::Inspector } if file == "/c/pi.html")
    );
    let child = read_request("GET", "/c/w.html|riverdeck_property_inspector_child");
    assert!(
        matches!(child, Request::File { file, served: Served::InspectorChild } if file == "/c/w.html")
    );
    let facts = |file: Option<&str>| FileFacts {
        prefix: Some("/c".to_owned()),
        file: file.map(|f| f.to_owned()),
    };
    let serve = answer_request(Served::Plain, &facts(Some("/c/x.png")));
    assert_eq!(serve, Answer::Serve(Served::Plain));
    let outside = answer_request(Served::Inspector, &facts(Some("/etc/x")));
    assert_eq!(outside, Answer::Forbidden);
    assert_eq!(answer_request(Served::Plain, &facts(None)), Answer::NotFound);
    let none = FileFacts { prefix: None, file: Some("/c/x".to_owned()) };
    assert_eq!(answer_request(Served::Plain, &none), Answer::NoPrefix);
    assert_eq!(mime("png"), "image/png");
    assert_eq!(content_type_of("/a/b.png").media_type, "image/png");
}

#[test]
fn inspector_pages_are_served() {
    let facts = FileFacts {
        prefix: Some("/c".to_owned()),
        file: Some("/c/pi.html".to_owned()),
    };
    let a = answer_request(Served::Inspector, &facts);
    let r = make_reply(a, "/c/pi.html", "<p>".to_owned());
    assert_eq!((r.status, r.grants_origin), (200, true));
    assert_eq!(r.media_type.as_deref(), Some("text/html"));
    assert!(matches!(r.body, Body::Text(t) if t == format!("<p>{INSPECTOR_SCRIPT}")));
    assert!(INSPECTOR_SCRIPT.contains("connectElgatoStreamDeckSocket(...data.payload)"));
    let r = make_reply(Answer::Serve(Served::InspectorChild), "/c/w.html", "<p>".to_owned());
    assert!(matches!(r.body, Body::Text(t)
        if t == "<script>window.opener ??= window.parent;</script><p>"));
    let r = make_reply(Answer::Serve(Served::Plain), "/c/x.css", "a{}".to_owned());
    assert_eq!(r.media_type.as_deref(), Some("text/css"));
    assert!(matches!(r.body, Body::Text(t) if t == "a{}"));
    let r = make_reply(Answer::Serve(Served::Plain), "/c/x.png", String::new());
    assert!(matches!(r.body, Body::File));
    let statuses: Vec<(u16, bool)> = [Answer::NoPrefix, Answer::NotFound, Answer::Forbidden]
        .iter()
        .map(|a| make_reply(*a, "/c/x", String::new()))
        .map(|r| (r.status, r.grants_origin))
        .collect();
    assert_eq!(statuses, vec![(500, false), (404, true), (403, true)]);
}

fn found(path: &str, ok: bool) -> FoundPlugin {
    FoundPlugin {
        path: path.to_owned(),
        manifest: if ok {
            Ok(ManifestFacts {
                name: "Name".to_owned(),
                version: "1".to_owned(),
                icon: "i.png".to_owned(),
                support: PluginSupport::Supported,
            })
        } else {
            Err("broken".to_owned())
        },
    }
}

#[test]
fn local_plugins_are_in_order() {
    let mut disabled = vec![];
    set_plugin_enabled(&mut disabled, "b", false);
    set_plugin_enabled(&mut disabled, "b", false);
    assert_eq!(disabled, vec!["b"]);
    let l = list_local_plugins(
        &vec![found("/w/c", true), found("/w/a", false)],
        &vec![found("/p/b", true), found("/p/c", true)],
        &disabled,
    );
    let ids: Vec<&str> = l.iter().map(|e| e.id.as_str()).collect();
    assert_eq!(ids, vec!["a", "b", "c"]);
    assert_eq!(l[0].name, "a");
    assert!(matches!(&l[0].support, PluginSupport::Unsupported(w) if w == "broken"));
    assert!(!l[1].enabled);
    assert!(matches!(l[2].source, PluginSource::Config));
    set_plugin_enabled(&mut disabled, "b", true);
    assert!(disabled.is_empty());
    assert_eq!(config_plugins_dir("/c"), "/c/plugins");
}

#[test]
fn workspace_plugins_are_flattened() {
    let l = PluginLayout {
        has_manifest: false,
        has_assets_manifest: true,
        has_assets_icons: true,
        has_icons: true,
        has_assets_inspector: true,
        has_inspector: false,
    };
    assert_eq!(
        flatten_steps(&l),
        vec![FlattenStep::CopyManifest, FlattenStep::CopyInspector]
    );
    assert_eq!(
        builds_of("linux/bin", "/w"),
        vec!["/w/target/debug/bin", "/w/target/release/bin"]
    );
    assert!(builds_of("bin", "/w").is_empty());
    assert_eq!(
        manifest_place(PluginSource::Workspace, false, true),
        Some(ManifestPlace::Assets)
    );
    assert_eq!(manifest_place(PluginSource::Workspace, false, false), None);
    assert_eq!(
        manifest_place(PluginSource::Config, false, false),
        Some(ManifestPlace::Root)
    );
    let steps = install_from_workspace("/w/x", "/c/plugins", "a.sdPlugin", true);
    assert!(matches!(&steps[1], CopyStep::Remove(p) if p == "/c/plugins/a.old"));
    assert!(matches!(&steps[2], CopyStep::Rename { from, .. } if from == "/c/plugins/a.sdPlugin"));
    assert_eq!(steps.len(), 4);
    let steps = upgrade_steps("/r/a.sdPlugin", "/c/plugins/a.sdPlugin", false);
    assert!(matches!(&steps[0], CopyStep::CopyOrRestore { old, .. } if old == "/c/plugins/a.old"));
    assert_eq!(steps.len(), 2);
}

#[test]
fn downloads_are_checked() {
    assert!(matches!(check_url(&None), Err(DownloadError::MissingUrl)));
    assert!(matches!(
        check_url(&Some("file:///x".to_owned())),
        Err(DownloadError::UnsupportedScheme)
    ));
    assert!(check_url(&Some("https://x".to_owned())).is_ok());
    assert!(needs_browser_headers("https://mp-cdn.elgato.com/x"));
    assert!(!needs_browser_headers("https://example.com/mp-cdn.elgato.com"));
    assert!(may_be_zip(b"PK\x03\x04"));
    assert!(may_be_zip(b"P"));
    assert!(!may_be_zip(b"<html>"));
    assert_eq!(
        plugin_id_for_install(&None, &Some("x".to_owned())),
        Some("x.sdPlugin".to_owned())
    );
    assert_eq!(plugin_id_for_install(&None, &None), None);
    assert!(keeps_failed_plugin("manifest has an odd encoding"));
    assert!(keeps_failed_plugin("unsupported on platform linux"));
    assert!(!keeps_failed_plugin("manifest is missing"));
}

fn dir(name: &str, entries: Vec<DirTree>) -> DirTree {
    DirTree { name: name.to_owned(), kind: EntryKind::Directory, entries }
}

#[test]
fn the_plugin_is_found_in_its_archive() {
    let tree = vec![
        DirTree { name: "x".to_owned(), kind: EntryKind::Link, entries: vec![] },
        dir("outer", vec![dir("x", vec![])]),
    ];
    assert_eq!(
        find_plugin_dir(&tree, "x", 6),
        Some(vec!["outer".to_owned(), "x".to_owned()])
    );
    assert_eq!(find_plugin_dir(&tree, "x", 1), None);
    let broken = vec![
        DirTree { name: "q".to_owned(), kind: EntryKind::Unreadable, entries: vec![] },
        dir("x", vec![]),
    ];
    assert_eq!(find_plugin_dir(&broken, "x", 6), None);
}

#[test]
fn installations_roll_back() {
    let p = install_paths("/c", "plugins", "", "a/b", 7);
    assert_eq!(p.actual, "/c/plugins/a/b");
    assert_eq!(p.extract_root, "/c/temp/extract_a_b_7");
    assert_eq!(p.backup, "/c/temp/backup_a_b_7");
    assert_eq!(prepare_steps(&p).len(), 3);
    let aside = set_aside_steps(&p, true);
    assert!(matches!(&aside[1], FileStep::Rename { from, to } if *from == p.actual && *to == p.backup));
    let place = place_steps(&p, "/c/temp/extract_a_b_7/b");
    assert!(matches!(&place[1], FileStep::Rename { to, .. } if *to == p.actual));
    let back = rollback_steps(&p, true, true);
    assert!(matches!(&back[1], FileStep::RenameOrRemove { to, .. } if *to == p.bad));
    assert!(matches!(&back[2], FileStep::TryRename { from, to } if *from == p.backup && *to == p.actual));
    assert!(matches!(&back[3], FileStep::Initialise(x) if *x == p.actual));
    assert_eq!(restore_steps(&p, false).len(), 2);
    assert!(matches!(&finish_steps(&p)[0], FileStep::Remove(x) if *x == p.backup));
    let pack = install_paths("/c", "icon_packs", "iconpack_", "p", 7);
    assert_eq!(pack.backup, "/c/temp/backup_iconpack_p_7");
}

fn run_install(kind: InstallKind, events: Vec<InstallEvent>) -> (InstallState, InstallAction) {
    let p = install_paths("/c", "plugins", "", "b", 7);
    let (mut state, mut action) = begin_install(kind, "b", &p);
    for event in events {
        (state, action) = next_install_step(state, event, &p);
    }
    (state, action)
}

fn found_one(replaces: bool) -> InstallEvent {
    let path = "/c/temp/extract_b_7/b".to_owned();
    InstallEvent::Found(Ok(FoundDir { path, replaces }))
}

fn finish(a: InstallAction) -> (Vec<FileStep>, Option<PluginInstallPhase>, Result<(), String>) {
    match a {
        InstallAction::Finish { steps, tell, result } => (steps, tell, result),
        _ => panic!("the installation is not over"),
    }
}

#[test]
fn installations_go_step_by_step() {
    let (_, a) = run_install(InstallKind::Plugin, vec![]);
    assert!(matches!(a, InstallAction::Prepare { tell: Some(PluginInstallPhase::Started), .. }));
    let (_, a) = run_install(InstallKind::Plugin, vec![InstallEvent::Prepared(Ok(()))]);
    assert!(matches!(a, InstallAction::Unpack(to) if to == "/c/temp/extract_b_7"));
    let (s, a) = run_install(InstallKind::Plugin, vec![InstallEvent::Placed(Ok(()))]);
    assert!(matches!(a, InstallAction::Wait) && s.phase == InstallPhase::Preparing);
    let well = || {
        vec![
            InstallEvent::Prepared(Ok(())),
            InstallEvent::Unpacked(Ok(())),
            found_one(true),
            InstallEvent::SetAside(Ok(())),
            InstallEvent::Placed(Ok(())),
        ]
    };
    let (_, a) = run_install(InstallKind::Plugin, well());
    assert!(matches!(a, InstallAction::Start(dir) if dir == "/c/plugins/b"));
    let (_, a) = run_install(InstallKind::IconPack, well());
    let (steps, tell, result) = finish(a);
    assert!(steps.len() == 2 && tell.is_none() && result.is_ok());
    let mut events = well();
    events.push(InstallEvent::Started(Ok(())));
    let (s, a) = run_install(InstallKind::Plugin, events);
    assert_eq!(s.phase, InstallPhase::Over);
    let (_, tell, result) = finish(a);
    assert!(matches!(tell, Some(PluginInstallPhase::Finished { ok: true, error: None })));
    assert!(result.is_ok());
}

#[test]
fn failed_installations_restore_what_was_there() {
    let no = || Err("no".to_owned());
    let told = |tell: Option<PluginInstallPhase>| {
        matches!(tell, Some(PluginInstallPhase::Finished { ok: false, error: Some(e) }) if e == "no")
    };
    let (_, a) = run_install(InstallKind::Plugin, vec![InstallEvent::Prepared(no())]);
    let (steps, tell, result) = finish(a);
    assert!(steps.is_empty() && told(tell) && result == no());
    let (_, a) = run_install(
        InstallKind::Plugin,
        vec![InstallEvent::Prepared(Ok(())), InstallEvent::Unpacked(no())],
    );
    let (steps, tell, result) = finish(a);
    assert!(steps.len() == 1 && told(tell) && result == no());
    let begun = |replaces: bool| {
        vec![InstallEvent::Prepared(Ok(())), InstallEvent::Unpacked(Ok(())), found_one(replaces)]
    };
    let mut events = begun(true);
    events.push(InstallEvent::SetAside(no()));
    let (steps, tell, _) = finish(run_install(InstallKind::Plugin, events).1);
    assert!(steps.is_empty() && told(tell));
    let mut events = begun(true);
    events.push(InstallEvent::SetAside(Ok(())));
    events.push(InstallEvent::Placed(no()));
    let (steps, tell, _) = finish(run_install(InstallKind::Plugin, events).1);
    assert!(told(tell));
    assert!(matches!(&steps[1], FileStep::TryRename { from, to }
        if from == "/c/temp/backup_b_7" && to == "/c/plugins/b"));
    let mut events = begun(false);
    events.push(InstallEvent::SetAside(Ok(())));
    events.push(InstallEvent::Placed(Ok(())));
    events.push(InstallEvent::Started(Err(StartFailure {
        error: "unsupported on platform".to_owned(),
        message: "no".to_owned(),
    })));
    let (steps, tell, _) = finish(run_install(InstallKind::Plugin, events).1);
    assert!(told(tell) && steps.len() == 3);
    assert!(matches!(&steps[1], FileStep::RenameOrRemove { to, .. } if to == "/c/temp/bad_b_7"));
    let way = Some(vec!["x".to_owned(), "b".to_owned()]);
    assert_eq!(found_dir("/r", &way, "b"), Ok("/r/x/b".to_owned()));
    assert_eq!(
        found_dir("/r", &None, "b"),
        Err("extracted archive did not contain b".to_owned())
    );
}

#[test]
fn installed_plugins_are_listed_and_removed() {
    let entry = |id: &str, inside: bool| PluginEntry {
        path: format!("/c/plugins/{id}"),
        inside,
        is_dir: true,
        manifest: Some(ManifestSummary {
            name: "N".to_owned(),
            author: "A".to_owned(),
            icon: "icon".to_owned(),
            version: "1".to_owned(),
            has_settings_interface: None,
        }),
        icons: vec![format!("/c/plugins/{id}/icon.svg")],
    };
    let l = list_plugins(
        &vec![entry("a", true), entry("b", false)],
        &vec!["a".to_owned()],
        &vec![],
    );
    assert_eq!(l.len(), 1);
    assert_eq!(l[0].icon, "/c/plugins/a/icon.svg");
    assert!(l[0].builtin && !l[0].registered);
    let mut cats = Categories {
        list: vec![
            ("X".to_owned(), Category { icon: None, actions: vec![action("1", "a"), action("2", "b")] }),
            ("Y".to_owned(), Category { icon: None, actions: vec![action("3", "a")] }),
        ],
    };
    remove_plugin(&mut cats, "a");
    assert_eq!(cats.list.len(), 1);
    assert_eq!(cats.list[0].1.actions.len(), 1);
    let (d, log, settings) = plugin_files("/c", "/l", "a");
    assert_eq!((d.as_str(), log.as_str(), settings.as_str()), ("/c/plugins/a", "/l/plugins/a.log", "/c/settings/a.json"));
}

#[test]
fn catalogue_entries_resolve() {
    assert_eq!(normalize_plugin_id(" a.b.sdPlugin.sdPlugin "), "a.b");
    assert_eq!(normalize_plugin_id("a.sdplugin"), "a");
    assert!(matches!(lookup_id(".sdPlugin"), Err(ResolveError::InvalidPluginId)));
    assert!(matches!(lookup_id(&"x".repeat(257)), Err(ResolveError::InvalidPluginId)));
    assert_eq!(
        normalize_repo_url(" https://github.com/o/r// "),
        Some("https://github.com/o/r".to_owned())
    );
    assert_eq!(normalize_repo_url("git@x"), None);
    assert_eq!(
        github_owner_repo("https://GitHub.com/o/r/tree"),
        Some(("o".to_owned(), "r".to_owned()))
    );
    assert_eq!(github_owner_repo("https://gitlab.com/o/r"), None);
    assert_eq!(github_owner_repo("https://github.com/o"), None);
    assert_eq!(
        release_candidates("o", "r", "p")[0],
        "https://github.com/o/r/releases/latest/download/p.zip"
    );
    assert_eq!(
        latest_release_api("o", "r"),
        "https://api.github.com/repos/o/r/releases/latest"
    );
    let entry = |dl: Option<&str>, repo: Option<&str>| {
        Some(CatalogueEntry {
            name: None,
            author: None,
            repository: repo.map(|s| s.to_owned()),
            description: None,
            download_url: dl.map(|s| s.to_owned()),
        })
    };
    let r = resolve_entry("p".to_owned(), &entry(Some(" https://x/y "), None));
    assert!(matches!(r, Resolution::Ready(i) if i.download_url == Some("https://x/y".to_owned())));
    let r = resolve_entry("p".to_owned(), &entry(Some("ftp://x"), None));
    assert!(matches!(r, Resolution::Refused(ResolveError::UnsupportedScheme)));
    let r = resolve_entry("p".to_owned(), &None);
    assert!(matches!(r, Resolution::Refused(ResolveError::NotInCatalogue)));
    let r = resolve_entry("p".to_owned(), &entry(None, Some("https://github.com/o/r")));
    let Resolution::AskRepository(asked) = r else { panic!("not asked") };
    assert_eq!(finish_install(asked, Some("u".to_owned())).download_url, Some("u".to_owned()));
    assert!(is_fresh(100, 700));
    assert!(!is_fresh(100, 701));
    assert!(is_fresh(100, 50));
    let asset = |name: &str, url: &str| ReleaseAsset {
        name: Some(name.to_owned()),
        browser_download_url: Some(url.to_owned()),
    };
    let assets = vec![asset("a.txt", "https://x/a.txt"), asset("B.ZIP", "https://x/b")];
    assert_eq!(choose_asset(&assets), Some("https://x/b".to_owned()));
    assert_eq!(choose_asset(&vec![]), None);
}

fn pack(id: &str, name: &str) -> PackEntry {
    PackEntry {
        path: format!("/c/icon_packs/{id}"),
        is_dir: true,
        manifest: Some(IconPackManifest {
            name: name.to_owned(),
            author: "A".to_owned(),
            version: "1".to_owned(),
        }),
    }
}

#[test]
fn icon_packs_are_in_order() {
    let installed = vec![pack("z.sdIconPack", "zeta"), pack("b.sdIconPack", " "), pack("no", "n")];
    let builtin = vec![pack("a.SDICONPACK", "Alpha")];
    let packs = list_icon_packs(&installed, &builtin);
    let names: Vec<&str> = packs.iter().map(|p| p.name.as_str()).collect();
    assert_eq!(names, vec!["Alpha", "b.sdIconPack", "zeta"]);
    assert!(get_pack_by_id(&packs, "a.SDICONPACK").unwrap().builtin);
    assert!(get_pack_by_id(&packs, "no").is_none());
    assert!(matches!(validate_pack_id(" "), Err(PackIdError::Empty)));
    assert!(matches!(validate_pack_id("x"), Err(PackIdError::MissingSuffix)));
    assert!(validate_pack_id("x.sdIconPack").is_ok());
    assert_eq!(config_icon_packs_dir("/c"), "/c/icon_packs");
    assert_eq!(resource_icon_packs_dirs(&Some("/r".to_owned()))[1], "/r/packaging/icon_packs");
    assert!(resource_icon_packs_dirs(&None).is_empty());
    assert_eq!(
        pack_id_for_install(&None, &Some("x".to_owned())),
        Some("x.sdIconPack".to_owned())
    );
    assert!(matches!(check_pack_contents(false, true), Err(PackContentError::MissingManifest)));
    assert!(matches!(check_pack_contents(true, false), Err(PackContentError::MissingIndex)));
    assert!(check_pack_contents(true, true).is_ok());
}

#[test]
fn icons_stay_in_their_pack() {
    let facts = |root: &str, file: &str| IconFacts {
        root: Some(root.to_owned()),
        file: Some(file.to_owned()),
        is_file: true,
    };
    let none: Vec<String> = vec![];
    assert_eq!(
        resolve_icon_path("a.png", "/c", &None, &none, &facts("/p", "/p/a.png")),
        Some("/p/a.png".to_owned())
    );
    assert_eq!(
        resolve_icon_path("../a.png", "/c", &None, &none, &facts("/p", "/a.png")),
        None
    );
    assert_eq!(
        resolve_icon_path(
            "riverdeck/x.png",
            "/c",
            &Some("/r".to_owned()),
            &vec!["/r/riverdeck/x.png".to_owned()],
            &facts("/p", "/p/a")
        ),
        Some("/r/riverdeck/x.png".to_owned())
    );
    let packs = list_icon_packs(&vec![pack("a.sdIconPack", "A")], &vec![]);
    let icon = |name: &str, tag: &str| IconEntry {
        path: "p".to_owned(),
        name: name.to_owned(),
        tags: vec![tag.to_owned()],
    };
    let index = IconPackIndex { icons: vec![icon("Mic", "audio"), icon("Cam", "VIDEO"), icon("X", "")] };
    let files = vec![Some("/1".to_owned()), Some("/2".to_owned()), None];
    let all = list_icons_for_pack(&packs[0], &index, &files);
    assert_eq!(all.len(), 2);
    let hits = list_icons(all, &Some(" video ".to_owned()));
    assert_eq!(hits.len(), 1);
    assert_eq!(hits[0].resolved_path, "/2");
}

#[test]
fn recorded_processes_are_ended() {
    let mut r = vec![];
    record_process(&mut r, 0, "k", vec![], 1);
    assert!(r.is_empty());
    record_process(&mut r, 5, "plugin", vec!["node".to_owned(), "x".to_owned()], 1);
    record_process(&mut r, 6, "plugin", vec!["wine".to_owned()], 2);
    record_process(&mut r, 7, "plugin", vec![], 3);
    record_process(&mut r, 5, "plugin", vec!["node".to_owned()], 4);
    assert_eq!(r.len(), 3);
    assert_eq!(r[2].pid, 5);
    assert!(unrecord_process(&mut r, 7));
    assert!(!unrecord_process(&mut r, 7));
    record_process(&mut r, 8, "host", vec![], 5);
    record_process(&mut r, 9, "gone", vec![], 6);
    let found = vec![
        Liveness::CommandLine("bash".to_owned()),
        Liveness::CommandLine("/usr/bin/node x.js".to_owned()),
        Liveness::CommandLine("host".to_owned()),
        Liveness::Gone,
    ];
    assert_eq!(startup_cleanup(&mut r, 8, &found), vec![5]);
    let left: Vec<u32> = r.iter().map(|p| p.pid).collect();
    assert_eq!(left, vec![6, 8]);
    assert_eq!(startup_cleanup(&mut r, 8, &vec![Liveness::Unknown, Liveness::Unknown]), Vec::<u32>::new());
    assert_eq!(registry_path("/c"), "/c/runtime/processes.json");
}

struct Host(u8);

impl WebviewHost for Host {
    fn spawn_plugin_webview(&self, _label: &str, _url: &str, _init_js: &str) -> Result<(), String> {
        Ok(())
    }
}

#[test]
fn the_first_webview_host_stays() {
    let mut cell: Option<Host> = None;
    assert!(webview_host(&cell).is_none());
    init_webview_host(&mut cell, Host(1));
    init_webview_host(&mut cell, Host(2));
    let h = webview_host(&cell).unwrap();
    assert_eq!(h.0, 1);
    assert!(h.close_webview("x").is_ok());
    assert!(h.show_webview("x").is_ok());
    assert!(h.open_devtools("x").is_ok());
    assert!(h.spawn_plugin_webview("x", "y", "z").is_ok());
}

#[test]
fn disabled_plugins_are_not_launched() {
    let entry = |path: &str, inside: bool, is_dir: bool| StartupEntry {
        path: path.to_owned(),
        inside,
        is_dir,
    };
    let entries = vec![
        entry("/c/plugins/a", true, true),
        entry("/c/plugins/b", true, true),
        entry("/elsewhere/c", false, true),
        entry("/c/plugins/d", true, false),
    ];
    assert_eq!(plugins_to_launch(&entries, &vec![]), vec!["/c/plugins/a", "/c/plugins/b"]);
    let mut disabled = vec![];
    set_plugin_enabled(&mut disabled, "a", false);
    assert_eq!(plugins_to_launch(&entries, &disabled), vec!["/c/plugins/b"]);
}
