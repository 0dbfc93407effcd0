use riverdeck_core::json::Json;
use riverdeck_core::migration::{
    files_to_remove, first_page_move, get_device_profiles, get_profiles, group_profiles,
    image_move, makes_first_page_move, migrate_device_profiles_to_pages, migration_plan, migration_sources,
    normalize_profile, page_number_of, profile_file, profile_id_of_file, DirEntry, NamedProfile,
};
use riverdeck_core::pages::{
    create_page, create_page_and_select, delete_page, get_pages, get_selected_page,
    page_before_delete, set_selected_page, set_selected_profile, shift_selected_page,
};
use riverdeck_core::profiles::{
    clean_slot, ensure_page, get_instance, get_page, get_slot, get_slot_mut, load_profile,
    new_page, new_profile, validate_profile_id, PluginFacts, ProfileIdError, SlotError,
};
use riverdeck_core::relocate::{
    background_file, clone_profile, image_extension_of, move_image, selected_page,
    set_encoder_screen_background, set_page_background, BackgroundError, ImageRoute,
};
use riverdeck_core::shared::{
    Action, ActionContext, ActionInstance, ActionState, Context, DeviceInfo, Profile,
};
use riverdeck_core::stores::{
    check_store_files, choose_store_source, pretty_json_enabled, truthy, write_steps, DeviceConfig,
    DeviceStores, ProfileStoreError, ProfileStores, Settings, StoreSource, StoreWriteError,
    WriteStep,
};

fn device() -> DeviceInfo {
    DeviceInfo {
        id: "sd-1".to_owned(),
        plugin: String::new(),
        name: "Deck".to_owned(),
        rows: 2,
        columns: 3,
        encoders: 1,
        device_type: 0,
        screen: None,
    }
}

fn action(uuid: &str, plugin: &str) -> Action {
    Action {
        name: "Name".to_owned(),
        uuid: uuid.to_owned(),
        plugin: plugin.to_owned(),
        tooltip: String::new(),
        icon: "icon.png".to_owned(),
        disable_automatic_states: false,
        visible_in_action_list: true,
        supported_in_multi_actions: true,
        property_inspector: String::new(),
        controllers: vec!["Keypad".to_owned()],
        states: vec![ActionState::default()],
    }
}

fn instance(profile: &str, page: &str, position: u8) -> ActionInstance {
    ActionInstance {
        action: action("a.b", "p.sdPlugin"),
        context: ActionContext {
            device: "sd-1".to_owned(),
            profile: profile.to_owned(),
            page: page.to_owned(),
            controller: "Keypad".to_owned(),
            position,
            index: 0,
        },
        states: vec![ActionState::default()],
        current_state: 0,
        settings: Json::Null,
        children: None,
    }
}

fn context(position: u8) -> Context {
    Context {
        device: "sd-1".to_owned(),
        profile: "Default".to_owned(),
        page: "1".to_owned(),
        controller: "Keypad".to_owned(),
        position,
    }
}

#[test]
fn profile_id_errors_are_told_apart() {
    assert!(matches!(validate_profile_id(""), Err(ProfileIdError::Empty)));
    assert!(matches!(
        validate_profile_id("../x"),
        Err(ProfileIdError::Invalid)
    ));
    assert!(validate_profile_id("folder/name").is_ok());
}

#[test]
fn a_loaded_profile_fits_its_device() {
    let mut p = new_profile("Default");
    p.pages.clear();
    let facts = PluginFacts {
        installed: vec![],
        registered: vec![],
        known_actions: vec![],
    };
    load_profile(&mut p, &device(), &facts);
    assert_eq!(p.pages.len(), 1);
    assert_eq!(p.pages[0].keys.len(), 6);
    assert_eq!(p.pages[0].sliders.len(), 1);
    load_profile(&mut p, &device(), &facts);
    assert_eq!(p.pages.len(), 1);
    assert_eq!(p.pages[0].keys.len(), 6);
}

#[test]
fn instances_of_unknown_plugins_are_cleaned() {
    let facts = PluginFacts {
        installed: vec!["p.sdPlugin".to_owned()],
        registered: vec![],
        known_actions: vec![],
    };
    let none = PluginFacts {
        installed: vec![],
        registered: vec![],
        known_actions: vec![],
    };
    let slot = Some(instance("Default", "1", 0));
    assert!(clean_slot(&facts, &slot).is_some());
    assert!(clean_slot(&none, &slot).is_none());
}

#[test]
fn slots_are_found_by_context() {
    let mut p = new_profile("Default");
    assert!(matches!(
        get_slot(&p, &Context { page: "9".to_owned(), ..context(0) }),
        Err(SlotError::PageNotFound)
    ));
    *get_slot_mut(&mut p, &device(), &context(5)).ok().unwrap() = Some(instance("Default", "1", 5));
    assert!(get_slot(&p, &context(5)).ok().unwrap().is_some());
    assert!(matches!(
        get_slot(&p, &context(200)),
        Err(SlotError::IndexOutOfBounds)
    ));
    let slot = get_slot(&p, &context(5)).ok().unwrap();
    assert!(get_instance(slot, &instance("Default", "1", 5).context).is_some());
}

#[test]
fn pages_are_made_when_asked_for() {
    let mut p = new_profile("Default");
    let n = p.pages.len();
    assert_eq!(ensure_page(&mut p, "7"), n);
    assert_eq!(ensure_page(&mut p, "7"), n);
    assert!(get_page(&p, "7").is_some());
    assert!(get_page(&p, "8").is_none());
}

#[test]
fn created_pages_take_the_smallest_free_number() {
    let mut p = new_profile("Default");
    p.pages = vec![new_page("1"), new_page("3")];
    p.selected_page = "1".to_owned();
    assert_eq!(create_page(&mut p, &device()), "2");
    assert_eq!(create_page(&mut p, &device()), "4");
    assert_eq!(get_pages(&p), vec!["1", "3", "2", "4"]);
    let (id, switch) = create_page_and_select(&mut p, &device(), true);
    assert_eq!(id, "5");
    assert!(switch.switched);
    assert_eq!(p.selected_page, "5");
}

#[test]
fn shifting_there_and_back_is_no_change() {
    let mut p = new_profile("Default");
    p.pages = vec![new_page("1"), new_page("2"), new_page("3")];
    p.selected_page = "3".to_owned();
    assert_eq!(shift_selected_page(&p, 1), Some("1".to_owned()));
    p.selected_page = "1".to_owned();
    assert_eq!(shift_selected_page(&p, -1), Some("3".to_owned()));
    assert_eq!(shift_selected_page(&p, 0), None);
    assert_eq!(shift_selected_page(&p, i32::MAX), Some("2".to_owned()));
    p.pages.truncate(1);
    assert_eq!(shift_selected_page(&p, 1), None);
}

#[test]
fn selecting_a_page_tells_the_instances() {
    let mut p = new_profile("Default");
    p.pages = vec![new_page("1"), new_page("2")];
    p.pages[0].keys = vec![Some(instance("Default", "1", 0))];
    p.selected_page = "1".to_owned();
    let s = set_selected_page(&mut p, &device(), "2", true);
    assert!(s.switched);
    assert_eq!(s.disappearing.len(), 1);
    assert_eq!(s.appearing.len(), 0);
    assert_eq!(p.selected_page, "2");
    assert_eq!(selected_page(&p).unwrap().id, "2");
    assert!(!set_selected_page(&mut p, &device(), "2", true).switched);
}

#[test]
fn a_profile_keeps_a_page() {
    let mut p = new_profile("Default");
    p.pages = vec![new_page("1"), new_page("2")];
    p.selected_page = "1".to_owned();
    assert_eq!(page_before_delete(&p, "1", true), Some("2".to_owned()));
    assert!(delete_page(&mut p, "1"));
    assert!(!delete_page(&mut p, "2"));
    assert_eq!(get_selected_page(&p), "2");
}

#[test]
fn selecting_a_profile_tells_both() {
    let mut a = new_profile("A");
    a.pages = vec![new_page("1")];
    a.pages[0].keys = vec![Some(instance("A", "1", 0))];
    let mut b = new_profile("B");
    b.pages = vec![new_page("1")];
    b.pages[0].encoder_screen_background = Some("bg.png".to_owned());
    b.pages[0].keys = vec![Some(instance("B", "1", 0)), Some(instance("B", "1", 1))];
    let s = set_selected_profile("A", "B", &a, &b);
    assert!(s.switched);
    assert_eq!(s.disappearing.len(), 1);
    assert_eq!(s.appearing.len(), 2);
    assert_eq!(s.background, Some("bg.png".to_owned()));
    let s = set_selected_profile("B", "B", &b, &b);
    assert!(!s.switched);
    assert_eq!(s.disappearing.len(), 0);
    assert_eq!(s.appearing.len(), 2);
}

#[test]
fn a_clone_has_images_of_its_own() {
    let mut p = new_profile("A");
    let mut i = instance("A", "1", 0);
    i.states[0].image = "/c/images/sd-1/A/1/Keypad.0.0/0.png".to_owned();
    p.pages[0].keys = vec![Some(i)];
    let q = clone_profile(&p, "A", "B", "/c", "sd-1");
    assert_eq!(q.id, "B");
    let j = q.pages[0].keys[0].as_ref().unwrap();
    assert_eq!(j.context.profile, "B");
    assert_eq!(j.states[0].image, "/c/images/sd-1/B/1/Keypad.0.0/0.png");
    let route = ImageRoute {
        old: "/a".to_owned(),
        new: "/b".to_owned(),
        kept: vec!["/a/2".to_owned()],
    };
    assert_eq!(move_image("/elsewhere/x.png", &route), "/elsewhere/x.png");
    assert_eq!(move_image("/a/k/x.png", &route), "/b/k/x.png");
    assert_eq!(move_image("/a/2/x.png", &route), "/a/2/x.png");
    assert_eq!(move_image("/a/20/x.png", &route), "/b/20/x.png");
}

#[test]
fn backgrounds_are_of_known_kinds() {
    assert_eq!(image_extension_of("/a/b.PNG"), "png");
    assert_eq!(image_extension_of("/a/b"), "png");
    assert!(background_file("/d", "png").is_some());
    assert!(background_file("/d", "tiff").is_none());
    let mut p = new_profile("A");
    set_page_background(&mut p, &Some("x.png".to_owned()));
    assert_eq!(
        selected_page(&p).unwrap().encoder_screen_background,
        Some("x.png".to_owned())
    );
}

#[test]
fn stores_open_profiles_once() {
    let mut s = ProfileStores::new();
    let facts = PluginFacts {
        installed: vec![],
        registered: vec![],
        known_actions: vec![],
    };
    assert!(matches!(
        s.get_profile_store("sd-1", "A"),
        Err(ProfileStoreError::NotFound)
    ));
    assert!(matches!(
        s.get_profile_store("sd-1", ""),
        Err(ProfileStoreError::InvalidId(ProfileIdError::Empty))
    ));
    assert!(s.open_profile(&device(), "A", new_profile("A"), &facts).is_ok());
    assert!(s.open_profile(&device(), "A", new_profile("X"), &facts).is_ok());
    assert_eq!(s.get_profile_store("sd-1", "A").ok().unwrap().id, "A");
    let moved = s.rename_profile("sd-1", "A", "B", "/c").ok().unwrap();
    assert_eq!(moved.from.file, "/c/profiles/sd-1/A.json");
    assert_eq!(moved.to.images, "/c/images/sd-1/B");
    assert!(s.get_profile_store("sd-1", "A").is_err());
    assert!(matches!(
        s.rename_profile("sd-1", "A", "", "/c"),
        Err(ProfileIdError::Empty)
    ));
    assert_eq!(
        s.delete_profile("sd-1", "B", "/c").unwrap().file,
        "/c/profiles/sd-1/B.json"
    );
    assert!(s.delete_profile("sd-1", "..", "/c").is_none());
}

#[test]
fn profiles_are_created_new_or_as_copies() {
    let mut s = ProfileStores::new();
    let facts = PluginFacts {
        installed: vec!["p.sdPlugin".to_owned()],
        registered: vec![],
        known_actions: vec![],
    };
    let mut create = |id: &str, from: Option<&str>, on_disk: Profile| {
        let from = from.map(str::to_owned);
        s.create_profile(&device(), id, &from, on_disk, &facts, "/c")
    };
    let mut p = new_profile("A");
    let mut i = instance("A", "1", 0);
    i.states[0].image = "/c/images/sd-1/A/1/Keypad.0.0/custom_icon.png".to_owned();
    p.pages[0].keys = vec![Some(i)];
    assert_eq!(create("A", None, p), Ok(None));
    let dirs = ("/c/images/sd-1/A".to_owned(), "/c/images/sd-1/B".to_owned());
    assert_eq!(create("B", Some("A"), new_profile("B")), Ok(Some(dirs)));
    let missing = create("D", Some("C"), new_profile("D"));
    assert_eq!(missing, Err(ProfileStoreError::NotFound));
    let invalid = ProfileStoreError::InvalidId(ProfileIdError::Invalid);
    assert_eq!(create("../D", Some("A"), new_profile("D")), Err(invalid));
    let b = s.get_profile_store("sd-1", "B").ok().unwrap();
    assert_eq!(b.id, "B");
    let i = b.pages[0].keys[0].as_ref().unwrap();
    assert_eq!(i.context.profile, "B");
    assert_eq!(i.states[0].image, "/c/images/sd-1/B/1/Keypad.0.0/custom_icon.png");
    assert!(s.get_profile_store("sd-1", "D").is_err());
}

#[test]
fn backgrounds_are_copied_to_the_shown_page() {
    let mut p = new_profile("A");
    p.pages = vec![new_page("1"), new_page("2")];
    p.selected_page = "2".to_owned();
    let mut set = |source: Option<&str>, is_file: bool| {
        let source = source.map(str::to_owned);
        set_encoder_screen_background(&mut p, "A", "sd-1", &source, is_file, "/c")
    };
    let file = "/c/images/sd-1/A/2/encoder_screen_background.jpeg".to_owned();
    assert_eq!(set(Some(" /x/Y.JPEG "), true), Ok(Some(file.clone())));
    assert_eq!(set(Some("/x/y.jpeg"), false), Err(BackgroundError::NotFound));
    assert_eq!(set(Some("/x/y.webp"), true), Err(BackgroundError::Unsupported));
    assert_eq!(p.pages[1].encoder_screen_background, Some(file));
    assert_eq!(p.pages[0].encoder_screen_background, None);
    let removed = set_encoder_screen_background(&mut p, "A", "sd-1", &None, false, "/c");
    assert_eq!(removed, Ok(None));
    assert_eq!(p.pages[1].encoder_screen_background, None);
    assert_eq!(BackgroundError::NotFound.message(), "background path not found");
}

#[test]
fn contexts_of_a_plugin_are_found() {
    let mut s = ProfileStores::new();
    let facts = PluginFacts {
        installed: vec!["p.sdPlugin".to_owned()],
        registered: vec![],
        known_actions: vec![],
    };
    let mut p = new_profile("A");
    p.pages[0].keys = vec![Some(instance("A", "1", 0))];
    assert!(s.open_profile(&device(), "A", p, &facts).is_ok());
    assert_eq!(s.all_from_plugin("p.sdPlugin").len(), 1);
    assert_eq!(s.all_from_plugin("q.sdPlugin").len(), 0);
}

#[test]
fn the_selected_profile_reads_back() {
    let mut d = DeviceStores::new();
    d.set_selected_profile("sd-1", "B");
    let all = vec!["A".to_owned(), "B".to_owned()];
    assert_eq!(d.get_selected_profile("sd-1", None, &all), "B");
    let on_disk = DeviceConfig {
        selected_profile: "A".to_owned(),
    };
    assert_eq!(d.get_selected_profile("sd-2", Some(on_disk), &all), "A");
    let on_disk = DeviceConfig { selected_profile: "A".to_owned() };
    d.set_selected_profile("sd-3", "B");
    assert_eq!(d.get_selected_profile("sd-3", Some(on_disk), &all), "B");
    d.set_selected_profile("sd-3", "A");
    assert_eq!(d.get_selected_profile("sd-3", None, &all), "A");
}

#[test]
fn stores_are_written_safely() {
    assert_eq!(
        write_steps(true, false),
        vec![WriteStep::WriteTemp, WriteStep::BackUpMain, WriteStep::PromoteTemp, WriteStep::RemoveBackup]
    );
    assert!(matches!(choose_store_source(true, true, true), StoreSource::Main));
    assert!(matches!(choose_store_source(false, false, false), StoreSource::Default));
    assert!(matches!(
        check_store_files(true, false, false),
        Err(StoreWriteError::SymlinkedTemp)
    ));
    assert!(matches!(
        check_store_files(false, true, false),
        Err(StoreWriteError::SymlinkedBackup)
    ));
    assert!(matches!(
        check_store_files(false, false, true),
        Err(StoreWriteError::SymlinkedStore)
    ));
    assert!(check_store_files(false, false, false).is_ok());
}

#[test]
fn settings_have_defaults() {
    let s = Settings::initial(false, false);
    assert_eq!(s.brightness, 50);
    assert!(truthy(" Yes "));
    assert!(!truthy("no"));
    assert!(pretty_json_enabled(&Some("1".to_owned())));
    assert!(!pretty_json_enabled(&None));
}

#[test]
fn old_page_profiles_become_pages() {
    assert_eq!(page_number_of("Page 3"), Some(3));
    assert_eq!(page_number_of("Other"), None);
    let ids = vec!["Page 2".to_owned(), "Default".to_owned(), "Games".to_owned()];
    let sources = migration_sources(&ids);
    assert_eq!(sources.len(), 2);
    assert_eq!(sources[0].old_id, "Default");
    assert_eq!(sources[0].page, 1);
    assert_eq!(sources[1].page, 2);
    let mut two = new_profile("Page 2");
    two.pages[0].keys = vec![Some(instance("Page 2", "1", 0))];
    let mut profiles = vec![new_profile("Default"), two];
    let (p, selected): (Profile, String) =
        group_profiles(&sources, profiles, "Page 2", "/c", "sd-1");
    assert_eq!(p.pages.len(), 2);
    assert_eq!(selected, "Default");
    assert_eq!(p.selected_page, "2");
    assert_eq!(p.pages[1].id, "2");
    assert_eq!(p.pages[1].keys[0].as_ref().unwrap().context.profile, "Default");
    let m = image_move(&sources[1], "/c", "sd-1");
    assert_eq!(m.from, "/c/images/sd-1/Page 2");
    assert_eq!(m.to, "/c/images/sd-1/Default/2");
    assert!(!m.contents_only);
    assert_eq!(
        files_to_remove(&sources, "/c", "sd-1"),
        vec!["/c/profiles/sd-1/Page 2.json"]
    );
    assert_eq!(profile_file("/c", "d", "x"), "/c/profiles/d/x.json");
}

fn named(name: &str) -> NamedProfile {
    NamedProfile { name: name.to_owned(), profile: new_profile(name) }
}

#[test]
fn the_migration_is_made_once() {
    let all = vec![named("Page 10"), named("Default"), named("Page 2"), named("Games")];
    let m = migrate_device_profiles_to_pages(false, &all, "Page 2", "/c", "sd-1").unwrap();
    assert_eq!(m.profiles.len(), 2);
    assert_eq!(m.profiles[0].name, "Default");
    let pages: Vec<&str> = m.profiles[0].profile.pages.iter().map(|p| p.id.as_str()).collect();
    assert_eq!(pages, vec!["1", "2", "10"]);
    assert_eq!(m.profiles[0].profile.selected_page, "2");
    assert_eq!(m.selected, "Default");
    assert_eq!(m.profiles[1].name, "Games");
    assert_eq!(
        m.removed,
        vec!["/c/profiles/sd-1/Page 2.json", "/c/profiles/sd-1/Page 10.json"]
    );
    assert_eq!(m.moves.len(), 3);
    assert!(migrate_device_profiles_to_pages(true, &all, "Page 2", "/c", "sd-1").is_none());
    let mut alone = named("Default");
    let mut second = new_profile("x").pages.remove(0);
    second.id = "7".to_owned();
    alone.profile.pages.push(second);
    let m = migrate_device_profiles_to_pages(false, &vec![alone], "Default", "/c", "d").unwrap();
    assert_eq!(m.profiles[0].profile.pages.len(), 2);
    assert!(m.moves.is_empty() && m.removed.is_empty());
    let ids = vec!["Default".to_owned(), "Page 2".to_owned()];
    assert_eq!(migration_plan(false, &ids).unwrap().len(), 2);
    assert!(migration_plan(true, &ids).is_none());
    assert!(migration_plan(false, &vec!["Page 2".to_owned()]).is_none());
    let first = first_page_move(&new_profile("A"), "A", "/c", "d");
    assert_eq!((first.from.as_str(), first.to.as_str()), ("/c/images/d/A", "/c/images/d/A/1"));
    assert!(first.contents_only);
    assert_eq!(first.except, vec!["1"]);
    assert!(makes_first_page_move(true, false));
    assert!(!makes_first_page_move(true, true) && !makes_first_page_move(false, false));
}

#[test]
fn profiles_on_disk_are_listed() {
    assert_eq!(profile_id_of_file("A.json"), Some("A".to_owned()));
    assert_eq!(profile_id_of_file("A.txt"), None);
    let entries = vec![
        DirEntry {
            name: "A.json".to_owned(),
            is_file: true,
            is_dir: false,
            files: vec![],
        },
        DirEntry {
            name: "folder".to_owned(),
            is_file: false,
            is_dir: true,
            files: vec!["B.json".to_owned()],
        },
    ];
    let found = get_device_profiles(&entries);
    assert!(found.contains(&"A".to_owned()));
    assert!(found.contains(&"folder/B".to_owned()));
    assert!(get_profiles(&entries).contains(&"A".to_owned()));
}

#[test]
fn a_normalized_profile_has_page_one() {
    let mut p = new_profile("X");
    p.pages.clear();
    normalize_profile(&mut p, "X", "/c", "sd-1");
    assert_eq!(p.pages.len(), 1);
    assert_eq!(p.pages[0].id, "1");
}

#[test]
fn images_of_pages_stay_with_their_pages() {
    let mut games = new_profile("Games");
    games.pages = vec![new_page("1"), new_page("2")];
    let mut first = instance("Games", "1", 0);
    first.states[0].image = "/c/images/sd-1/Games/1/Keypad.0.0/0.png".to_owned();
    let mut old = instance("Games", "1", 1);
    old.states[0].image = "/c/images/sd-1/Games/Keypad.1.0/0.png".to_owned();
    games.pages[0].keys = vec![Some(first), Some(old)];
    let mut second = instance("Games", "2", 0);
    second.states[0].image = "/c/images/sd-1/Games/2/Keypad.0.0/0.png".to_owned();
    games.pages[1].keys = vec![Some(second)];
    games.pages[1].encoder_screen_background = Some("/c/images/sd-1/Games/2/bg.png".to_owned());
    normalize_profile(&mut games, "Games", "/c", "sd-1");
    let image = |page: usize, key: usize| {
        games.pages[page].keys[key].as_ref().unwrap().states[0].image.clone()
    };
    assert_eq!(image(0, 0), "/c/images/sd-1/Games/1/Keypad.0.0/0.png");
    assert_eq!(image(0, 1), "/c/images/sd-1/Games/1/Keypad.1.0/0.png");
    assert_eq!(image(1, 0), "/c/images/sd-1/Games/2/Keypad.0.0/0.png");
    assert_eq!(
        games.pages[1].encoder_screen_background,
        Some("/c/images/sd-1/Games/2/bg.png".to_owned())
    );
    assert_eq!(first_page_move(&games, "Games", "/c", "sd-1").except, vec!["1", "2"]);
    let images = |p: &Profile| -> Vec<String> {
        let slots = p.pages.iter().flat_map(|x| x.keys.iter()).flatten();
        slots.map(|i| i.states[0].image.clone()).collect()
    };
    let before = images(&games);
    normalize_profile(&mut games, "Games", "/c", "sd-1");
    assert_eq!(images(&games), before);
}

#[test]
fn images_of_grouped_pages_are_moved_once() {
    let mut default = new_profile("Default");
    let mut i = instance("Default", "1", 0);
    i.states[0].image = "/c/images/sd-1/Default/Keypad.0.0/0.png".to_owned();
    default.pages[0].keys = vec![Some(i)];
    let mut page = new_profile("Page 2");
    let mut i = instance("Page 2", "1", 0);
    i.states[0].image = "/c/images/sd-1/Page 2/Keypad.0.0/0.png".to_owned();
    page.pages[0].keys = vec![Some(i)];
    let all = vec![
        NamedProfile { name: "Default".to_owned(), profile: default },
        NamedProfile { name: "Page 2".to_owned(), profile: page },
    ];
    let m = migrate_device_profiles_to_pages(false, &all, "Default", "/c", "sd-1").unwrap();
    let pages = &m.profiles[0].profile.pages;
    let image = |page: usize| pages[page].keys[0].as_ref().unwrap().states[0].image.clone();
    assert_eq!(image(0), "/c/images/sd-1/Default/1/Keypad.0.0/0.png");
    assert_eq!(image(1), "/c/images/sd-1/Default/2/Keypad.0.0/0.png");
}
