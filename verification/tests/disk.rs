use riverdeck_core::disk::{
    bytes_of_data, image_writes, load_instance, locate_profile, store_instance, DiskActionContext,
    DiskPage, DiskProfileLegacy, DiskProfileV2, BLANK_IMAGE,
};
use riverdeck_core::json::Json;
use riverdeck_core::profiles::{new_page, new_profile};
use riverdeck_core::shared::{Action, ActionContext, ActionInstance, ActionState};

fn instance(image: &str) -> ActionInstance {
    let mut state = ActionState::default();
    state.image = image.to_owned();
    ActionInstance {
        action: Action {
            name: "N".to_owned(),
            uuid: "a.b".to_owned(),
            plugin: "p.sdPlugin".to_owned(),
            tooltip: String::new(),
            icon: "/c/plugins/p.sdPlugin/icon.png".to_owned(),
            disable_automatic_states: false,
            visible_in_action_list: true,
            supported_in_multi_actions: true,
            property_inspector: "/c/plugins/p.sdPlugin/pi.html".to_owned(),
            controllers: vec![],
            states: vec![],
        },
        context: ActionContext {
            device: "sd-1".to_owned(),
            profile: "Default".to_owned(),
            page: "1".to_owned(),
            controller: "Keypad".to_owned(),
            position: 2,
            index: 0,
        },
        states: vec![state],
        current_state: 0,
        settings: Json::Null,
        children: None,
    }
}

#[test]
fn places_round_trip() {
    let c = DiskActionContext { controller: "Keypad".to_owned(), position: 7, index: 2 };
    assert_eq!(c.to_text(), "Keypad.7.2");
    let d = DiskActionContext::parse("Keypad.7.2").unwrap();
    assert_eq!((d.controller.as_str(), d.position, d.index), ("Keypad", 7, 2));
    let d = DiskActionContext::parse("dev.prof.Encoder.1.0").unwrap();
    assert_eq!((d.controller.as_str(), d.position, d.index), ("Encoder", 1, 0));
    assert!(DiskActionContext::parse("Keypad.x.0").is_none());
    assert!(DiskActionContext::parse("Keypad.256.0").is_none());
}

#[test]
fn data_becomes_bytes() {
    assert_eq!(bytes_of_data("data:image/png;base64,aGk=").unwrap(), b"hi".to_vec());
    assert_eq!(bytes_of_data("data:image/svg+xml,<svg/>").unwrap(), b"<svg/>".to_vec());
    assert!(bytes_of_data("data:image/png;base64,???").is_none());
}

#[test]
fn images_held_as_data_become_files() {
    let i = instance("data:image/svg+xml;base64,aGk=");
    let w = image_writes(&i, "/c");
    assert_eq!(w.len(), 1);
    assert_eq!(w[0].dir, "/c/images/sd-1/Default/1/Keypad.2.0");
    assert_eq!(w[0].name, "0.svg");
    assert_eq!(w[0].data, b"hi".to_vec());
    let file = "/c/images/sd-1/Default/1/Keypad.2.0/0.svg".to_owned();
    let d = store_instance(&i, "/c", &vec![file.clone()]);
    assert_eq!(d.states[0].image, "0.svg");
    let back = load_instance(&d, "/c", "sd-1", "Default", "1", &vec![file.clone()]);
    assert_eq!(back.states[0].image, file);
    let unwritten = store_instance(&i, "/c", &vec![]);
    assert_eq!(unwritten.states[0].image, "data:image/svg+xml;base64,aGk=");
    let blank = image_writes(&instance(" data: "), "/c");
    assert_eq!(blank[0].name, "0.png");
    assert!(BLANK_IMAGE.starts_with("data:image/png;base64,"));
    assert_eq!(blank[0].data[1..4], *b"PNG");
}

#[test]
fn paths_are_stored_relative() {
    let d = store_instance(&instance("/c/plugins/p.sdPlugin/x.png"), "/c", &vec![]);
    assert_eq!(d.action.icon, "plugins/p.sdPlugin/icon.png");
    assert_eq!(d.states[0].image, "plugins/p.sdPlugin/x.png");
    let d = store_instance(&instance("/elsewhere/x.png"), "/c", &vec![]);
    assert_eq!(d.states[0].image, "/elsewhere/x.png");
}

#[test]
fn images_before_pages_are_found() {
    let mut d = store_instance(&instance("/c/x.png"), "/c", &vec![]);
    d.states[0].image = "0.png".to_owned();
    let i = load_instance(&d, "/c", "sd-1", "Default", "1", &vec![]);
    assert_eq!(i.states[0].image, "/c/images/sd-1/Default/Keypad.2.0/0.png");
    d.states[0].image = "riverdeck/multi-action.png".to_owned();
    d.action.plugin = "opendeck".to_owned();
    d.action.uuid = "opendeck.toggleaction".to_owned();
    let i = load_instance(&d, "/c", "sd-1", "Default", "1", &vec![]);
    assert_eq!(i.states[0].image, "riverdeck/multi-action.png");
    assert_eq!(i.action.uuid, "riverdeck.toggleaction");
}

#[test]
fn a_stored_profile_reads_back() {
    let mut p = new_profile("Default");
    p.pages = vec![new_page("1"), new_page("2")];
    p.selected_page = "2".to_owned();
    let mut i = instance("/c/images/sd-1/Default/1/Keypad.2.0/0.png");
    i.children = Some(vec![instance("/c/plugins/p.sdPlugin/y.png")]);
    p.pages[0].keys = vec![None, Some(i)];
    p.pages[0].encoder_screen_background = Some("/c/images/bg.png".to_owned());
    let existing = vec!["/c/images/sd-1/Default/1/Keypad.2.0/0.png".to_owned()];
    let d = DiskProfileV2::from_profile(&p, "/c", &vec![]);
    assert_eq!(
        d.pages[0].encoder_screen_background,
        Some("images/bg.png".to_owned())
    );
    let q = d.into_profile("/c", "sd-1", "Default", &existing);
    assert_eq!(q.id, "Default");
    assert_eq!(q.selected_page, "2");
    assert_eq!(q.pages.len(), 2);
    assert_eq!(
        q.pages[0].encoder_screen_background,
        Some("/c/images/bg.png".to_owned())
    );
    let j = q.pages[0].keys[1].as_ref().unwrap();
    assert_eq!(j.states[0].image, existing[0]);
    assert_eq!(j.action.icon, "/c/plugins/p.sdPlugin/icon.png");
    assert_eq!(
        j.children.as_ref().unwrap()[0].states[0].image,
        "/c/plugins/p.sdPlugin/y.png"
    );
    assert!(j.context.same(&p.pages[0].keys[1].as_ref().unwrap().context));
}

#[test]
fn a_profile_without_pages_gets_one() {
    let d = DiskProfileV2 { selected_page: None, pages: vec![] };
    let p = d.into_profile("/c", "d", "x", &vec![]);
    assert_eq!(p.pages.len(), 1);
    assert_eq!(p.selected_page, "1");
    let l = DiskProfileLegacy {
        keys: vec![None, None],
        sliders: vec![],
        encoder_screen_background: Some("rel.png".to_owned()),
    };
    let p = l.into_profile("/c", "d", "x", &vec![]);
    assert_eq!(p.pages[0].keys.len(), 2);
    assert_eq!(p.pages[0].encoder_screen_background, Some("rel.png".to_owned()));
    let page = DiskPage::from_page(&new_page("3"), "/c", &vec![]);
    assert_eq!(page.into_page("/c", "d", "x", &vec![]).id, "3");
}

#[test]
fn the_file_of_a_profile_is_found() {
    let (device, id) = locate_profile("/home/u/.config/app", "/home/u/.config/app/profiles/sd-1/folder/Name.json");
    assert_eq!(device, "sd-1");
    assert_eq!(id, "folder/Name");
}

#[test]
fn a_custom_icon_reads_back() {
    let file = "/c/images/sd-1/Default/1/Keypad.2.0/custom_icon.png";
    let i = instance(file);
    let d = store_instance(&i, "/c", &vec![]);
    assert_eq!(d.states[0].image, "images/sd-1/Default/1/Keypad.2.0/custom_icon.png");
    let j = load_instance(&d, "/c", "sd-1", "Default", "1", &vec![file.to_owned()]);
    assert_eq!(j.states[0].image, file);
    let numbered = "/c/images/sd-1/Default/1/Keypad.2.0/0.png";
    let d = store_instance(&instance(numbered), "/c", &vec![]);
    assert_eq!(d.states[0].image, "0.png");
}
