use riverdeck_core::encoder::{
    dial_press, dial_rotate, take_batch, touch_swipe, touch_tap, touched_encoder, EncoderDetail,
    PendingDialRotate,
};
use riverdeck_core::inbound::{
    device_brightness, device_brightness_title_for_settings, global_settings_file, log_message,
    normalize_device_brightness_action, requested_file, requested_image, set_image, set_settings,
    set_state, set_title, settings_owner, show_alert, show_ok, switch_profile, BrightnessAction,
    DeviceBrightnessEvent, LogMessageEvent, OpenUrlEvent, SetImagePayload, SetStatePayload,
    SetTitlePayload, SwitchProfileEvent,
};
use riverdeck_core::json::{parse_json, Json};
use riverdeck_core::keypad::{
    key_down, key_up, will_appear, will_disappear, Coordinates, GenericInstancePayload,
};
use riverdeck_core::plugins::DeviceNamespaces;
use riverdeck_core::queue::{
    allow_unauthenticated_property_inspectors, enqueue, is_property_inspector_authed,
    retain_newest_within_limits, set_property_inspector_authed, MessageQueues, QueuedMessage,
};
use riverdeck_core::screens::{
    brightness_targets, effective_image_for_instance, overlays_for_instance, route_of_device,
    DeviceRoute,
};
use riverdeck_core::shared::{
    Action, ActionContext, ActionInstance, ActionState, TextPlacement,
};
use riverdeck_core::ui::{emit, UiEvent, UiEvents};

fn action(uuid: &str) -> Action {
    Action {
        name: "Volume".to_owned(),
        uuid: uuid.to_owned(),
        plugin: "p.sdPlugin".to_owned(),
        tooltip: String::new(),
        icon: "icon.png".to_owned(),
        disable_automatic_states: false,
        visible_in_action_list: true,
        supported_in_multi_actions: true,
        property_inspector: String::new(),
        controllers: vec![],
        states: vec![ActionState::default(), ActionState::default()],
    }
}

fn instance(uuid: &str, controller: &str, position: u8, index: u16) -> ActionInstance {
    ActionInstance {
        action: action(uuid),
        context: ActionContext {
            device: "sd-1".to_owned(),
            profile: "Default".to_owned(),
            page: "1".to_owned(),
            controller: controller.to_owned(),
            position,
            index,
        },
        states: vec![ActionState::default(), ActionState::default()],
        current_state: 0,
        settings: Json::Null,
        children: None,
    }
}

fn text(n: usize) -> QueuedMessage {
    QueuedMessage::Text("x".repeat(n))
}

#[test]
fn queues_keep_the_newest_that_fit() {
    let mut q = vec![text(4), text(3), text(3), text(3)];
    retain_newest_within_limits(&mut q, 10, 9);
    assert_eq!(q.len(), 3);
    let mut q = vec![text(1), text(1), text(1)];
    retain_newest_within_limits(&mut q, 2, 100);
    assert_eq!(q.len(), 2);
    let mut q = vec![text(1), text(200)];
    retain_newest_within_limits(&mut q, 2, 100);
    assert_eq!(q.len(), 1);
    assert!(matches!(&q[0], QueuedMessage::Text(s) if s.len() == 1));
    let mut q = vec![text(5)];
    retain_newest_within_limits(&mut q, 0, 100);
    assert_eq!(q.len(), 1);
    let mut q: Vec<QueuedMessage> = vec![];
    retain_newest_within_limits(&mut q, 1, 1);
    assert_eq!(q.len(), 0);
}

#[test]
fn queued_messages_stay_within_limits() {
    let mut q = vec![];
    for i in 0..10usize {
        enqueue(&mut q, QueuedMessage::Binary(vec![0; i]), 3, 20);
        assert!(q.len() <= 3);
    }
    enqueue(&mut q, QueuedMessage::Control, 3, 20);
    assert!(matches!(q.last(), Some(QueuedMessage::Control)));
}

#[test]
fn messages_wait_for_their_receiver() {
    let mut q = MessageQueues::new(2, 100);
    assert!(q.send("a", true, text(1)).is_some());
    assert!(q.send("a", false, text(1)).is_none());
    assert!(q.send("b", false, text(2)).is_none());
    assert!(q.send("a", false, text(3)).is_none());
    assert!(q.send("a", false, text(4)).is_none());
    let got = q.take("a");
    assert_eq!(got.len(), 2);
    assert!(matches!(&got[0], QueuedMessage::Text(s) if s.len() == 3));
    assert!(matches!(&got[1], QueuedMessage::Text(s) if s.len() == 4));
    assert_eq!(q.take("a").len(), 0);
    assert_eq!(q.take("b").len(), 1);
}

#[test]
fn property_inspectors_show_their_token() {
    let mut set = vec![];
    assert!(!is_property_inspector_authed(&set, "u", false));
    set_property_inspector_authed(&mut set, "u", true);
    set_property_inspector_authed(&mut set, "u", true);
    assert_eq!(set.len(), 1);
    assert!(is_property_inspector_authed(&set, "u", false));
    set_property_inspector_authed(&mut set, "u", false);
    assert!(!is_property_inspector_authed(&set, "u", false));
    assert!(is_property_inspector_authed(&set, "u", true));
    assert!(allow_unauthenticated_property_inspectors(&Some("TRUE".to_owned())));
    assert!(allow_unauthenticated_property_inspectors(&Some("1".to_owned())));
    assert!(!allow_unauthenticated_property_inspectors(&Some("yes".to_owned())));
    assert!(!allow_unauthenticated_property_inspectors(&None));
}

#[test]
fn payloads_tell_the_place() {
    let p = GenericInstancePayload::new(&instance("a", "Keypad", 7, 0), 5);
    assert_eq!(p.coordinates, Coordinates { row: 1, column: 2 });
    assert!(!p.is_in_multi_action);
    let p = GenericInstancePayload::new(&instance("a", "Encoder", 3, 1), 0);
    assert_eq!(p.coordinates, Coordinates { row: 0, column: 3 });
    assert!(p.is_in_multi_action);
}

#[test]
fn two_presses_restore_the_state() {
    let mut i = instance("a", "Keypad", 0, 0);
    let down = key_down(&mut i, 5);
    assert_eq!(down.len(), 1);
    assert_eq!(down[0].event, "keyDown");
    assert_eq!(down[0].payload.state, 0);
    let up = key_up(&mut i, 5);
    assert!(up.save);
    assert_eq!(up.event.unwrap().payload.state, 1);
    assert_eq!(i.current_state, 1);
    key_up(&mut i, 5);
    assert_eq!(i.current_state, 0);
    i.action.disable_automatic_states = true;
    key_up(&mut i, 5);
    assert_eq!(i.current_state, 0);
}

#[test]
fn a_multi_action_presses_its_children() {
    let mut i = instance("riverdeck.multiaction", "Keypad", 0, 0);
    i.children = Some(vec![
        instance("a", "Keypad", 0, 1),
        instance("b", "Keypad", 0, 2),
    ]);
    let sent = key_down(&mut i, 5);
    let names: Vec<(&str, &str, u16)> =
        sent.iter().map(|e| (e.event, e.action.as_str(), e.payload.state)).collect();
    assert_eq!(
        names,
        vec![("keyDown", "a", 0), ("keyUp", "a", 1), ("keyDown", "b", 0), ("keyUp", "b", 1)]
    );
    assert_eq!(i.children.as_ref().unwrap()[1].current_state, 1);
    let up = key_up(&mut i, 5);
    assert!(up.event.is_none());
    assert!(up.save);
}

#[test]
fn a_toggle_action_cycles_through_its_children() {
    let mut i = instance("riverdeck.toggleaction", "Keypad", 0, 0);
    i.children = Some(vec![]);
    assert_eq!(key_down(&mut i, 5).len(), 0);
    assert!(!key_up(&mut i, 5).save);
    i.children = Some(vec![
        instance("a", "Keypad", 0, 1),
        instance("b", "Keypad", 0, 2),
        instance("c", "Keypad", 0, 3),
    ]);
    for expected in ["a", "b", "c"] {
        assert_eq!(key_down(&mut i, 5)[0].action, expected);
        assert_eq!(key_up(&mut i, 5).event.unwrap().action, expected);
    }
    assert_eq!(i.current_state, 0);
}

#[test]
fn appearing_is_told() {
    let i = instance("a", "Keypad", 6, 0);
    assert_eq!(will_appear(&i, 5).event, "willAppear");
    assert_eq!(will_disappear(&i, 5).event, "willDisappear");
    assert_eq!(will_appear(&i, 5).plugin, "p.sdPlugin");
}

#[test]
fn rotations_are_summed() {
    let mut pending: Vec<PendingDialRotate> = vec![];
    let mut i = instance("a", "Encoder", 2, 0);
    assert!(dial_rotate(&mut pending, &i, 3));
    i.settings = Json::Bool(true);
    assert!(!dial_rotate(&mut pending, &i, -5));
    let key = i.context.to_text();
    let e = take_batch(&mut pending, &key).unwrap();
    assert_eq!(e.detail, EncoderDetail::Rotate { ticks: -2, pressed: false });
    assert!(matches!(e.settings, Json::Bool(true)));
    assert_eq!(e.coordinates, Coordinates { row: 0, column: 2 });
    assert!(take_batch(&mut pending, &key).is_none());
    dial_rotate(&mut pending, &i, 4);
    dial_rotate(&mut pending, &i, -4);
    assert!(take_batch(&mut pending, &key).is_none());
    dial_rotate(&mut pending, &i, i16::MAX);
    dial_rotate(&mut pending, &i, 1);
    assert_eq!(
        take_batch(&mut pending, &key).unwrap().detail,
        EncoderDetail::Rotate { ticks: i16::MAX, pressed: false }
    );
    i.action.plugin = " ".to_owned();
    assert!(!dial_rotate(&mut pending, &i, 1));
    assert_eq!(pending.len(), 0);
}

#[test]
fn touches_reach_an_encoder() {
    assert_eq!(touched_encoder(0, 4), Some(0));
    assert_eq!(touched_encoder(399, 4), Some(1));
    assert_eq!(touched_encoder(65535, 4), Some(3));
    assert_eq!(touched_encoder(10, 0), None);
    let i = instance("a", "Encoder", 4, 0);
    let e = touch_tap(&i, 10, 20, true);
    assert_eq!(e.event, "touchTap");
    assert_eq!(e.detail, EncoderDetail::Tap { hold: true, x: 10, y: 20 });
    assert_eq!(e.coordinates, Coordinates { row: 1, column: 1 });
    let e = touch_swipe(&i, (1, 2), (3, 4));
    assert_eq!(e.detail, EncoderDetail::Swipe { from: (1, 2), to: (3, 4) });
    assert_eq!(dial_press(&i, "dialUp").event, "dialUp");
}

#[test]
fn labels_do_not_collide() {
    let mut i = instance("a", "Keypad", 0, 0);
    i.states[0].text = "Mute".to_owned();
    i.states[0].text_placement = TextPlacement::Left;
    let l = overlays_for_instance(&i).unwrap();
    assert_eq!(l.len(), 2);
    assert_eq!(l[0], ("Mute".to_owned(), TextPlacement::Left));
    assert_eq!(l[1], ("Volume".to_owned(), TextPlacement::Right));
    i.states[0].text = "Volume".to_owned();
    assert_eq!(overlays_for_instance(&i).unwrap().len(), 1);
    i.states[0].show = false;
    assert_eq!(
        overlays_for_instance(&i).unwrap()[0],
        ("Volume".to_owned(), TextPlacement::Bottom)
    );
    i.states[0].show_action_name = false;
    assert!(overlays_for_instance(&i).is_none());
    i.current_state = 9;
    assert!(overlays_for_instance(&i).is_none());
}

#[test]
fn the_shown_image_is_the_state_or_the_icon() {
    let mut i = instance("a", "Keypad", 0, 0);
    assert_eq!(effective_image_for_instance(&i), Some("icon.png".to_owned()));
    i.states[0].image = " own.png ".to_owned();
    assert_eq!(effective_image_for_instance(&i), Some("own.png".to_owned()));
    i.states[0].image = "".to_owned();
    i.action.icon = " ".to_owned();
    assert_eq!(effective_image_for_instance(&i), None);
}

#[test]
fn devices_are_drawn_by_their_plugin() {
    let mut n = DeviceNamespaces { list: vec![] };
    assert!(matches!(route_of_device(&n, "sd-1"), DeviceRoute::Host));
    assert!(matches!(route_of_device(&n, "xx-1"), DeviceRoute::Nobody));
    n.insert("xx", "x.sdPlugin");
    assert!(matches!(route_of_device(&n, "xx-1"), DeviceRoute::Plugin(p) if p == "x.sdPlugin"));
    let ids = vec!["sd-1".to_owned(), "xx-1".to_owned(), "xx-2".to_owned()];
    assert_eq!(
        brightness_targets(&n, &ids),
        vec![
            ("x.sdPlugin".to_owned(), "xx-1".to_owned()),
            ("x.sdPlugin".to_owned(), "xx-2".to_owned())
        ]
    );
}

#[test]
fn titles_are_set_for_one_state_or_all() {
    let mut i = instance("a", "Keypad", 0, 0);
    i.action.states[1].text = "fallback".to_owned();
    let r = set_title(
        &mut i,
        &SetTitlePayload { title: Some("T".to_owned()), state: Some(1) },
        true,
        "1",
    );
    assert!(r.changed && !r.repaint);
    assert_eq!(i.states[1].text, "T");
    assert_eq!(i.states[0].text, "");
    let r = set_title(&mut i, &SetTitlePayload { title: None, state: None }, true, "1");
    assert!(r.changed && r.repaint);
    assert_eq!(i.states[1].text, "fallback");
    let r = set_title(&mut i, &SetTitlePayload { title: None, state: Some(9) }, true, "1");
    assert!(!r.changed && !r.repaint);
    let r = set_title(&mut i, &SetTitlePayload { title: None, state: None }, true, "2");
    assert!(r.changed && !r.repaint);
}

#[test]
fn images_stay_in_the_plugin() {
    let none: Vec<String> = vec![];
    assert_eq!(requested_image(&Some("../x".to_owned()), "/c", "p", &none), None);
    assert_eq!(requested_image(&Some("/x.png".to_owned()), "/c", "p", &none), None);
    assert_eq!(requested_image(&Some("  ".to_owned()), "/c", "p", &none), None);
    assert_eq!(
        requested_image(&Some(" data:x ".to_owned()), "/c", "p", &none),
        Some(" data:x ".to_owned())
    );
    assert_eq!(
        requested_file("img/a", "/c", "p.sdPlugin"),
        Some("/c/plugins/p.sdPlugin/img/a".to_owned())
    );
    let existing = vec!["/c/plugins/p/img/a.svg".to_owned()];
    assert_eq!(
        requested_image(&Some("img/a".to_owned()), "/c", "p", &existing),
        Some("/c/plugins/p/img/a.svg".to_owned())
    );
    let mut i = instance("a", "Keypad", 0, 0);
    let r = set_image(
        &mut i,
        &SetImagePayload { image: Some("../x".to_owned()), state: Some(0) },
        true,
        "/c",
        &none,
    );
    assert!(r.changed && r.repaint);
    assert_eq!(i.states[0].image, "actionDefaultImage");
    set_image(
        &mut i,
        &SetImagePayload { image: Some("a.png".to_owned()), state: None },
        false,
        "/c",
        &none,
    );
    assert_eq!(i.states[1].image, "/c/plugins/p.sdPlugin/a.png");
}

#[test]
fn states_are_set_where_they_exist() {
    let mut i = instance("a", "Keypad", 0, 0);
    assert!(set_state(&mut i, &SetStatePayload { state: 1 }, true).repaint);
    assert_eq!(i.current_state, 1);
    assert!(!set_state(&mut i, &SetStatePayload { state: 2 }, true).changed);
    assert_eq!(i.current_state, 1);
}

#[test]
fn a_brightness_key_shows_its_value() {
    assert_eq!(normalize_device_brightness_action(" set "), Some(BrightnessAction::Exact));
    assert_eq!(normalize_device_brightness_action("none"), None);
    let title = |s: &str| {
        device_brightness_title_for_settings(&parse_json(s.as_bytes()).unwrap())
    };
    assert_eq!(title("{}"), "50%");
    assert_eq!(title(r#"{"setValue":70}"#), "70%");
    assert_eq!(title(r#"{"value":30}"#), "30%");
    assert_eq!(title(r#"{"setValue":200}"#), "100%");
    assert_eq!(title(r#"{"setValue":300}"#), "44%");
    assert_eq!(title(r#"{"pressAction":"increase"}"#), "1%");
    assert_eq!(title(r#"{"pressAction":"none","action":"decrease","step":5}"#), "5%");
    let mut i = instance("com.amansprojects.starterpack.devicebrightness", "Keypad", 0, 0);
    i.states[1].show = false;
    assert!(set_settings(&mut i, parse_json(br#"{"value":20}"#).unwrap()));
    assert_eq!(i.states[1].text, "20%");
    assert!(i.states[1].show);
    let mut j = instance("a", "Keypad", 0, 0);
    assert!(!set_settings(&mut j, Json::Bool(true)));
    assert_eq!(j.states[0].text, "");
}

#[test]
fn global_settings_belong_to_a_plugin() {
    assert_eq!(settings_owner(false, "p", &None), Some("p".to_owned()));
    assert_eq!(settings_owner(true, "ctx", &Some("q".to_owned())), Some("q".to_owned()));
    assert_eq!(settings_owner(true, "ctx", &None), None);
    assert_eq!(global_settings_file("/c", "p"), "/c/settings/p.json");
}

#[test]
fn other_requests_reach_the_user_interface() {
    let e = LogMessageEvent { message: " hi ".to_owned() };
    assert_eq!(log_message(&None, &e), "hi");
    assert_eq!(log_message(&Some("P".to_owned()), &e), "[P]  hi");
    assert_eq!(OpenUrlEvent { url: "u".to_owned() }.url, "u");
    let c = instance("a", "Keypad", 3, 1).context;
    assert!(matches!(show_alert(&c), UiEvent::ShowAlert { context } if context.position == 3));
    assert!(matches!(show_ok(&c), UiEvent::ShowOk { context } if context.position == 3));
    let s = SwitchProfileEvent { device: "d".to_owned(), profile: "p".to_owned() };
    assert!(matches!(switch_profile(s), UiEvent::SwitchProfile { profile, .. } if profile == "p"));
    let b = DeviceBrightnessEvent { action: "set".to_owned(), value: 5 };
    assert!(matches!(device_brightness(b), UiEvent::DeviceBrightness { value: 5, .. }));
    let mut events = UiEvents { waiting: None };
    emit(&mut events, UiEvent::DevicesUpdated);
    assert!(events.waiting.is_none());
    events.init();
    emit(&mut events, UiEvent::DevicesUpdated);
    events.init();
    assert_eq!(events.waiting.unwrap().len(), 1);
}
