use riverdeck_core::instances::{
    apply_context_for_visuals, clear_custom_icon, create_instance, custom_icon_destination,
    custom_icon_file, instance_images_dir, is_drawn, move_instance, parse_multi_action_run_on,
    remove_instance, reorder_multi_action_child, reorder_toggle_action_child, reset_state_image,
    set_button_label, set_custom_icon_from_path, CustomIconError,
    set_button_label_colour, set_button_label_font_size, set_button_label_placement,
    set_button_show_action_name, set_button_show_icon, set_button_show_title,
    set_instance_settings, set_multi_action_run_on, set_state_image, swap_instances,
    sync_toggle_state_images_from_children, MultiActionRunOn, Swap,
};
use riverdeck_core::json::Json;
use riverdeck_core::shared::{
    is_multi_action_uuid, is_toggle_action_uuid, normalize_builtin_action,
    normalize_starterpack_action, normalize_starterpack_paths, Action, ActionContext,
    ActionInstance, ActionState, Context, ContextError, FontSize, TextPlacement,
};

fn action(uuid: &str) -> Action {
    Action {
        name: "Name".to_owned(),
        uuid: uuid.to_owned(),
        plugin: "p.sdPlugin".to_owned(),
        tooltip: String::new(),
        icon: "icon.png".to_owned(),
        disable_automatic_states: false,
        visible_in_action_list: true,
        supported_in_multi_actions: true,
        property_inspector: String::new(),
        controllers: vec!["Keypad".to_owned()],
        states: vec![ActionState::default()],
    }
}

fn slot_context(position: u8) -> Context {
    Context {
        device: "d".to_owned(),
        profile: "p".to_owned(),
        page: "1".to_owned(),
        controller: "Keypad".to_owned(),
        position,
    }
}

fn made(uuid: &str, position: u8) -> Option<ActionInstance> {
    let mut slot = None;
    create_instance(&mut slot, action(uuid), &slot_context(position));
    slot
}

fn with_children(uuid: &str, n: usize) -> Option<ActionInstance> {
    let mut slot = made(uuid, 0);
    for i in 0..n {
        create_instance(&mut slot, action(&format!("child.{i}")), &slot_context(0));
    }
    slot
}

#[test]
fn contexts_round_trip() {
    let c = ActionContext {
        device: "sd-1".to_owned(),
        profile: "Default".to_owned(),
        page: "2".to_owned(),
        controller: "Keypad".to_owned(),
        position: 14,
        index: 3,
    };
    assert_eq!(c.to_text(), "sd-1.Default.2.Keypad.14.3");
    assert!(ActionContext::parse(&c.to_text()).ok().unwrap().same(&c));
    let old = ActionContext::parse("sd-1.Default.Keypad.14.3").ok().unwrap();
    assert_eq!(old.page, "1");
    assert!(matches!(
        ActionContext::parse("a.b.c"),
        Err(ContextError::NotEnoughSegments)
    ));
    assert!(matches!(
        ActionContext::parse("a.b.1.Keypad.x.0"),
        Err(ContextError::InvalidNumber)
    ));
    assert!(matches!(
        ActionContext::parse("a.b.1.Keypad.256.0"),
        Err(ContextError::InvalidNumber)
    ));
}

#[test]
fn legacy_names_get_their_present_ones() {
    let mut plugin = "opendeck".to_owned();
    let mut uuid = "opendeck.multiaction".to_owned();
    normalize_builtin_action(&mut plugin, &mut uuid);
    assert_eq!(plugin, "riverdeck");
    assert_eq!(uuid, "riverdeck.multiaction");
    assert!(is_multi_action_uuid(&uuid));
    assert!(!is_toggle_action_uuid(&uuid));
    let mut plugin = "com.amansprojects.starterpack.sdPlugin".to_owned();
    let mut uuid = "com.amansprojects.starterpack.runcommand".to_owned();
    normalize_starterpack_action(&mut plugin, &mut uuid);
    assert_eq!(plugin, "io.github.sulrwin.riverdeck.starterpack.sdPlugin");
    assert_eq!(uuid, "io.github.sulrwin.riverdeck.starterpack.runcommand");
    let mut p = "/c/plugins/com.amansprojects.starterpack.sdPlugin/i.png".to_owned();
    normalize_starterpack_paths(&mut p);
    assert_eq!(
        p,
        "/c/plugins/io.github.sulrwin.riverdeck.starterpack.sdPlugin/i.png"
    );
    let mut p = "plugins/com.amansprojects.starterpack.sdPlugin/i.png".to_owned();
    normalize_starterpack_paths(&mut p);
    assert_eq!(
        p,
        "plugins/io.github.sulrwin.riverdeck.starterpack.sdPlugin/i.png"
    );
    let mut p = "C:\\plugins\\com.amansprojects.starterpack.sdPlugin\\i.png".to_owned();
    normalize_starterpack_paths(&mut p);
    assert_eq!(
        p,
        "C:\\plugins\\io.github.sulrwin.riverdeck.starterpack.sdPlugin\\i.png"
    );
    let mut p = "myplugins/com.amansprojects.starterpack.sdPlugin/i.png".to_owned();
    normalize_starterpack_paths(&mut p);
    assert_eq!(p, "myplugins/com.amansprojects.starterpack.sdPlugin/i.png");
}

#[test]
fn created_instances_are_placed() {
    let slot = made("a.b", 3);
    let i = slot.as_ref().unwrap();
    assert_eq!(i.context.position, 3);
    assert_eq!(i.context.index, 0);
    assert_eq!(i.states[0].text, "Name");
    let multi = with_children("riverdeck.multiaction", 2);
    let c = multi.as_ref().unwrap().children.as_ref().unwrap();
    assert_eq!(c.len(), 2);
    assert_eq!(c[0].context.index, 1);
    assert_eq!(c[1].context.index, 2);
    let mut taken = made("a.b", 0);
    assert!(create_instance(&mut taken, action("x"), &slot_context(0)).is_none());
}

#[test]
fn children_reorder_there_and_back() {
    let mut slot = with_children("riverdeck.multiaction", 3);
    let i = slot.as_mut().unwrap();
    assert!(reorder_multi_action_child(i, 0, 2));
    let names: Vec<String> =
        i.children.as_ref().unwrap().iter().map(|c| c.action.uuid.clone()).collect();
    assert_eq!(names, vec!["child.1", "child.2", "child.0"]);
    assert!(reorder_multi_action_child(i, 2, 0));
    assert_eq!(i.children.as_ref().unwrap()[0].action.uuid, "child.0");
    assert!(!reorder_multi_action_child(i, 0, 7));
}

#[test]
fn a_reordered_toggle_keeps_its_current_child() {
    let mut slot = with_children("riverdeck.toggleaction", 3);
    let i = slot.as_mut().unwrap();
    i.current_state = 1;
    assert!(reorder_toggle_action_child(i, 1, 0));
    assert_eq!(i.current_state, 0);
    assert_eq!(i.children.as_ref().unwrap()[0].action.uuid, "child.1");
}

#[test]
fn toggle_states_show_their_children() {
    let mut slot = with_children("riverdeck.toggleaction", 2);
    let i = slot.as_mut().unwrap();
    sync_toggle_state_images_from_children(i);
    assert_eq!(i.states.len(), 2);
    assert_eq!(i.states[0].image, "icon.png");
}

#[test]
fn run_on_reads_back() {
    let mut slot = with_children("riverdeck.multiaction", 1);
    let i = slot.as_mut().unwrap();
    assert!(set_multi_action_run_on(i, MultiActionRunOn::KeyUp));
    assert!(matches!(
        parse_multi_action_run_on(&i.settings),
        MultiActionRunOn::KeyUp
    ));
    assert!(matches!(
        parse_multi_action_run_on(&Json::Null),
        MultiActionRunOn::KeyDown
    ));
    let mut plain = made("a.b", 0);
    assert!(!set_multi_action_run_on(
        plain.as_mut().unwrap(),
        MultiActionRunOn::KeyUp
    ));
}

#[test]
fn labels_change_in_all_states() {
    let mut slot = made("a.b", 0);
    let i = slot.as_mut().unwrap();
    i.states.push(ActionState::default());
    set_button_label(i, "Hi".to_owned());
    set_button_label_placement(i, TextPlacement::Left);
    set_button_label_font_size(i, 20);
    set_button_label_colour(i, "#000000".to_owned());
    set_button_show_title(i, false);
    set_button_show_action_name(i, false);
    set_button_show_icon(i, false);
    set_instance_settings(i, Json::Bool(true));
    for s in &i.states {
        assert_eq!(s.text, "Hi");
        assert!(matches!(s.text_placement, TextPlacement::Left));
        assert_eq!(s.size, FontSize(20));
        assert_eq!(s.colour, "#000000");
        assert!(!s.show && !s.show_action_name && !s.show_icon);
    }
    assert!(matches!(i.settings, Json::Bool(true)));
}

#[test]
fn font_sizes_are_read() {
    assert_eq!(FontSize::from_text("12"), Some(FontSize(12)));
    assert_eq!(FontSize::from_text("x"), None);
    assert_eq!(FontSize::from_number(9), FontSize(9));
}

#[test]
fn custom_icons_have_a_place() {
    let c = made("a.b", 4).unwrap().context;
    assert_eq!(instance_images_dir("/c", &c), "/c/images/d/p/1/Keypad.4.0");
    assert!(custom_icon_file("/d", "png").is_some());
    assert!(custom_icon_file("/d", "exe").is_none());
    let to = custom_icon_destination("/c", &c, "/home/x.png").unwrap();
    assert!(to.starts_with("/c/images/d/p/1/Keypad.4.0/"));
    let mut slot = made("a.b", 4);
    let i = slot.as_mut().unwrap();
    set_state_image(i, None, "new.png");
    assert_eq!(i.states[0].image, "new.png");
    reset_state_image(i, None);
    assert_eq!(i.states[0].image, "actionDefaultImage");
}

#[test]
fn custom_icons_are_set_and_cleared() {
    let mut slot = made("a.b", 4);
    let c = slot.as_ref().unwrap().context.copy();
    let set = |slot: &mut _, source: &str, is_file| {
        set_custom_icon_from_path(slot, &c, Some(0), source, is_file, "/c")
    };
    assert_eq!(set(&mut slot, "/home/x.png", false), Err(CustomIconError::NotFound));
    assert_eq!(set(&mut slot, "/home/x.tiff", true), Err(CustomIconError::Unsupported));
    assert_eq!(slot.as_ref().unwrap().states[0].image, "actionDefaultImage");
    let file = "/c/images/d/p/1/Keypad.4.0/custom_icon.jpg".to_owned();
    assert_eq!(set(&mut slot, " /home/X.JPG ", true), Ok(Some(file.clone())));
    assert_eq!(slot.as_ref().unwrap().states[0].image, file);
    assert_eq!(set(&mut None, "/home/x.png", true), Ok(None));
    assert!(clear_custom_icon(&mut slot, &c, Some(0)));
    assert_eq!(slot.as_ref().unwrap().states[0].image, "actionDefaultImage");
    assert!(!clear_custom_icon(&mut None, &c, None));
    assert_eq!(CustomIconError::NotFound.message(), "icon path not found");
}

#[test]
fn a_toggle_shows_the_custom_icon_of_its_child() {
    let mut slot = made("riverdeck.toggleaction", 4);
    let mut child = made("a.b", 4).unwrap();
    child.context.index = 1;
    let c = child.context.copy();
    slot.as_mut().unwrap().children = Some(vec![child]);
    let set = set_custom_icon_from_path(&mut slot, &c, None, "/x.png", true, "/c");
    let file = "/c/images/d/p/1/Keypad.4.1/custom_icon.png".to_owned();
    assert_eq!(set, Ok(Some(file.clone())));
    assert_eq!(slot.as_ref().unwrap().states[0].image, file);
    assert!(clear_custom_icon(&mut slot, &c, None));
    assert_ne!(slot.as_ref().unwrap().states[0].image, file);
}

#[test]
fn visuals_belong_to_the_slot() {
    let mut c = made("a.b", 4).unwrap().context;
    c.index = 2;
    assert_eq!(apply_context_for_visuals(&c).index, 0);
    assert!(is_drawn(&c, &Some("p".to_owned()), "1"));
    assert!(!is_drawn(&c, &Some("q".to_owned()), "1"));
    assert!(!is_drawn(&c, &None, "1"));
}

#[test]
fn instances_move_and_move_back() {
    let mut a = made("a.b", 0);
    let mut b = None;
    let moved = move_instance(&mut a, &mut b, &slot_context(0), &slot_context(1), false, "/c");
    assert!(moved.is_some());
    assert!(a.is_none());
    assert_eq!(b.as_ref().unwrap().context.position, 1);
    assert!(move_instance(&mut b, &mut a, &slot_context(1), &slot_context(0), false, "/c").is_some());
    assert_eq!(a.as_ref().unwrap().context.position, 0);
    let mut full = made("x.y", 2);
    assert!(move_instance(&mut a, &mut full, &slot_context(0), &slot_context(2), false, "/c").is_none());
}

#[test]
fn instances_swap() {
    let mut a = made("a.b", 0);
    let mut b = made("x.y", 1);
    let r = swap_instances(&mut a, &mut b, &slot_context(0), &slot_context(1), "/c");
    assert!(matches!(r, Ok(Swap::Swapped)));
    assert_eq!(a.as_ref().unwrap().action.uuid, "x.y");
    assert_eq!(b.as_ref().unwrap().context.position, 1);
    let mut empty = None;
    let mut other = None;
    let r = swap_instances(&mut empty, &mut other, &slot_context(0), &slot_context(1), "/c");
    assert!(matches!(r, Ok(Swap::Unchanged)));
    let elsewhere = Context {
        page: "2".to_owned(),
        ..slot_context(1)
    };
    assert!(swap_instances(&mut a, &mut b, &slot_context(0), &elsewhere, "/c").is_err());
    let r = swap_instances(&mut a, &mut b, &slot_context(0), &slot_context(0), "/c");
    assert_eq!(r, Ok(Swap::Unchanged));
}

#[test]
fn removed_instances_are_gone() {
    let mut slot = with_children("riverdeck.multiaction", 2);
    let child = slot.as_ref().unwrap().children.as_ref().unwrap()[0].context.copy();
    assert_eq!(remove_instance(&mut slot, &child).len(), 1);
    assert_eq!(slot.as_ref().unwrap().children.as_ref().unwrap().len(), 1);
    let parent = slot.as_ref().unwrap().context.copy();
    assert_eq!(remove_instance(&mut slot, &parent).len(), 2);
    assert!(slot.is_none());
}
