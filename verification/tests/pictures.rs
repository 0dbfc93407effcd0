use riverdeck_core::animation::{
    decode_gif_cached, AnimationKey, AnimationRegistry, GifCache, MAX_CACHE_ENTRIES,
};
use riverdeck_core::deck::{
    any_label, choose_implementation, describe_device, device_brightness, device_id, device_type,
    icon_origin, kind_for_device_type, labels_to_draw, rounds_corners, segment_origin, sleep_for,
    spawn_all_test_devices_enabled, swipe_delta, target_of, test_devices, update_image, Content,
    DeckFacts, DeckKind, Draw, PlusDeviceState, PlusLayer,
};
use riverdeck_core::label::{ellipsize, ink, ink_on_image, layout_label, wrap_words, Ink};
use riverdeck_core::picture::{
    can_draw_svg, convert_svg_to_image, decode_gif, frame_delay, image_source, is_gif, is_old_placeholder,
    prepare_frames, prepare_gif, read_shown, read_shown_file, resize, svg_picture, svg_target_size, writes_builtin_icon,
    GifFrame, ImageSource, Picture, PictureError, PreparedFrame, ResizeMode, Shown, Target,
};
use riverdeck_core::plugins::DeviceNamespaces;
use riverdeck_core::shared::TextPlacement;

fn solid(width: u32, height: u32, color: [u8; 4]) -> Picture {
    let mut pixels = Vec::new();
    for _ in 0..width * height {
        pixels.extend_from_slice(&color);
    }
    Picture { width, height, pixels }
}

fn gif(frames: u32) -> Vec<u8> {
    let mut out: Vec<u8> = Vec::new();
    {
        let mut encoder = image::codecs::gif::GifEncoder::new(&mut out);
        for i in 0..frames {
            let buffer = image::RgbaImage::from_pixel(4, 2, image::Rgba([i as u8 * 50, 0, 0, 255]));
            let delay = image::Delay::from_numer_denom_ms(100, 1);
            encoder
                .encode_frame(image::Frame::from_parts(buffer, 0, 0, delay))
                .unwrap();
        }
    }
    out
}

fn png(p: &Picture) -> Vec<u8> {
    let image = image::RgbaImage::from_raw(p.width, p.height, p.pixels.clone()).unwrap();
    let mut out = std::io::Cursor::new(Vec::new());
    image::DynamicImage::ImageRgba8(image)
        .write_to(&mut out, image::ImageFormat::Png)
        .unwrap();
    out.into_inner()
}

#[test]
fn delays_are_bounded() {
    assert_eq!(frame_delay(0, 1), 33);
    assert_eq!(frame_delay(100, 1), 100);
    assert_eq!(frame_delay(201, 2), 101);
    assert_eq!(frame_delay(5000, 1), 2000);
    assert_eq!(frame_delay(7, 0), 33);
}

#[test]
fn gifs_are_decoded() {
    let bytes = gif(3);
    assert!(is_gif(&bytes));
    assert!(!is_gif(b"GIF"));
    let frames = decode_gif(&bytes).ok().unwrap();
    assert_eq!(frames.len(), 3);
    assert_eq!(frames[0].delay, 100);
    assert_eq!((frames[0].image.width, frames[0].image.height), (4, 2));
    assert_eq!(frames[0].image.pixels.len(), 32);
    assert!(matches!(decode_gif(b"GIF89a"), Err(PictureError::Unreadable)));
    assert!(matches!(prepare_gif(vec![]), Err(PictureError::NoFrames)));
    let many: Vec<GifFrame> = (0..301)
        .map(|_| GifFrame { numer: 50, denom: 1, picture: solid(1, 1, [0, 0, 0, 0]) })
        .collect();
    assert_eq!(prepare_gif(many).ok().unwrap().len(), 300);
}

#[test]
fn single_frames_are_still() {
    assert!(matches!(read_shown(&gif(3)), Ok(Shown::Animated(f)) if f.len() == 3));
    assert!(matches!(read_shown(&gif(1)), Ok(Shown::Still(p)) if p.width == 4));
    let p = solid(2, 2, [1, 2, 3, 255]);
    assert!(matches!(read_shown(&png(&p)), Ok(Shown::Still(q)) if q.pixels == p.pixels));
    assert!(matches!(read_shown(b"nothing"), Err(PictureError::Unreadable)));
    let named = |e: &str| Some(e.to_owned());
    let shown = read_shown_file(&png(&p), &named("PNG"));
    assert!(matches!(shown, Ok(Shown::Still(q)) if q.pixels == p.pixels));
    assert!(read_shown_file(&png(&p), &named("bmp")).is_err());
    assert!(read_shown_file(&png(&p), &named("txt")).is_err());
    assert!(read_shown_file(&png(&p), &None).is_err());
    assert!(matches!(read_shown_file(&gif(3), &named("png")), Ok(Shown::Animated(_))));
    assert!(read_shown_file(&gif(1), &named("png")).is_err());
}

#[test]
fn pictures_are_resized() {
    let p = solid(4, 2, [9, 8, 7, 255]);
    let exact = Target { width: 6, height: 6, resize_mode: ResizeMode::Exact };
    let q = resize(&p, exact);
    assert_eq!((q.width, q.height, q.pixels.len()), (6, 6, 144));
    assert_eq!(q.pixels[0..4], [9, 8, 7, 255]);
    let fit = Target { width: 8, height: 8, resize_mode: ResizeMode::Fit };
    let q = resize(&p, fit);
    assert_eq!((q.width, q.height), (8, 4));
    let frames = vec![PreparedFrame { delay: 40, image: p }];
    let out = prepare_frames(&frames, exact);
    assert_eq!(out[0].delay, 40);
    assert_eq!(out[0].image.width, 6);
}

#[test]
fn svgs_are_drawn() {
    assert_eq!(svg_target_size(0, 7), (144, 144));
    assert_eq!(svg_target_size(3, 7), (3, 7));
    assert!(svg_picture(1, 1, None).is_none());
    assert_eq!(svg_picture(1, 1, Some(vec![1, 2, 3, 4])).unwrap().pixels, vec![1, 2, 3, 4]);
    let svg = br##"<svg xmlns="http://www.w3.org/2000/svg" width="3" height="2"><rect width="3" height="2" fill="#ff0000"/></svg>"##;
    let p = convert_svg_to_image(svg).unwrap();
    assert_eq!((p.width, p.height), (3, 2));
    assert_eq!(p.pixels[0..4], [255, 0, 0, 255]);
    assert!(convert_svg_to_image(b"no svg").is_none());
    let boxed = convert_svg_to_image(br#"<svg xmlns="http://www.w3.org/2000/svg" viewBox="0 0 5 4"/>"#);
    let boxed = boxed.unwrap();
    assert_eq!((boxed.width, boxed.height, boxed.pixels.len()), (5, 4, 80));
    let thin = br#"<svg xmlns="http://www.w3.org/2000/svg" width="0.5" height="9"/>"#;
    let thin = convert_svg_to_image(thin).unwrap();
    assert_eq!((thin.width, thin.height), (144, 144));
    let empty = br#"<svg xmlns="http://www.w3.org/2000/svg" width="0" height="9"/>"#;
    assert!(convert_svg_to_image(empty).is_none());
    let wide = br#"<svg xmlns="http://www.w3.org/2000/svg" width="600000000" height="1"/>"#;
    assert!(convert_svg_to_image(wide).is_none());
    assert!(can_draw_svg(144, 144) && can_draw_svg(536_870_911, 1));
    assert!(!can_draw_svg(536_870_912, 1) && !can_draw_svg(0, 1) && !can_draw_svg(1, 0));
}

#[test]
fn old_placeholders_are_replaced() {
    let multi = solid(2, 2, [0x2d, 0x9c, 0xdb, 0xff]);
    assert!(is_old_placeholder(&multi, "multi-action.png"));
    assert!(!is_old_placeholder(&multi, "toggle-action.png"));
    let mut changed = solid(2, 2, [0x2d, 0x9c, 0xdb, 0xff]);
    changed.pixels[15] = 0;
    assert!(!is_old_placeholder(&changed, "multi-action.png"));
    assert!(writes_builtin_icon("multi-action.png", None));
    assert!(writes_builtin_icon("multi-action.png", Some(&png(&multi))));
    assert!(!writes_builtin_icon("multi-action.png", Some(&png(&changed))));
    assert!(!writes_builtin_icon("multi-action.png", Some(b"junk")));
    assert!(!writes_builtin_icon("multi-action.bmp", Some(&png(&multi))));
}

#[test]
fn pictures_have_a_source() {
    let existing = vec![
        "/a/b.svg".to_owned(),
        "/c/riverdeck/x.png".to_owned(),
        "/r/opendeck/y.png".to_owned(),
    ];
    let res = Some("/r".to_owned());
    let source = |s: &str| image_source(s, "/c", &res, &existing);
    assert!(matches!(source(" /a/b.svg "), ImageSource::File { path, svg: true } if path == "/a/b.svg"));
    assert!(
        matches!(source("riverdeck/x.png"), ImageSource::File { path, svg: false } if path == "/c/riverdeck/x.png")
    );
    assert!(
        matches!(source("opendeck/y.png"), ImageSource::File { path, .. } if path == "/r/opendeck/y.png")
    );
    assert!(matches!(source("z.png"), ImageSource::NotFound));
    assert!(matches!(source("data:image/png;base64,aGk="), ImageSource::Data(b) if b == b"hi"));
    assert!(matches!(source("data:image/png;base64,%%,"), ImageSource::InvalidData));
    assert!(matches!(source("data:image/png"), ImageSource::MissingComma));
}

fn key(controller: &str) -> AnimationKey {
    AnimationKey {
        device: "d".to_owned(),
        controller: controller.to_owned(),
        position: 1,
    }
}

#[test]
fn new_animations_replace_old_ones() {
    let mut r = AnimationRegistry::new();
    let k = key("Keypad");
    assert!(r.is_current(&k, 0));
    let a = r.next_generation(&k);
    assert_eq!(a, 1);
    let b = r.next_generation(&k);
    assert!(!r.is_current(&k, a));
    assert!(r.is_current(&k, b));
    let other = r.next_generation(&key("Encoder"));
    r.stop(&k);
    assert!(!r.is_current(&k, b));
    assert!(r.is_current(&key("Encoder"), other));
    let c = r.next_generation(&k);
    assert!(c > b);
    assert!(!r.is_current(&k, a) && !r.is_current(&k, b) && r.is_current(&k, c));
}

#[test]
fn the_cache_is_bounded() {
    let mut c = GifCache { entries: vec![] };
    for i in 0..40 {
        let victim = if c.entries.len() >= MAX_CACHE_ENTRIES { 3 } else { 0 };
        c.insert(format!("gif:{i}"), vec![], victim);
    }
    assert_eq!(c.entries.len(), MAX_CACHE_ENTRIES);
    assert!(c.get("gif:39").is_some());
    assert!(c.get("gif:3").is_none());
    let mut c = GifCache { entries: vec![] };
    c.insert("a".to_owned(), vec![], 0);
    c.insert("a".to_owned(), vec![PreparedFrame { delay: 7, image: solid(1, 1, [0; 4]) }], 0);
    assert_eq!(c.entries.len(), 1);
    assert_eq!(c.get("a").unwrap().len(), 1);
}

#[test]
fn slots_are_drawn_by_content() {
    let mut r = AnimationRegistry::new();
    let labels = Some(vec![("Hi".to_owned(), TextPlacement::Top)]);
    let d = update_image(&mut r, &key("Keypad"), false, Content::Animated, &None);
    assert_eq!(d.draw, Draw::KeyAnimation);
    assert_eq!(d.generation, Some(1));
    let d = update_image(&mut r, &key("Keypad"), false, Content::Still, &None);
    assert_eq!(d.draw, Draw::KeyPicture);
    assert!(!r.is_current(&key("Keypad"), 1));
    let d = update_image(&mut r, &key("Keypad"), false, Content::Nothing, &labels);
    assert_eq!(d.draw, Draw::KeyLabels);
    let d = update_image(&mut r, &key("Keypad"), false, Content::Nothing, &None);
    assert_eq!(d.draw, Draw::KeyClear);
    let d = update_image(&mut r, &key("Encoder"), true, Content::Animated, &None);
    assert_eq!((d.draw, d.generation), (Draw::StripAnimation, None));
    let d = update_image(&mut r, &key("Encoder"), false, Content::Animated, &None);
    assert_eq!(d.draw, Draw::DialAnimation);
    let d = update_image(&mut r, &key("Encoder"), true, Content::Nothing, &labels);
    assert_eq!(d.draw, Draw::StripClear);
    assert_eq!(target_of(Draw::KeyPicture, 96, 96).width, 96);
    assert_eq!(target_of(Draw::DialPicture, 96, 96).resize_mode, ResizeMode::Fit);
    assert_eq!(target_of(Draw::StripAnimation, 96, 96).resize_mode, ResizeMode::Exact);
    assert!(rounds_corners(Draw::KeyLabels));
    assert!(!rounds_corners(Draw::StripPicture));
    assert_eq!(icon_origin(2), (464, 14));
    assert_eq!(segment_origin(2), (400, 0));
}

#[test]
fn blank_labels_are_not_drawn() {
    let l = vec![(" ".to_owned(), TextPlacement::Top), ("x".to_owned(), TextPlacement::Left)];
    assert_eq!(labels_to_draw(&l).len(), 1);
    assert!(any_label(&Some(l)));
    assert!(!any_label(&Some(vec![("".to_owned(), TextPlacement::Top)])));
    assert!(!any_label(&None));
}

fn frames() -> Vec<PreparedFrame> {
    vec![
        PreparedFrame { delay: 40, image: solid(1, 1, [1, 1, 1, 1]) },
        PreparedFrame { delay: 60, image: solid(1, 1, [2, 2, 2, 2]) },
    ]
}

#[test]
fn the_strip_shows_frame_after_frame() {
    let mut s = PlusDeviceState::new(2);
    assert_eq!(s.generation, 1);
    assert!(!s.any_animated());
    let g = s.set_dial(4, 3, PlusLayer::animated(frames(), 1000));
    assert_eq!(g, 2);
    assert_eq!(s.dials.len(), 4);
    assert!(s.any_animated());
    assert!(s.claim_task(g));
    assert!(!s.claim_task(g));
    let t = s.tick(g, 1010);
    assert!(t.current && t.animated);
    assert_eq!(t.due, Some(1040));
    assert_eq!(s.dials[3].current_image().pixels[0], 1);
    let t = s.tick(g, 1040);
    assert_eq!(t.due, Some(1100));
    assert_eq!(s.dials[3].current_image().pixels[0], 2);
    let t = s.tick(g, 1200);
    assert_eq!(t.due, Some(1240));
    assert_eq!(s.dials[3].current_image().pixels[0], 1);
    let newer = s.set_background(PlusLayer::Static(solid(1, 1, [5, 5, 5, 5])));
    assert!(!s.task_running);
    assert!(!s.tick(g, 1300).current);
    assert!(s.tick(newer, 1300).current);
    s.clear();
    assert!(!s.any_animated());
    assert_eq!(s.background.current_image().pixels, vec![0, 0, 0, 0]);
}

#[test]
fn generations_are_never_zero() {
    let mut s = PlusDeviceState::new(0);
    s.generation = u64::MAX;
    assert_eq!(s.bump_generation(), 1);
    assert_eq!(sleep_for(Some(100), 100), 1);
    assert_eq!(sleep_for(Some(150), 100), 50);
    assert_eq!(sleep_for(Some(900), 100), 200);
    assert_eq!(sleep_for(Some(50), 100), 5);
    assert_eq!(sleep_for(None, 100), 5);
}

#[test]
fn devices_are_described() {
    assert_eq!(device_type(DeckKind::XlV2Module), 2);
    assert_eq!(device_type(DeckKind::Neo), 9);
    assert_eq!(kind_for_device_type(77), DeckKind::Mk2);
    for t in [0, 1, 2, 5, 7, 9] {
        assert_eq!(device_type(kind_for_device_type(t)), t);
    }
    let facts = DeckFacts { kind: DeckKind::Plus, rows: 2, columns: 4, encoders: 4 };
    let d = describe_device("sd-x".to_owned(), "Plus".to_owned(), &facts);
    assert_eq!(d.device_type, 7);
    assert_eq!(d.screen.unwrap().segments, 4);
    assert_eq!(device_id("AB"), "sd-AB");
    assert_eq!(device_brightness(130), 100);
    assert_eq!(test_devices().len(), 6);
    assert_eq!(test_devices()[4].id, "sd-test-plus");
    assert!(spawn_all_test_devices_enabled(&Some(" ALL ".to_owned())));
    assert!(spawn_all_test_devices_enabled(&Some("on".to_owned())));
    assert!(!spawn_all_test_devices_enabled(&Some("On".to_owned())));
    assert!(!spawn_all_test_devices_enabled(&None));
}

#[test]
fn swipes_change_pages() {
    assert_eq!(swipe_delta((100, 50), (20, 60)), Some(-1));
    assert_eq!(swipe_delta((20, 50), (100, 60)), Some(1));
    assert_eq!(swipe_delta((20, 0), (25, 90)), None);
    assert_eq!(swipe_delta((5, 5), (5, 5)), Some(1));
}

#[test]
fn the_host_leaves_its_devices_to_a_plugin() {
    let mut n = DeviceNamespaces { list: vec![] };
    assert!(!choose_implementation(&mut n, true));
    assert_eq!(
        n.get("sd"),
        Some("opendeck_alternative_elgato_implementation".to_owned())
    );
    assert!(choose_implementation(&mut n, false));
    assert_eq!(n.get("sd"), None);
}

#[test]
fn labels_fit_their_picture() {
    let lines = wrap_words("one two three", 7, 2);
    assert!(lines.len() <= 2);
    for l in &lines {
        assert!(l.len() <= 7);
    }
    let e = ellipsize(&"abcdefgh".chars().collect(), 5);
    assert_eq!(e.len(), 5);
    assert!(layout_label(72, 72, "   ", TextPlacement::Top).is_none());
    let fits = layout_label(72, 72, "ABCDEFG", TextPlacement::Left).unwrap();
    assert_eq!(fits.lines.len(), 7);
    assert_eq!(fits.lines[6], vec!['G']);
    let other = layout_label(72, 72, "ABCDEFX", TextPlacement::Left).unwrap();
    assert_ne!(fits.lines, other.lines);
    let cut = layout_label(72, 72, "ABCDEFGH", TextPlacement::Right).unwrap();
    assert_eq!(cut.lines.len(), 7);
    assert_eq!(cut.lines[6], vec!['\u{2026}']);
    assert!(layout_label(u32::MAX, u32::MAX, "A", TextPlacement::Left).is_some());
    let l = layout_label(72, 72, "A", TextPlacement::Bottom).unwrap();
    assert!(l.x + l.text_width <= 72);
    assert!(l.y + l.text_height <= 72);
    let mut inked = 0;
    for y in 0..l.text_height {
        for x in 0..l.text_width {
            if matches!(ink(&l, x, y), Ink::Text) {
                inked += 1;
            }
        }
    }
    assert!(inked > 0);
    assert!(matches!(ink_on_image(&l, 0, 0), Ink::Clear));
}

#[test]
fn decoded_gifs_are_kept() {
    let mut c = GifCache { entries: vec![] };
    let first = decode_gif_cached(&mut c, "a".to_owned(), &gif(3), 0);
    assert_eq!(first.ok().unwrap().len(), 3);
    assert_eq!(c.entries.len(), 1);
    let kept = decode_gif_cached(&mut c, "a".to_owned(), b"no gif", 0);
    assert_eq!(kept.ok().unwrap()[0].delay, 100);
    let none = decode_gif_cached(&mut c, "b".to_owned(), b"no gif", 0);
    assert!(matches!(none, Err(PictureError::Unreadable)));
    assert_eq!(c.entries.len(), 1);
}
