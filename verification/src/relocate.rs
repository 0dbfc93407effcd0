//! Instances that change their profile or page, together with the images that
//! they keep in a directory of their own.
use vstd::prelude::*;
use crate::path;
use crate::path::{extension, relative_to};
use crate::profiles;
use crate::profiles::{default_page, page_index};
use crate::shared;
use crate::shared::{
    join, ActionContextView, ActionInstance, ActionState, InstanceView, Page, PageView, Profile,
    ProfileView, StateView,
};
use crate::text;
use crate::text::{clone_opt, concat2, owned, same_text, to_lowercase, trim};

verus! {

/// The view of an optional text.
pub open spec fn opt_str(s: Option<&str>) -> Option<Seq<char>> {
    match s {
        Some(t) => Some(t@),
        None => None,
    }
}

/// How images move: those in the directory `old` go to `new`, but for those in the
/// directories of `kept`.
pub struct ImageRoute {
    pub old: String,
    pub new: String,
    pub kept: Vec<String>,
}

/// The model of an `ImageRoute`.
pub struct RouteView {
    pub old: Seq<char>,
    pub new: Seq<char>,
    pub kept: Seq<Seq<char>>,
}

impl View for ImageRoute {
    type V = RouteView;

    open spec fn view(&self) -> RouteView {
        RouteView { old: self.old@, new: self.new@, kept: text::texts(self.kept@) }
    }
}

/// An image lies in one of some directories.
pub open spec fn lies_in(image: Seq<char>, dirs: Seq<Seq<char>>) -> bool {
    exists|k: int|
        0 <= k < dirs.len() && path::relative_path(
            text::trimmed(image),
            #[trigger] dirs[k],
        ) is Some
}

/// Where an image goes. One outside the directory that moves, or in one that is
/// kept, stays.
pub open spec fn moved_image(image: Seq<char>, r: RouteView) -> Seq<char> {
    match path::relative_path(text::trimmed(image), r.old) {
        Some(rel) => if lies_in(image, r.kept) {
            image
        } else {
            shared::joined(r.new, rel)
        },
        None => image,
    }
}

fn is_kept(image: &str, dirs: &Vec<String>) -> (r: bool)
    ensures
        r == lies_in(image@, text::texts(dirs@)),
{
    let t = trim(image);
    let ghost all = text::texts(dirs@);
    let mut i: usize = 0;
    while i < dirs.len()
        invariant
            i <= dirs@.len(),
            all == text::texts(dirs@),
            t@ == text::trimmed(image@),
            forall|k: int| 0 <= k < i ==> path::relative_path(t@, #[trigger] all[k]) is None,
        decreases dirs@.len() - i,
    {
        assert(all[i as int] == dirs@[i as int]@);
        if relative_to(&t, &dirs[i]).is_some() {
            return true;
        }
        i = i + 1;
    }
    false
}

/// Where an image goes.
pub fn move_image(image: &str, route: &ImageRoute) -> (r: String)
    ensures
        r@ == moved_image(image@, route@),
{
    let t = trim(image);
    match relative_to(&t, &route.old) {
        Some(rel) => if is_kept(image, &route.kept) {
            owned(image)
        } else {
            join(&route.new, &rel)
        },
        None => owned(image),
    }
}

/// The states with their images moved.
pub open spec fn moved_states(s: Seq<StateView>, r: RouteView) -> Seq<StateView> {
    s.map_values(|x: StateView| StateView { image: moved_image(x.image, r), ..x })
}

/// Moves the images of states.
pub fn move_states(states: &Vec<ActionState>, route: &ImageRoute) -> (r: Vec<ActionState>)
    ensures
        shared::states_view(r@) == moved_states(shared::states_view(states@), route@),
        r@.len() == states@.len(),
{
    let mut out: Vec<ActionState> = Vec::new();
    let mut i: usize = 0;
    while i < states.len()
        invariant
            i <= states@.len(),
            out@.len() == i,
            forall|k: int|
                0 <= k < i ==> (#[trigger] out@[k])@ == (StateView {
                    image: moved_image(states@[k].image@, route@),
                    ..states@[k]@
                }),
        decreases states@.len() - i,
    {
        let mut st = states[i].copy();
        st.image = move_image(&states[i].image, route);
        out.push(st);
        i = i + 1;
    }
    assert(shared::states_view(out@) =~= moved_states(shared::states_view(states@), route@));
    out
}

/// An instance and its children under the profile `profile` and, where one is
/// given, on the page `page`, with the images moved.
pub open spec fn relocated(
    i: InstanceView,
    profile: Seq<char>,
    page: Option<Seq<char>>,
    r: RouteView,
) -> InstanceView
    decreases i,
{
    InstanceView {
        context: ActionContextView {
            profile,
            page: match page {
                Some(p) => p,
                None => i.context.page,
            },
            ..i.context
        },
        states: moved_states(i.states, r),
        children: match i.children {
            Some(c) => Some(
                Seq::new(
                    c.len(),
                    |k: int|
                        if 0 <= k < c.len() {
                            relocated(c[k], profile, page, r)
                        } else {
                            arbitrary()
                        },
                ),
            ),
            None => None,
        },
        ..i
    }
}

/// Puts an instance and its children under another profile and page, and moves
/// their images.
pub fn rewrite_instance_context(
    inst: &ActionInstance,
    new_profile: &str,
    new_page: Option<&str>,
    route: &ImageRoute,
) -> (r: ActionInstance)
    ensures
        r@ == relocated(
            inst@,
            new_profile@,
            opt_str(new_page),
            route@,
        ),
    decreases inst,
{
    broadcast use shared::lemma_instance_view;

    let ghost page = opt_str(new_page);
    let mut context = inst.context.copy();
    context.profile = owned(new_profile);
    if let Some(p) = new_page {
        context.page = owned(p);
    }
    let children = match &inst.children {
        Some(c) => {
            let mut out: Vec<ActionInstance> = Vec::new();
            let mut i: usize = 0;
            while i < c.len()
                invariant
                    i <= c@.len(),
                    inst.children == Some(*c),
                    page == opt_str(new_page),
                    out@.len() == i,
                    forall|k: int|
                        0 <= k < i ==> (#[trigger] out@[k])@ == relocated(
                            c@[k]@,
                            new_profile@,
                            page,
                            route@,
                        ),
                decreases c@.len() - i,
            {
                assert(decreases_to!(inst => inst.children));
                assert(decreases_to!(inst.children => inst.children->0));
                assert(decreases_to!(c => c@));
                assert(decreases_to!(c@ => c@[i as int]));
                let child = rewrite_instance_context(
                    &c[i],
                    new_profile,
                    new_page,
                    route,
                );
                out.push(child);
                i = i + 1;
            }
            Some(out)
        },
        None => None,
    };
    let r = ActionInstance {
        action: inst.action.copy(),
        context,
        states: move_states(&inst.states, route),
        current_state: inst.current_state,
        settings: inst.settings.copy(),
        children,
    };
    proof {
        let want = relocated(inst@, new_profile@, page, route@);
        if inst.children is Some {
            assert(r@.children->0 =~= want.children->0);
        }
    }
    r
}

/// A slot whose instance is relocated.
pub open spec fn relocated_slot(
    s: Option<InstanceView>,
    profile: Seq<char>,
    page: Option<Seq<char>>,
    r: RouteView,
) -> Option<InstanceView> {
    match s {
        Some(i) => Some(relocated(i, profile, page, r)),
        None => None,
    }
}

/// Slots whose instances are relocated.
pub open spec fn relocated_slots(
    slots: Seq<Option<InstanceView>>,
    profile: Seq<char>,
    page: Option<Seq<char>>,
    r: RouteView,
) -> Seq<Option<InstanceView>> {
    slots.map_values(|s: Option<InstanceView>| relocated_slot(s, profile, page, r))
}

/// A page whose instances are relocated, with its background image moved.
pub open spec fn relocated_page(
    p: PageView,
    profile: Seq<char>,
    page: Option<Seq<char>>,
    r: RouteView,
) -> PageView {
    PageView {
        keys: relocated_slots(p.keys, profile, page, r),
        sliders: relocated_slots(p.sliders, profile, page, r),
        encoder_screen_background: match p.encoder_screen_background {
            Some(bg) => Some(moved_image(bg, r)),
            None => None,
        },
        ..p
    }
}

fn rewrite_slots(
    slots: &Vec<Option<ActionInstance>>,
    new_profile: &str,
    new_page: Option<&str>,
    route: &ImageRoute,
) -> (r: Vec<Option<ActionInstance>>)
    ensures
        shared::slots_view(r@) == relocated_slots(
            shared::slots_view(slots@),
            new_profile@,
            opt_str(new_page),
            route@,
        ),
{
    let ghost page = opt_str(new_page);
    let mut out: Vec<Option<ActionInstance>> = Vec::new();
    let mut i: usize = 0;
    while i < slots.len()
        invariant
            i <= slots@.len(),
            page == opt_str(new_page),
            out@.len() == i,
            forall|k: int|
                0 <= k < i ==> shared::slot_view(#[trigger] out@[k]) == relocated_slot(
                    shared::slot_view(slots@[k]),
                    new_profile@,
                    page,
                    route@,
                ),
        decreases slots@.len() - i,
    {
        let slot = match &slots[i] {
            Some(inst) => Some(
                rewrite_instance_context(
                    inst,
                    new_profile,
                    new_page,
                    route,
                ),
            ),
            None => None,
        };
        out.push(slot);
        i = i + 1;
    }
    assert(shared::slots_view(out@) =~= relocated_slots(
        shared::slots_view(slots@),
        new_profile@,
        page,
        route@,
    ));
    out
}

/// Relocates the instances of a page and moves its background image.
pub fn rewrite_page(
    page: &Page,
    new_profile: &str,
    new_page: Option<&str>,
    route: &ImageRoute,
) -> (r: Page)
    ensures
        r@ == relocated_page(
            page@,
            new_profile@,
            opt_str(new_page),
            route@,
        ),
{
    let background = match &page.encoder_screen_background {
        Some(bg) => Some(move_image(bg, route)),
        None => None,
    };
    Page {
        id: page.id.clone(),
        keys: rewrite_slots(&page.keys, new_profile, new_page, route),
        sliders: rewrite_slots(&page.sliders, new_profile, new_page, route),
        encoder_screen_background: background,
        encoder_screen_crop: page.encoder_screen_crop,
    }
}

/// The directory of the images of a profile.
pub open spec fn profile_images(
    config_dir: Seq<char>,
    device: Seq<char>,
    profile: Seq<char>,
) -> Seq<char> {
    shared::joined(shared::joined(shared::joined(config_dir, "images"@), device), profile)
}

/// The directory of the images of a profile.
pub fn profile_images_dir(config_dir: &str, device: &str, profile: &str) -> (r: String)
    ensures
        r@ == profile_images(config_dir@, device@, profile@),
{
    let images = join(config_dir, "images");
    let of_device = join(&images, device);
    join(&of_device, profile)
}

/// The directory of the images of a page.
pub open spec fn page_images(
    config_dir: Seq<char>,
    device: Seq<char>,
    profile: Seq<char>,
    page: Seq<char>,
) -> Seq<char> {
    shared::joined(profile_images(config_dir, device, profile), page)
}

/// The directory of the images of a page.
pub fn page_images_dir(config_dir: &str, device: &str, profile: &str, page: &str) -> (r: String)
    ensures
        r@ == page_images(config_dir@, device@, profile@, page@),
{
    let dir = profile_images_dir(config_dir, device, profile);
    join(&dir, page)
}

/// A copy of a profile under another id, with images of its own.
pub open spec fn cloned_profile(
    p: ProfileView,
    id: Seq<char>,
    r: RouteView,
) -> ProfileView {
    ProfileView {
        id,
        pages: p.pages.map_values(|x: PageView| relocated_page(x, id, None, r)),
        ..p
    }
}

/// How the images of a device's profile move to those of another.
pub open spec fn profile_route(
    config_dir: Seq<char>,
    device: Seq<char>,
    from: Seq<char>,
    to: Seq<char>,
) -> RouteView {
    RouteView {
        old: profile_images(config_dir, device, from),
        new: profile_images(config_dir, device, to),
        kept: Seq::empty(),
    }
}

/// A copy of the profile `source` of a device under the id `id`, with its
/// images in a directory of its own.
pub fn clone_profile(source: &Profile, source_id: &str, id: &str, config_dir: &str, device: &str)
    -> (r: Profile)
    ensures
        r@ == cloned_profile(
            source@,
            id@,
            profile_route(config_dir@, device@, source_id@, id@),
        ),
{
    let route = ImageRoute {
        old: profile_images_dir(config_dir, device, source_id),
        new: profile_images_dir(config_dir, device, id),
        kept: Vec::new(),
    };
    assert(route@.kept =~= Seq::<Seq<char>>::empty());
    let mut pages: Vec<Page> = Vec::new();
    let mut i: usize = 0;
    while i < source.pages.len()
        invariant
            i <= source.pages@.len(),
            pages@.len() == i,
            forall|k: int|
                0 <= k < i ==> (#[trigger] pages@[k])@ == relocated_page(
                    source.pages@[k]@,
                    id@,
                    None,
                    route@,
                ),
        decreases source.pages@.len() - i,
    {
        pages.push(rewrite_page(&source.pages[i], id, None, &route));
        i = i + 1;
    }
    let r = Profile { id: owned(id), pages, selected_page: source.selected_page.clone() };
    assert(r@.pages =~= source@.pages.map_values(
        |x: PageView| relocated_page(x, id@, None, route@),
    ));
    r
}

/// Relocating keeps the actions, settings and current states of an instance,
/// and every instance ends up under the new profile.
pub proof fn law_relocated_keeps(
    i: InstanceView,
    profile: Seq<char>,
    page: Option<Seq<char>>,
    route: RouteView,
)
    ensures
        ({
            let r = relocated(i, profile, page, route);
            &&& r.action == i.action
            &&& r.settings == i.settings
            &&& r.current_state == i.current_state
            &&& r.states.len() == i.states.len()
            &&& r.context.profile == profile
            &&& r.context.device == i.context.device
            &&& r.context.index == i.context.index
            &&& r.children is Some <==> i.children is Some
            &&& r.children is Some ==> r.children->0.len() == i.children->0.len()
            &&& r.children is Some ==> forall|k: int|
                0 <= k < r.children->0.len() ==> (#[trigger] r.children->0[k]).context.profile
                    == profile
        }),
{
    let r = relocated(i, profile, page, route);
    if i.children is Some {
        assert forall|k: int| 0 <= k < r.children->0.len() implies (
        #[trigger] r.children->0[k]).context.profile == profile by {
            assert(r.children->0[k] == relocated(i.children->0[k], profile, page, route));
        }
    }
}

/// Images that have moved stay where they went.
pub open spec fn settles(r: RouteView) -> bool {
    &&& r.old.len() > 0
    &&& r.new.len() > 0
    &&& r.new.last() != '/'
    &&& !text::is_white_space(r.new[0])
    &&& r.kept.contains(r.new)
}

proof fn lemma_moved_twice(image: Seq<char>, r: RouteView)
    requires
        settles(r),
    ensures
        moved_image(moved_image(image, r), r) == moved_image(image, r),
{
    match path::relative_path(text::trimmed(image), r.old) {
        Some(rel) => {
            if !lies_in(image, r.kept) {
                path::lemma_rest_is_relative(text::trimmed(image), r.old);
                let moved = shared::joined(r.new, rel);
                let front = r.new + seq!['/'];
                assert(moved =~= front + rel);
                text::lemma_trimmed_behind(front, rel);
                let rest = text::trim_end_where(rel, |c: char| text::is_white_space(c));
                path::lemma_lies_below(r.new, rest);
                let k = choose|k: int| 0 <= k < r.kept.len() && r.kept[k] == r.new;
                assert(path::relative_path(text::trimmed(moved), r.kept[k]) is Some);
                assert(lies_in(moved, r.kept));
            }
        },
        None => {},
    }
}

proof fn lemma_states_moved_twice(s: Seq<StateView>, r: RouteView)
    requires
        settles(r),
    ensures
        moved_states(moved_states(s, r), r) == moved_states(s, r),
{
    let once = moved_states(s, r);
    assert forall|k: int| 0 <= k < s.len() implies moved_states(once, r)[k] == once[k] by {
        lemma_moved_twice(s[k].image, r);
    }
    assert(moved_states(once, r) =~= once);
}

proof fn lemma_relocated_twice(
    i: InstanceView,
    profile: Seq<char>,
    page: Option<Seq<char>>,
    r: RouteView,
)
    requires
        settles(r),
    ensures
        ({
            let once = relocated(i, profile, page, r);
            relocated(once, profile, page, r) == once
        }),
    decreases i,
{
    let once = relocated(i, profile, page, r);
    let twice = relocated(once, profile, page, r);
    lemma_states_moved_twice(i.states, r);
    match i.children {
        Some(c) => {
            assert forall|k: int| 0 <= k < c.len() implies twice.children->0[k]
                == once.children->0[k] by {
                lemma_relocated_twice(c[k], profile, page, r);
                assert(once.children->0[k] == relocated(c[k], profile, page, r));
            }
            assert(twice.children->0 =~= once.children->0);
        },
        None => {},
    }
}

proof fn lemma_slots_relocated_twice(
    s: Seq<Option<InstanceView>>,
    profile: Seq<char>,
    page: Option<Seq<char>>,
    r: RouteView,
)
    requires
        settles(r),
    ensures
        ({
            let once = relocated_slots(s, profile, page, r);
            relocated_slots(once, profile, page, r) == once
        }),
{
    let once = relocated_slots(s, profile, page, r);
    let twice = relocated_slots(once, profile, page, r);
    assert forall|k: int| 0 <= k < s.len() implies twice[k] == once[k] by {
        if s[k] is Some {
            lemma_relocated_twice(s[k]->0, profile, page, r);
        }
    }
    assert(twice =~= once);
}

/// A page that was relocated is left as it is when it is relocated alike again.
pub proof fn law_relocated_once(
    p: PageView,
    profile: Seq<char>,
    page: Option<Seq<char>>,
    r: RouteView,
)
    requires
        settles(r),
    ensures
        ({
            let once = relocated_page(p, profile, page, r);
            relocated_page(once, profile, page, r) == once
        }),
{
    lemma_slots_relocated_twice(p.keys, profile, page, r);
    lemma_slots_relocated_twice(p.sliders, profile, page, r);
    match p.encoder_screen_background {
        Some(bg) => {
            lemma_moved_twice(bg, r);
        },
        None => {},
    }
}

/// The states `b` are the states `a`, whatever their images are.
pub open spec fn keeps_states(a: Seq<StateView>, b: Seq<StateView>) -> bool {
    &&& b.len() == a.len()
    &&& forall|k: int|
        0 <= k < a.len() ==> (#[trigger] b[k]) == (StateView { image: b[k].image, ..a[k] })
}

/// The instance `b` is the instance `a` under the profile `profile` and on the
/// page `page`: it and each of its children has the same action, settings and
/// current state, stands in the same slot, and has the same states but for their
/// images.
pub open spec fn keeps_instance(
    a: InstanceView,
    b: InstanceView,
    profile: Seq<char>,
    page: Seq<char>,
) -> bool
    decreases a,
{
    &&& b.action == a.action
    &&& b.settings == a.settings
    &&& b.current_state == a.current_state
    &&& keeps_states(a.states, b.states)
    &&& b.context.device == a.context.device
    &&& b.context.controller == a.context.controller
    &&& b.context.position == a.context.position
    &&& b.context.index == a.context.index
    &&& b.context.profile == profile
    &&& b.context.page == page
    &&& b.children is Some <==> a.children is Some
    &&& match a.children {
        Some(c) => b.children->0.len() == c.len() && forall|k: int|
            0 <= k < c.len() ==> keeps_instance(
                #[trigger] c[k],
                b.children->0[k],
                profile,
                page,
            ),
        None => true,
    }
}

/// There are as many slots, occupied where they were, by the same instances.
pub open spec fn keeps_slots(
    a: Seq<Option<InstanceView>>,
    b: Seq<Option<InstanceView>>,
    profile: Seq<char>,
    page: Seq<char>,
) -> bool {
    &&& b.len() == a.len()
    &&& forall|k: int|
        #![trigger a[k]]
        #![trigger b[k]]
        0 <= k < a.len() ==> (b[k] is Some <==> a[k] is Some) && (a[k] is Some ==> keeps_instance(
            a[k]->0,
            b[k]->0,
            profile,
            page,
        ))
}

/// The page `b` holds what the page `a` holds, under the profile `profile` and on
/// the page `page`.
pub open spec fn keeps_page(
    a: PageView,
    b: PageView,
    profile: Seq<char>,
    page: Seq<char>,
) -> bool {
    &&& keeps_slots(a.keys, b.keys, profile, page)
    &&& keeps_slots(a.sliders, b.sliders, profile, page)
    &&& b.encoder_screen_background is Some <==> a.encoder_screen_background is Some
    &&& b.encoder_screen_crop == a.encoder_screen_crop
}

proof fn lemma_relocated_keeps_instance(
    i: InstanceView,
    profile: Seq<char>,
    page: Seq<char>,
    r: RouteView,
)
    ensures
        keeps_instance(i, relocated(i, profile, Some(page), r), profile, page),
    decreases i,
{
    let b = relocated(i, profile, Some(page), r);
    assert forall|k: int| 0 <= k < i.states.len() implies (#[trigger] b.states[k]) == (StateView {
        image: b.states[k].image,
        ..i.states[k]
    }) by {}
    match i.children {
        Some(c) => {
            assert forall|k: int| 0 <= k < c.len() implies keeps_instance(
                #[trigger] c[k],
                b.children->0[k],
                profile,
                page,
            ) by {
                lemma_relocated_keeps_instance(c[k], profile, page, r);
                assert(b.children->0[k] == relocated(c[k], profile, Some(page), r));
            }
        },
        None => {},
    }
}

/// A page that is relocated holds what it held: as many keys and dials, occupied
/// where they were, each by the same action with the same settings, current state
/// and children, under the new profile and page.
pub proof fn law_relocated_page_keeps(
    p: PageView,
    profile: Seq<char>,
    page: Seq<char>,
    r: RouteView,
)
    ensures
        keeps_page(p, relocated_page(p, profile, Some(page), r), profile, page),
        relocated_page(p, profile, Some(page), r).id == p.id,
{
    let b = relocated_page(p, profile, Some(page), r);
    assert forall|k: int| 0 <= k < p.keys.len() implies (#[trigger] b.keys[k] is Some
        <==> p.keys[k] is Some) && (p.keys[k] is Some ==> keeps_instance(
        p.keys[k]->0,
        b.keys[k]->0,
        profile,
        page,
    )) by {
        if p.keys[k] is Some {
            lemma_relocated_keeps_instance(p.keys[k]->0, profile, page, r);
        }
    }
    assert forall|k: int| 0 <= k < p.sliders.len() implies (#[trigger] b.sliders[k] is Some
        <==> p.sliders[k] is Some) && (p.sliders[k] is Some ==> keeps_instance(
        p.sliders[k]->0,
        b.sliders[k]->0,
        profile,
        page,
    )) by {
        if p.sliders[k] is Some {
            lemma_relocated_keeps_instance(p.sliders[k]->0, profile, page, r);
        }
    }
}

proof fn lemma_keeps_instance_chain(
    a: InstanceView,
    b: InstanceView,
    c: InstanceView,
    first: (Seq<char>, Seq<char>),
    profile: Seq<char>,
    page: Seq<char>,
)
    requires
        keeps_instance(a, b, first.0, first.1),
        keeps_instance(b, c, profile, page),
    ensures
        keeps_instance(a, c, profile, page),
    decreases a,
{
    assert forall|k: int| 0 <= k < a.states.len() implies (#[trigger] c.states[k]) == (StateView {
        image: c.states[k].image,
        ..a.states[k]
    }) by {
        assert(b.states[k] == (StateView { image: b.states[k].image, ..a.states[k] }));
    }
    match a.children {
        Some(x) => {
            assert forall|k: int| 0 <= k < x.len() implies keeps_instance(
                #[trigger] x[k],
                c.children->0[k],
                profile,
                page,
            ) by {
                let y = b.children->0;
                assert(keeps_instance(y[k], c.children->0[k], profile, page));
                lemma_keeps_instance_chain(x[k], y[k], c.children->0[k], first, profile, page);
            }
        },
        None => {},
    }
}

proof fn lemma_keeps_slots_chain(
    a: Seq<Option<InstanceView>>,
    b: Seq<Option<InstanceView>>,
    c: Seq<Option<InstanceView>>,
    first: (Seq<char>, Seq<char>),
    profile: Seq<char>,
    page: Seq<char>,
)
    requires
        keeps_slots(a, b, first.0, first.1),
        keeps_slots(b, c, profile, page),
    ensures
        keeps_slots(a, c, profile, page),
{
    assert forall|k: int| 0 <= k < a.len() implies (#[trigger] c[k] is Some <==> a[k] is Some) && (
    a[k] is Some ==> keeps_instance(a[k]->0, c[k]->0, profile, page)) by {
        assert(b[k] is Some <==> a[k] is Some);
        if a[k] is Some {
            lemma_keeps_instance_chain(a[k]->0, b[k]->0, c[k]->0, first, profile, page);
        }
    }
}

/// What holds what was held by a page that holds what was held, holds it too.
pub proof fn lemma_keeps_page_chain(
    a: PageView,
    b: PageView,
    c: PageView,
    first: (Seq<char>, Seq<char>),
    profile: Seq<char>,
    page: Seq<char>,
)
    requires
        keeps_page(a, b, first.0, first.1),
        keeps_page(b, c, profile, page),
    ensures
        keeps_page(a, c, profile, page),
{
    lemma_keeps_slots_chain(a.keys, b.keys, c.keys, first, profile, page);
    lemma_keeps_slots_chain(a.sliders, b.sliders, c.sliders, first, profile, page);
}

/// An image of the directory that moves, named by a plain path below it, has the
/// same path below the directory to which it moves, unless it lies in one that is
/// kept; an image elsewhere stays.
pub proof fn law_moved_image_keeps_its_name(r: RouteView, rel: Seq<char>)
    requires
        r.old.len() > 0,
        r.old.last() != '/',
        r.new.len() > 0,
        r.new.last() != '/',
        path::is_plain(rel),
        text::trimmed(r.old + seq!['/'] + rel) == r.old + seq!['/'] + rel,
    ensures
        !lies_in(r.old + seq!['/'] + rel, r.kept) ==> moved_image(r.old + seq!['/'] + rel, r)
            == r.new + seq!['/'] + rel,
        lies_in(r.old + seq!['/'] + rel, r.kept) ==> moved_image(r.old + seq!['/'] + rel, r)
            == r.old + seq!['/'] + rel,
{
    path::law_joined_path_is_relative(r.old, rel);
    path::law_joined_path_is_relative(r.new, rel);
}

// ---------------------------------------------------------------------------
// The selected page
// ---------------------------------------------------------------------------

/// The position of the page that is shown: the selected one, or the first where
/// there is no such page.
pub open spec fn shown_index(p: ProfileView) -> int {
    let ids = profiles::page_ids(p.pages);
    if ids.contains(p.selected_page) {
        text::first_index(ids, p.selected_page)
    } else {
        0
    }
}

/// The profile with at least one page and with a selection.
pub open spec fn with_selection(p: ProfileView) -> ProfileView {
    ProfileView {
        pages: if p.pages.len() == 0 {
            seq![profiles::blank_page("1"@)]
        } else {
            p.pages
        },
        selected_page: if text::trimmed(p.selected_page).len() == 0 {
            "1"@
        } else {
            p.selected_page
        },
        ..p
    }
}

/// Makes sure that the profile has a page and a selection, and returns the
/// position of the page that is shown.
pub fn ensure_selection(profile: &mut Profile) -> (r: usize)
    ensures
        final(profile)@ == with_selection(old(profile)@),
        r == shown_index(final(profile)@),
        r < final(profile).pages@.len(),
{
    if profile.pages.len() == 0 {
        profile.pages.push(default_page());
        assert(shared::pages_view(profile.pages@) =~= seq![profiles::blank_page("1"@)]);
    }
    if trim(&profile.selected_page).as_str().is_empty() {
        profile.selected_page = owned("1");
    }
    let i = page_index(&profile.pages, &profile.selected_page);
    if i < profile.pages.len() {
        i
    } else {
        0
    }
}

/// The page that is shown, to be changed.
pub fn selected_page_mut<'a>(profile: &'a mut Profile) -> (r: &'a mut Page)
    ensures
        ({
            let p = with_selection(old(profile)@);
            let i = shown_index(p);
            &&& 0 <= i < p.pages.len()
            &&& (*r)@ == p.pages[i]
            &&& final(profile)@ == (ProfileView { pages: p.pages.update(i, (*final(r))@), ..p })
        }),
{
    broadcast use shared::lemma_pages_update;

    let i = ensure_selection(profile);
    &mut profile.pages[i]
}

/// The page that is shown.
pub fn selected_page<'a>(profile: &'a Profile) -> (r: Option<&'a Page>)
    ensures
        match r {
            Some(p) => profile@.pages.len() > 0 && p@ == profile@.pages[shown_index(profile@)],
            None => profile@.pages.len() == 0,
        },
{
    let i = page_index(&profile.pages, &profile.selected_page);
    if i < profile.pages.len() {
        Some(&profile.pages[i])
    } else if profile.pages.len() > 0 {
        Some(&profile.pages[0])
    } else {
        None
    }
}

// ---------------------------------------------------------------------------
// The background of the encoder screen
// ---------------------------------------------------------------------------

/// The lower-case extension of a file, `png` where it has none.
pub open spec fn image_extension(file: Seq<char>) -> Seq<char> {
    text::lowercased(
        match path::extension_of(file) {
            Some(e) => e,
            None => "png"@,
        },
    )
}

/// The lower-case extension of a file, `png` where it has none.
pub fn image_extension_of(file: &str) -> (r: String)
    ensures
        r@ == image_extension(file@),
{
    match extension(file) {
        Some(e) => to_lowercase(&e),
        None => to_lowercase("png"),
    }
}

/// The file to which a background image is copied, by the extension of the
/// image; `None` where that is none of `png`, `jpg` and `jpeg`.
pub fn background_file(dir: &str, ext: &str) -> (r: Option<String>)
    ensures
        text::opt_text(r) == if ext@ == "png"@ || ext@ == "jpg"@ || ext@ == "jpeg"@ {
            Some(shared::joined(dir@, "encoder_screen_background."@ + ext@))
        } else {
            None
        },
{
    if same_text(ext, "png") || same_text(ext, "jpg") || same_text(ext, "jpeg") {
        let name = concat2("encoder_screen_background.", ext);
        Some(join(dir, &name))
    } else {
        None
    }
}

/// A profile with the background of the page that is shown set.
pub open spec fn with_background(p: ProfileView, background: Option<Seq<char>>) -> ProfileView {
    let whole = with_selection(p);
    let i = shown_index(whole);
    ProfileView {
        pages: whole.pages.update(
            i,
            PageView { encoder_screen_background: background, ..whole.pages[i] },
        ),
        ..whole
    }
}

/// Sets the background of the page that is shown.
pub fn set_page_background(profile: &mut Profile, background: &Option<String>)
    ensures
        final(profile)@ == with_background(old(profile)@, text::opt_text(*background)),
{
    let page = selected_page_mut(profile);
    page.encoder_screen_background = clone_opt(background);
}

/// Why a background was not set.
#[derive(Clone, Copy, Debug, PartialEq, Eq, Structural)]
pub enum BackgroundError {
    /// There is no such file.
    NotFound,
    /// The file is of a kind that cannot be drawn.
    Unsupported,
}

impl BackgroundError {
    /// The text of the error.
    pub fn message(self) -> (r: &'static str)
        ensures
            r@ == match self {
                BackgroundError::NotFound => "background path not found"@,
                BackgroundError::Unsupported => "unsupported image type (use png/jpg/jpeg)"@,
            },
    {
        match self {
            BackgroundError::NotFound => "background path not found",
            BackgroundError::Unsupported => "unsupported image type (use png/jpg/jpeg)",
        }
    }
}

/// The background that a source comes to: the file to which it is copied, in the
/// directory `dir`, by its extension; none where there is no source.
pub open spec fn background_outcome(
    source: Option<Seq<char>>,
    source_is_file: bool,
    dir: Seq<char>,
) -> Result<Option<Seq<char>>, BackgroundError> {
    match source {
        None => Ok(None),
        Some(s) => {
            let ext = image_extension(text::trimmed(s));
            if !source_is_file {
                Err(BackgroundError::NotFound)
            } else if ext == "png"@ || ext == "jpg"@ || ext == "jpeg"@ {
                Ok(Some(shared::joined(dir, "encoder_screen_background."@ + ext)))
            } else {
                Err(BackgroundError::Unsupported)
            }
        },
    }
}

/// Sets the background of the page that the profile `id` shows to a copy of the
/// file `source_path`, or removes it. Returns the file to which it is copied.
pub fn set_encoder_screen_background(
    profile: &mut Profile,
    id: &str,
    device: &str,
    source_path: &Option<String>,
    source_is_file: bool,
    config_dir: &str,
) -> (r: Result<Option<String>, BackgroundError>)
    ensures
        ({
            let whole = with_selection(old(profile)@);
            let outcome = background_outcome(
                text::opt_text(*source_path),
                source_is_file,
                page_images(config_dir@, device@, id@, whole.selected_page),
            );
            &&& match r {
                Ok(f) => outcome == Ok::<Option<Seq<char>>, BackgroundError>(text::opt_text(f)),
                Err(e) => outcome == Err::<Option<Seq<char>>, BackgroundError>(e),
            }
            &&& final(profile)@ == match outcome {
                Ok(b) => with_background(old(profile)@, b),
                Err(_) => whole,
            }
        }),
{
    let _ = ensure_selection(profile);
    assert(with_selection(profile@).pages =~= profile@.pages);
    let background = match source_path {
        None => None,
        Some(source) => {
            if !source_is_file {
                return Err(BackgroundError::NotFound);
            }
            let t = trim(source);
            let ext = image_extension_of(&t);
            let dir = page_images_dir(config_dir, device, id, &profile.selected_page);
            match background_file(&dir, &ext) {
                Some(file) => Some(file),
                None => {
                    return Err(BackgroundError::Unsupported);
                },
            }
        },
    };
    set_page_background(profile, &background);
    Ok(background)
}

/// A copy of a profile under another id has the pages of the profile, by their ids,
/// with the same instances at the same places: the same actions, settings, states
/// and current states, in the new profile and on the page where they were. The
/// selection is that of the profile.
pub proof fn law_clone_keeps_instances(p: ProfileView, id: Seq<char>, r: RouteView, k: int)
    requires
        0 <= k < p.pages.len(),
    ensures
        ({
            let c = cloned_profile(p, id, r);
            let a = p.pages[k];
            let b = c.pages[k];
            &&& c.id == id
            &&& c.selected_page == p.selected_page
            &&& c.pages.len() == p.pages.len()
            &&& b.id == a.id
            &&& b.encoder_screen_crop == a.encoder_screen_crop
            &&& b.encoder_screen_background is Some <==> a.encoder_screen_background is Some
            &&& clones_slots(a.keys, b.keys, id)
            &&& clones_slots(a.sliders, b.sliders, id)
        }),
{
    let c = cloned_profile(p, id, r);
    let a = p.pages[k];
    lemma_clones_slots(a.keys, id, r);
    lemma_clones_slots(a.sliders, id, r);
}

/// There are as many slots, occupied where they were, and each instance that stands
/// on one page with all its children is kept there, in the profile `id`.
pub open spec fn clones_slots(
    a: Seq<Option<InstanceView>>,
    b: Seq<Option<InstanceView>>,
    id: Seq<char>,
) -> bool {
    &&& b.len() == a.len()
    &&& forall|j: int|
        0 <= j < a.len() ==> ((#[trigger] b[j]) is Some <==> a[j] is Some) && (a[j] matches Some(i)
            ==> all_on(i, i.context.page) ==> keeps_instance(i, b[j]->0, id, i.context.page))
}

proof fn lemma_clones_slots(a: Seq<Option<InstanceView>>, id: Seq<char>, r: RouteView)
    ensures
        clones_slots(a, relocated_slots(a, id, None, r), id),
{
    let b = relocated_slots(a, id, None, r);
    assert forall|j: int| 0 <= j < a.len() implies ((#[trigger] b[j]) is Some <==> a[j] is Some)
        && (a[j] matches Some(i) ==> all_on(i, i.context.page) ==> keeps_instance(
        i,
        b[j]->0,
        id,
        i.context.page,
    )) by {
        if let Some(i) = a[j] {
            if all_on(i, i.context.page) {
                lemma_clone_keeps_instance(i, id, r, i.context.page);
            }
        }
    }
}

/// The instance and all below it name the page `page`.
pub open spec fn all_on(i: InstanceView, page: Seq<char>) -> bool
    decreases i,
{
    &&& i.context.page == page
    &&& match i.children {
        Some(c) => forall|k: int| 0 <= k < c.len() ==> all_on(#[trigger] c[k], page),
        None => true,
    }
}

proof fn lemma_clone_keeps_instance(
    i: InstanceView,
    id: Seq<char>,
    r: RouteView,
    page: Seq<char>,
)
    requires
        all_on(i, page),
    ensures
        keeps_instance(i, relocated(i, id, None, r), id, page),
    decreases i,
{
    let b = relocated(i, id, None, r);
    assert(keeps_states(i.states, b.states));
    if let Some(c) = i.children {
        assert forall|k: int| 0 <= k < c.len() implies keeps_instance(
            #[trigger] c[k],
            b.children->0[k],
            id,
            page,
        ) by {
            lemma_clone_keeps_instance(c[k], id, r, page);
            assert(b.children->0[k] == relocated(c[k], id, None, r));
        }
    }
}

/// The images of a copy lie where those of the profile lay, below the new profile's
/// own directory.
pub proof fn law_clone_has_its_own_images(
    config_dir: Seq<char>,
    device: Seq<char>,
    from: Seq<char>,
    to: Seq<char>,
    rel: Seq<char>,
)
    requires
        config_dir.len() > 0,
        config_dir.last() != '/',
        path::is_plain(device),
        path::is_plain(from),
        path::is_plain(to),
        path::is_plain(rel),
        ({
            let image = config_dir + "/images/"@ + device + "/"@ + from + "/"@ + rel;
            text::trimmed(image) == image
        }),
    ensures
        moved_image(
            config_dir + "/images/"@ + device + "/"@ + from + "/"@ + rel,
            profile_route(config_dir, device, from, to),
        ) == config_dir + "/images/"@ + device + "/"@ + to + "/"@ + rel,
{
    reveal_strlit("/");
    lemma_profile_images(config_dir, device, from);
    lemma_profile_images(config_dir, device, to);
    let r = profile_route(config_dir, device, from, to);
    let image = config_dir + "/images/"@ + device + "/"@ + from + "/"@ + rel;
    assert(image =~= r.old + seq!['/'] + rel);
    assert(config_dir + "/images/"@ + device + "/"@ + to + "/"@ + rel =~= r.new + seq!['/'] + rel);
    law_moved_image_keeps_its_name(r, rel);
}

/// The directory of the images of a profile is that of its device's, and that of a
/// page is one of its profile's.
pub proof fn law_image_directories_nest(
    config_dir: Seq<char>,
    device: Seq<char>,
    profile: Seq<char>,
    page: Seq<char>,
)
    requires
        config_dir.len() > 0,
        config_dir.last() != '/',
        path::is_plain(device),
        path::is_plain(profile),
        path::is_plain(page),
    ensures
        profile_images(config_dir, device, profile) == config_dir + "/images/"@ + device + "/"@
            + profile,
        page_images(config_dir, device, profile, page) == config_dir + "/images/"@ + device + "/"@
            + profile + "/"@ + page,
{
    reveal_strlit("/");
    lemma_profile_images(config_dir, device, profile);
    let dir = profile_images(config_dir, device, profile);
    path::law_joined_path_is_relative(dir, page);
    assert(dir + seq!['/'] + page =~= config_dir + "/images/"@ + device + "/"@ + profile + "/"@
        + page);
}

proof fn lemma_plain_last(p: Seq<char>)
    requires
        path::is_plain(p),
    ensures
        p.len() > 0,
        p.last() != '/',
{
    path::lemma_plain_joined(p, p);
}

proof fn lemma_profile_images(config_dir: Seq<char>, device: Seq<char>, profile: Seq<char>)
    requires
        config_dir.len() > 0,
        config_dir.last() != '/',
        path::is_plain(device),
        path::is_plain(profile),
    ensures
        profile_images(config_dir, device, profile) == config_dir + "/images/"@ + device + "/"@
            + profile,
        profile_images(config_dir, device, profile).last() != '/',
        profile_images(config_dir, device, profile).len() > 0,
{
    reveal_strlit("/");
    reveal_strlit("images");
    reveal_strlit("/images/");
    assert(path::is_plain("images"@)) by {
        text::lemma_split_on_none("images"@, '/');
    }
    path::law_joined_path_is_relative(config_dir, "images"@);
    let a = config_dir + seq!['/'] + "images"@;
    path::law_joined_path_is_relative(a, device);
    lemma_plain_last(device);
    lemma_plain_last(profile);
    let b = a + seq!['/'] + device;
    assert(b.last() == device.last());
    path::law_joined_path_is_relative(b, profile);
    let c = b + seq!['/'] + profile;
    assert(c =~= config_dir + "/images/"@ + device + "/"@ + profile);
    assert(c.last() == profile.last());
}

/// Setting a background changes the page that is shown and no other, and keeps what
/// is on it.
pub proof fn law_background_is_of_the_shown_page(
    p: ProfileView,
    background: Option<Seq<char>>,
    k: int,
)
    requires
        0 <= k < p.pages.len(),
    ensures
        ({
            let q = with_background(p, background);
            let shown = shown_index(with_selection(p));
            &&& q.pages.len() == p.pages.len()
            &&& q.id == p.id
            &&& k == shown ==> q.pages[k].encoder_screen_background == background
                && q.pages[k].keys == p.pages[k].keys && q.pages[k].sliders == p.pages[k].sliders
                && q.pages[k].id == p.pages[k].id && q.pages[k].encoder_screen_crop
                == p.pages[k].encoder_screen_crop
            &&& k != shown ==> q.pages[k] == p.pages[k]
        }),
{
    let whole = with_selection(p);
    text::lemma_first_index(profiles::page_ids(whole.pages), whole.selected_page);
}

/// The page that is shown is the selected one wherever there is one, and the first
/// page where there is none.
pub proof fn law_selected_page_is_the_shown(p: ProfileView, k: int)
    requires
        0 <= k < p.pages.len(),
        p.pages[k].id == p.selected_page,
        forall|j: int| 0 <= j < k ==> (#[trigger] p.pages[j]).id != p.selected_page,
        text::trimmed(p.selected_page).len() > 0,
    ensures
        shown_index(with_selection(p)) == k,
        with_selection(p) == p,
{
    let ids = profiles::page_ids(p.pages);
    assert(ids[k] == p.selected_page);
    assert forall|j: int| 0 <= j < k implies #[trigger] ids[j] != p.selected_page by {
        assert(ids[j] == p.pages[j].id);
    }
    text::lemma_first_index_is(ids, p.selected_page, k);
}

/// Without a page of the selected id the first page is shown.
pub proof fn law_first_page_is_shown_otherwise(p: ProfileView)
    requires
        forall|j: int| 0 <= j < p.pages.len() ==> (#[trigger] p.pages[j]).id != p.selected_page,
    ensures
        shown_index(p) == 0,
{
    let ids = profiles::page_ids(p.pages);
    if ids.contains(p.selected_page) {
        let j = choose|j: int| 0 <= j < ids.len() && ids[j] == p.selected_page;
        assert(p.pages[j].id == p.selected_page);
    }
}

/// A background is copied into its directory under a name that its kind decides; only
/// PNG and JPEG files are taken, and without a source there is no background.
pub proof fn law_background_outcomes(source: Seq<char>, dir: Seq<char>)
    requires
        dir.len() > 0,
        dir.last() != '/',
    ensures
        background_outcome(None, false, dir) == Ok::<Option<Seq<char>>, BackgroundError>(None),
        background_outcome(Some(source), false, dir) == Err::<Option<Seq<char>>, BackgroundError>(
            BackgroundError::NotFound,
        ),
        ({
            let ext = image_extension(text::trimmed(source));
            let known = ext == "png"@ || ext == "jpg"@ || ext == "jpeg"@;
            &&& known ==> background_outcome(Some(source), true, dir) == Ok::<
                Option<Seq<char>>,
                BackgroundError,
            >(Some(dir + seq!['/'] + "encoder_screen_background."@ + ext))
            &&& !known ==> background_outcome(Some(source), true, dir) == Err::<
                Option<Seq<char>>,
                BackgroundError,
            >(BackgroundError::Unsupported)
        }),
{
    reveal_strlit("encoder_screen_background.");
    let ext = image_extension(text::trimmed(source));
    let name = "encoder_screen_background."@ + ext;
    assert(name[0] == 'e');
    assert(dir + seq!['/'] + name =~= dir + seq!['/'] + "encoder_screen_background."@ + ext);
}

/// A profile without pages has one that is blank, and without a selection it shows the
/// page of the same id; a profile with both stays as it is.
pub proof fn law_profile_has_a_selection(p: ProfileView)
    ensures
        with_selection(p).pages.len() > 0,
        p.pages.len() > 0 ==> with_selection(p).pages == p.pages,
        p.pages.len() == 0 ==> with_selection(p).pages[0].id == "1"@ && with_selection(
            p,
        ).pages[0].keys.len() == 0,
        text::trimmed(p.selected_page).len() == 0 ==> with_selection(p).selected_page == "1"@,
        text::trimmed(p.selected_page).len() > 0 ==> with_selection(p).selected_page
            == p.selected_page,
        with_selection(p).id == p.id,
{
}

} // verus!
