//! Profiles and their pages: lookup, initialisation, and the migration of
//! profiles that held one page each.
use vstd::prelude::*;
use crate::path;
use crate::path::is_safe_relative_path;
use crate::shared;
use crate::shared::{
    join, ActionContext, ActionContextView, ActionInstance, Context, DeviceInfo, InstanceView, Page,
    PageView, Profile, ProfileView,
};
use crate::text;
use crate::text::{owned, same_text, texts_contain, trim};

verus! {

// ---------------------------------------------------------------------------
// Profile ids
// ---------------------------------------------------------------------------

/// Why a text is no profile id.
#[derive(Clone, Copy, PartialEq, Eq, Structural, Debug)]
pub enum ProfileIdError {
    Empty,
    Invalid,
}

/// `id` names a profile: it is not empty, it is relative, and no component of
/// it leads upwards.
pub open spec fn valid_profile_id(id: Seq<char>) -> bool {
    id.len() > 0 && path::stays_below(id)
}

/// Checks that `id` names a profile.
pub fn validate_profile_id(id: &str) -> (r: Result<(), ProfileIdError>)
    ensures
        match r {
            Ok(_) => valid_profile_id(id@),
            Err(ProfileIdError::Empty) => id@.len() == 0,
            Err(ProfileIdError::Invalid) => id@.len() > 0 && !valid_profile_id(id@),
        },
{
    if id.is_empty() {
        return Err(ProfileIdError::Empty);
    }
    if is_safe_relative_path(id) {
        Ok(())
    } else {
        Err(ProfileIdError::Invalid)
    }
}

/// The id under which a profile of a device is stored.
pub fn canonical_profile_id(device: &str, id: &str) -> (r: String)
    ensures
        r@ == shared::joined(device@, id@),
{
    join(device, id)
}

// ---------------------------------------------------------------------------
// Pages
// ---------------------------------------------------------------------------

/// A page without slots.
pub open spec fn blank_page(id: Seq<char>) -> PageView {
    PageView {
        id,
        keys: Seq::empty(),
        sliders: Seq::empty(),
        encoder_screen_background: None,
        encoder_screen_crop: None,
    }
}

/// A page without slots.
pub fn new_page(id: &str) -> (r: Page)
    ensures
        r@ == blank_page(id@),
{
    let r = Page {
        id: owned(id),
        keys: Vec::new(),
        sliders: Vec::new(),
        encoder_screen_background: None,
        encoder_screen_crop: None,
    };
    assert(r@.keys =~= Seq::empty());
    assert(r@.sliders =~= Seq::empty());
    r
}

/// The page that a new profile holds.
pub fn default_page() -> (r: Page)
    ensures
        r@ == blank_page("1"@),
{
    new_page("1")
}

/// The ids of pages.
pub open spec fn page_ids(pages: Seq<PageView>) -> Seq<Seq<char>> {
    pages.map_values(|p: PageView| p.id)
}

/// The position of the page `id`, or the number of pages.
pub fn page_index(pages: &Vec<Page>, id: &str) -> (r: usize)
    ensures
        r == text::first_index(page_ids(shared::pages_view(pages@)), id@),
        r <= pages@.len(),
        r < pages@.len() ==> pages@[r as int].id@ == id@,
        r < pages@.len() <==> page_ids(shared::pages_view(pages@)).contains(id@),
{
    let ghost ids = page_ids(shared::pages_view(pages@));
    let mut i: usize = 0;
    proof {
        text::lemma_first_index(ids, id@);
    }
    while i < pages.len()
        invariant
            i <= pages@.len(),
            ids == page_ids(shared::pages_view(pages@)),
            forall|j: int| 0 <= j < i ==> ids[j] != id@,
        decreases pages@.len() - i,
    {
        assert(ids[i as int] == pages@[i as int].id@);
        if same_text(&pages[i].id, id) {
            proof {
                text::lemma_first_index_is(ids, id@, i as int);
            }
            return i;
        }
        i = i + 1;
    }
    proof {
        text::lemma_first_index_is(ids, id@, i as int);
    }
    i
}

/// The pages with the page `id` among them: a blank one is added behind the
/// others where it is missing.
pub open spec fn with_page(pages: Seq<PageView>, id: Seq<char>) -> Seq<PageView> {
    if page_ids(pages).contains(id) {
        pages
    } else {
        pages.push(blank_page(id))
    }
}

/// Makes sure that the page `page_id` exists, and returns its position.
pub fn ensure_page(profile: &mut Profile, page_id: &str) -> (r: usize)
    ensures
        final(profile)@ == (ProfileView {
            pages: with_page(old(profile)@.pages, page_id@),
            ..old(profile)@
        }),
        r == text::first_index(page_ids(final(profile)@.pages), page_id@),
        r < final(profile).pages@.len(),
{
    let i = page_index(&profile.pages, page_id);
    if i < profile.pages.len() {
        return i;
    }
    let ghost before = profile.pages@;
    let ghost ids = page_ids(shared::pages_view(before));
    profile.pages.push(new_page(page_id));
    proof {
        text::lemma_first_index(ids, page_id@);
        let pages = shared::pages_view(profile.pages@);
        assert(pages =~= shared::pages_view(before).push(blank_page(page_id@)));
        let now = page_ids(pages);
        assert(now =~= ids.push(page_id@));
        assert forall|j: int| 0 <= j < ids.len() implies now[j] != page_id@ by {
            assert(now[j] == ids[j]);
        }
        text::lemma_first_index_is(now, page_id@, i as int);
    }
    i
}

/// The page `page_id` of a profile.
pub fn get_page<'a>(profile: &'a Profile, page_id: &str) -> (r: Option<&'a Page>)
    ensures
        match r {
            Some(p) => page_ids(profile@.pages).contains(page_id@) && p@
                == profile@.pages[text::first_index(page_ids(profile@.pages), page_id@)],
            None => !page_ids(profile@.pages).contains(page_id@),
        },
{
    let i = page_index(&profile.pages, page_id);
    if i < profile.pages.len() {
        Some(&profile.pages[i])
    } else {
        None
    }
}

/// `slots` cut or filled up with empty slots to `n`.
pub open spec fn resized(slots: Seq<Option<InstanceView>>, n: nat) -> Seq<Option<InstanceView>> {
    Seq::new(
        n,
        |i: int|
            if i < slots.len() {
                slots[i]
            } else {
                None
            },
    )
}

/// Cuts or fills up `slots` to `n`.
pub fn resize_slots(slots: &mut Vec<Option<ActionInstance>>, n: usize)
    ensures
        shared::slots_view(final(slots)@) == resized(shared::slots_view(old(slots)@), n as nat),
        final(slots)@.len() == n,
{
    let ghost before = slots@;
    if slots.len() > n {
        slots.truncate(n);
    }
    while slots.len() < n
        invariant
            slots@.len() <= n,
            before.len() <= slots@.len() || slots@.len() == n,
            forall|i: int|
                0 <= i < slots@.len() ==> #[trigger] slots@[i] == (if i < before.len() {
                    before[i]
                } else {
                    None
                }),
        decreases n - slots@.len(),
    {
        slots.push(None);
    }
    assert(shared::slots_view(slots@) =~= resized(shared::slots_view(before), n as nat));
}

/// The number of keys of a device.
pub open spec fn key_count(rows: u8, columns: u8) -> nat {
    (rows * columns) as nat
}

/// A page with as many slots as the device has keys and encoders.
pub open spec fn fitted(p: PageView, keys: nat, encoders: nat) -> PageView {
    PageView { keys: resized(p.keys, keys), sliders: resized(p.sliders, encoders), ..p }
}

/// Gives a page as many slots as the device has keys and encoders.
pub fn fit_page(page: &mut Page, keys: usize, encoders: usize)
    ensures
        final(page)@ == fitted(old(page)@, keys as nat, encoders as nat),
        final(page).keys@.len() == keys,
        final(page).sliders@.len() == encoders,
{
    resize_slots(&mut page.keys, keys);
    resize_slots(&mut page.sliders, encoders);
}

// ---------------------------------------------------------------------------
// Slots and instances
// ---------------------------------------------------------------------------

/// Why there is no such slot.
#[derive(Clone, Copy, PartialEq, Eq, Structural, Debug)]
pub enum SlotError {
    PageNotFound,
    IndexOutOfBounds,
}

/// The slots of a page that a controller has.
pub open spec fn controller_slots(p: PageView, controller: Seq<char>) -> Seq<Option<InstanceView>> {
    if controller == "Encoder"@ {
        p.sliders
    } else {
        p.keys
    }
}

/// The slot at `context` in the profile.
pub fn get_slot<'a>(profile: &'a Profile, context: &Context) -> (r: Result<
    &'a Option<ActionInstance>,
    SlotError,
>)
    ensures
        ({
            let ids = page_ids(profile@.pages);
            let page = profile@.pages[text::first_index(ids, context.page@)];
            let slots = controller_slots(page, context.controller@);
            match r {
                Ok(slot) => ids.contains(context.page@) && context.position < slots.len()
                    && shared::slot_view(*slot) == slots[context.position as int],
                Err(SlotError::PageNotFound) => !ids.contains(context.page@),
                Err(SlotError::IndexOutOfBounds) => ids.contains(context.page@) && context.position
                    >= slots.len(),
            }
        }),
{
    match get_page(profile, &context.page) {
        Some(page) => {
            let at: usize = context.position as usize;
            if same_text(&context.controller, "Encoder") {
                if at < page.sliders.len() {
                    Ok(&page.sliders[at])
                } else {
                    Err(SlotError::IndexOutOfBounds)
                }
            } else {
                if at < page.keys.len() {
                    Ok(&page.keys[at])
                } else {
                    Err(SlotError::IndexOutOfBounds)
                }
            }
        },
        None => Err(SlotError::PageNotFound),
    }
}

/// The pages of a profile before a slot of the page `id` is used: the page
/// exists and fits the device.
pub open spec fn prepared(
    pages: Seq<PageView>,
    id: Seq<char>,
    keys: nat,
    encoders: nat,
) -> Seq<PageView> {
    let all = with_page(pages, id);
    let i = text::first_index(page_ids(all), id);
    all.update(i, fitted(all[i], keys, encoders))
}

/// The page with `slot` at place `at` of a controller.
pub open spec fn with_slot(
    p: PageView,
    controller: Seq<char>,
    at: int,
    slot: Option<InstanceView>,
) -> PageView {
    if controller == "Encoder"@ {
        PageView { sliders: p.sliders.update(at, slot), ..p }
    } else {
        PageView { keys: p.keys.update(at, slot), ..p }
    }
}

/// The slot at `context`, to be changed. The page is created and fitted to the
/// device where that is needed.
pub fn get_slot_mut<'a>(
    profile: &'a mut Profile,
    device: &DeviceInfo,
    context: &Context,
) -> (r: Result<&'a mut Option<ActionInstance>, SlotError>)
    requires
        key_count(device.rows, device.columns) <= 255,
    ensures
        ({
            let pages = prepared(
                old(profile)@.pages,
                context.page@,
                key_count(device.rows, device.columns),
                device.encoders as nat,
            );
            let i = text::first_index(page_ids(pages), context.page@);
            let slots = controller_slots(pages[i], context.controller@);
            &&& 0 <= i < pages.len()
            &&& pages[i].id == context.page@
            &&& match r {
                Ok(slot) => {
                    &&& context.position < slots.len()
                    &&& shared::slot_view(*slot) == slots[context.position as int]
                    &&& final(profile)@ == (ProfileView {
                        pages: pages.update(
                            i,
                            with_slot(
                                pages[i],
                                context.controller@,
                                context.position as int,
                                shared::slot_view(*final(slot)),
                            ),
                        ),
                        ..old(profile)@
                    })
                },
                Err(e) => {
                    &&& e == SlotError::IndexOutOfBounds
                    &&& context.position >= slots.len()
                    &&& final(profile)@ == (ProfileView { pages, ..old(profile)@ })
                },
            }
        }),
{
    broadcast use {shared::lemma_slots_update, shared::lemma_pages_update};

    let i = ensure_page(profile, &context.page);
    let keys: usize = (device.rows * device.columns) as usize;
    let ghost all = profile.pages@;
    fit_page(&mut profile.pages[i], keys, device.encoders as usize);
    proof {
        let models = shared::pages_view(all);
        let pages = prepared(
            old(profile)@.pages,
            context.page@,
            key_count(device.rows, device.columns),
            device.encoders as nat,
        );
        assert(shared::pages_view(profile.pages@) =~= pages);
        assert(page_ids(pages) =~= page_ids(models));
        text::lemma_first_index(page_ids(pages), context.page@);
        assert(page_ids(pages)[i as int] == pages[i as int].id);
    }
    let at: usize = context.position as usize;
    if same_text(&context.controller, "Encoder") {
        if at < profile.pages[i].sliders.len() {
            Ok(&mut profile.pages[i].sliders[at])
        } else {
            Err(SlotError::IndexOutOfBounds)
        }
    } else {
        if at < profile.pages[i].keys.len() {
            Ok(&mut profile.pages[i].keys[at])
        } else {
            Err(SlotError::IndexOutOfBounds)
        }
    }
}

/// The position of the first of `c` at `context`, or the number of them.
pub open spec fn child_index(c: Seq<InstanceView>, context: ActionContextView) -> int
    decreases c.len(),
{
    if c.len() == 0 || c[0].context == context {
        0
    } else {
        1 + child_index(c.drop_first(), context)
    }
}

/// `child_index` is the first position with that context.
pub proof fn lemma_child_index(c: Seq<InstanceView>, context: ActionContextView)
    ensures
        0 <= child_index(c, context) <= c.len(),
        forall|j: int| 0 <= j < child_index(c, context) ==> (#[trigger] c[j]).context != context,
        child_index(c, context) < c.len() ==> c[child_index(c, context)].context == context,
    decreases c.len(),
{
    if c.len() > 0 && c[0].context != context {
        let t = c.drop_first();
        lemma_child_index(t, context);
        assert forall|j: int| 0 <= j < child_index(c, context) implies (#[trigger] c[j]).context
            != context by {
            if j > 0 {
                assert(t[j - 1] == c[j]);
            }
        }
    }
}

/// A position with that context and none before it is `child_index`.
pub proof fn lemma_child_index_is(c: Seq<InstanceView>, context: ActionContextView, k: int)
    requires
        0 <= k <= c.len(),
        forall|j: int| 0 <= j < k ==> (#[trigger] c[j]).context != context,
        k < c.len() ==> c[k].context == context,
    ensures
        child_index(c, context) == k,
{
    lemma_child_index(c, context);
    let i = child_index(c, context);
    if i < k {
        assert(c[i].context != context);
    } else if k < i {
        assert(c[k].context != context);
    }
}

/// The position of the first of `c` at `context`, or the number of them.
pub fn find_child(c: &Vec<ActionInstance>, context: &ActionContext) -> (r: usize)
    ensures
        r == child_index(shared::instances_view(c@), context@),
        r <= c@.len(),
        r < c@.len() ==> c@[r as int].context@ == context@,
{
    broadcast use shared::lemma_instance_view;

    let ghost models = shared::instances_view(c@);
    let mut i: usize = 0;
    while i < c.len()
        invariant
            i <= c@.len(),
            models == shared::instances_view(c@),
            forall|j: int| 0 <= j < i ==> (#[trigger] models[j]).context != context@,
        decreases c@.len() - i,
    {
        assert(models[i as int] == c@[i as int]@);
        if c[i].context.same(context) {
            proof {
                lemma_child_index_is(models, context@, i as int);
            }
            return i;
        }
        i = i + 1;
    }
    proof {
        lemma_child_index_is(models, context@, i as int);
    }
    i
}

/// The instance at `context` in a slot: the one that stands there, or a child
/// of it.
pub open spec fn instance_in(
    slot: Option<InstanceView>,
    context: ActionContextView,
) -> Option<InstanceView> {
    match slot {
        Some(i) => if i.context == context {
            Some(i)
        } else {
            match i.children {
                Some(c) => if 0 <= child_index(c, context) < c.len() {
                    Some(c[child_index(c, context)])
                } else {
                    None
                },
                None => None,
            }
        },
        None => None,
    }
}

/// The slot with the instance at `context` replaced by `new`.
pub open spec fn slot_with_instance(
    slot: Option<InstanceView>,
    context: ActionContextView,
    new: InstanceView,
) -> Option<InstanceView> {
    match slot {
        Some(i) => if i.context == context {
            Some(new)
        } else {
            match i.children {
                Some(c) => if 0 <= child_index(c, context) < c.len() {
                    Some(
                        InstanceView {
                            children: Some(c.update(child_index(c, context), new)),
                            ..i
                        },
                    )
                } else {
                    slot
                },
                None => slot,
            }
        },
        None => None,
    }
}

/// The instance at `context` in a slot.
pub fn get_instance<'a>(slot: &'a Option<ActionInstance>, context: &ActionContext) -> (r: Option<
    &'a ActionInstance,
>)
    ensures
        match r {
            Some(i) => instance_in(shared::slot_view(*slot), context@) == Some(i@),
            None => instance_in(shared::slot_view(*slot), context@) is None,
        },
{
    broadcast use shared::lemma_instance_view;

    match slot {
        Some(instance) => {
            if instance.context.same(context) {
                return Some(instance);
            }
            match &instance.children {
                Some(children) => {
                    let k = find_child(children, context);
                    if k < children.len() {
                        Some(&children[k])
                    } else {
                        None
                    }
                },
                None => None,
            }
        },
        None => None,
    }
}

/// The instance at `context` in a slot, to be changed.
pub fn get_instance_mut<'a>(
    slot: &'a mut Option<ActionInstance>,
    context: &ActionContext,
) -> (r: Option<&'a mut ActionInstance>)
    ensures
        match r {
            Some(i) => {
                &&& instance_in(shared::slot_view(*old(slot)), context@) == Some((*i)@)
                &&& shared::slot_view(*final(slot)) == slot_with_instance(
                    shared::slot_view(*old(slot)),
                    context@,
                    (*final(i))@,
                )
            },
            None => {
                &&& instance_in(shared::slot_view(*old(slot)), context@) is None
                &&& shared::slot_view(*final(slot)) == shared::slot_view(*old(slot))
            },
        },
{
    broadcast use {shared::lemma_instance_view, shared::lemma_instances_update};

    match slot {
        Some(instance) => {
            if instance.context.same(context) {
                return Some(instance);
            }
            match &mut instance.children {
                Some(children) => {
                    let k = find_child(children, context);
                    if k < children.len() {
                        Some(&mut children[k])
                    } else {
                        None
                    }
                },
                None => None,
            }
        },
        None => None,
    }
}

// ---------------------------------------------------------------------------
// Loading
// ---------------------------------------------------------------------------

/// What is known of the plugins when a profile is loaded.
pub struct PluginFacts {
    /// The plugins whose directory exists.
    pub installed: Vec<String>,
    /// The plugins that have registered.
    pub registered: Vec<String>,
    /// The uuids of the actions that are known.
    pub known_actions: Vec<String>,
}

/// The model of `PluginFacts`.
pub struct PluginFactsView {
    pub installed: Seq<Seq<char>>,
    pub registered: Seq<Seq<char>>,
    pub known_actions: Seq<Seq<char>>,
}

impl View for PluginFacts {
    type V = PluginFactsView;

    open spec fn view(&self) -> PluginFactsView {
        PluginFactsView {
            installed: text::texts(self.installed@),
            registered: text::texts(self.registered@),
            known_actions: text::texts(self.known_actions@),
        }
    }
}

/// An instance is kept when it is built in, or when its plugin is installed
/// and, once registered, still has the action.
pub open spec fn keeps(facts: PluginFactsView, i: InstanceView) -> bool {
    i.action.plugin == "riverdeck"@ || (facts.installed.contains(i.action.plugin) && (
    !facts.registered.contains(i.action.plugin) || facts.known_actions.contains(i.action.uuid)))
}

/// The children that are kept among the first `n`.
pub open spec fn kept_children(
    facts: PluginFactsView,
    c: Seq<InstanceView>,
    n: nat,
) -> Seq<InstanceView>
    decreases n,
{
    if n == 0 || n > c.len() {
        Seq::empty()
    } else {
        let before = kept_children(facts, c, (n - 1) as nat);
        if keeps(facts, c[n - 1]) {
            before.push(c[n - 1])
        } else {
            before
        }
    }
}

/// A slot after the instances that are not kept have left it.
pub open spec fn cleaned(
    facts: PluginFactsView,
    slot: Option<InstanceView>,
) -> Option<InstanceView> {
    match slot {
        Some(i) => if !keeps(facts, i) {
            None
        } else {
            match i.children {
                Some(c) => Some(
                    InstanceView { children: Some(kept_children(facts, c, c.len())), ..i },
                ),
                None => Some(i),
            }
        },
        None => None,
    }
}

/// The slots after the instances that are not kept have left them.
pub open spec fn cleaned_slots(
    facts: PluginFactsView,
    slots: Seq<Option<InstanceView>>,
) -> Seq<Option<InstanceView>> {
    slots.map_values(|s: Option<InstanceView>| cleaned(facts, s))
}

/// A page fitted to a device, with only the instances that are kept.
pub open spec fn loaded_page(
    facts: PluginFactsView,
    p: PageView,
    keys: nat,
    encoders: nat,
) -> PageView {
    PageView {
        keys: cleaned_slots(facts, resized(p.keys, keys)),
        sliders: cleaned_slots(facts, resized(p.sliders, encoders)),
        ..p
    }
}

/// A profile as it is used: it has a page and a selection, each page fits the
/// device, and only instances that are kept stand on it.
pub open spec fn loaded(
    facts: PluginFactsView,
    p: ProfileView,
    keys: nat,
    encoders: nat,
) -> ProfileView {
    let pages = if p.pages.len() == 0 {
        seq![blank_page("1"@)]
    } else {
        p.pages
    };
    ProfileView {
        id: p.id,
        pages: pages.map_values(|x: PageView| loaded_page(facts, x, keys, encoders)),
        selected_page: if text::trimmed(p.selected_page).len() == 0 {
            "1"@
        } else {
            p.selected_page
        },
    }
}

/// Whether an instance is kept.
pub fn keep_instance(facts: &PluginFacts, instance: &ActionInstance) -> (r: bool)
    ensures
        r == keeps(facts@, instance@),
{
    broadcast use shared::lemma_instance_view;

    same_text(&instance.action.plugin, "riverdeck") || (texts_contain(
        &facts.installed,
        &instance.action.plugin,
    ) && (!texts_contain(&facts.registered, &instance.action.plugin) || texts_contain(
        &facts.known_actions,
        &instance.action.uuid,
    )))
}

/// Takes the instances that are not kept out of a slot.
pub fn clean_slot(facts: &PluginFacts, slot: &Option<ActionInstance>) -> (r: Option<ActionInstance>)
    ensures
        shared::slot_view(r) == cleaned(facts@, shared::slot_view(*slot)),
{
    broadcast use shared::lemma_instance_view;

    match slot {
        Some(instance) => {
            if !keep_instance(facts, instance) {
                return None;
            }
            let mut out = instance.copy();
            match &instance.children {
                Some(c) => {
                    let ghost models = shared::instances_view(c@);
                    let mut kept: Vec<ActionInstance> = Vec::new();
                    let mut i: usize = 0;
                    assert(shared::instances_view(kept@) =~= Seq::<InstanceView>::empty());
                    while i < c.len()
                        invariant
                            i <= c@.len(),
                            models == shared::instances_view(c@),
                            shared::instances_view(kept@) == kept_children(
                                facts@,
                                models,
                                i as nat,
                            ),
                        decreases c@.len() - i,
                    {
                        assert(models[i as int] == c@[i as int]@);
                        if keep_instance(facts, &c[i]) {
                            let ghost before = kept@;
                            let child = c[i].copy();
                            kept.push(child);
                            assert(shared::instances_view(kept@) =~= shared::instances_view(
                                before,
                            ).push(child@));
                        }
                        i = i + 1;
                    }
                    out.children = Some(kept);
                },
                None => {},
            }
            Some(out)
        },
        None => None,
    }
}

fn clean_slots(facts: &PluginFacts, slots: &mut Vec<Option<ActionInstance>>)
    ensures
        shared::slots_view(final(slots)@) == cleaned_slots(facts@, shared::slots_view(old(slots)@)),
{
    let ghost before = slots@;
    let mut i: usize = 0;
    while i < slots.len()
        invariant
            i <= slots@.len(),
            slots@.len() == before.len(),
            forall|k: int|
                0 <= k < i ==> shared::slot_view(#[trigger] slots@[k]) == cleaned(
                    facts@,
                    shared::slot_view(before[k]),
                ),
            forall|k: int| i <= k < slots@.len() ==> #[trigger] slots@[k] == before[k],
        decreases slots@.len() - i,
    {
        let slot = clean_slot(facts, &slots[i]);
        slots.set(i, slot);
        i = i + 1;
    }
    assert(shared::slots_view(slots@) =~= cleaned_slots(facts@, shared::slots_view(before)));
}

/// Makes a profile that was read from disk ready for use on a device.
pub fn load_profile(profile: &mut Profile, device: &DeviceInfo, facts: &PluginFacts)
    requires
        key_count(device.rows, device.columns) <= 255,
    ensures
        final(profile)@ == loaded(
            facts@,
            old(profile)@,
            key_count(device.rows, device.columns),
            device.encoders as nat,
        ),
{
    if profile.pages.len() == 0 {
        profile.pages.push(default_page());
        assert(shared::pages_view(profile.pages@) =~= seq![blank_page("1"@)]);
    }
    if trim(&profile.selected_page).as_str().is_empty() {
        profile.selected_page = owned("1");
    }
    let keys: usize = (device.rows * device.columns) as usize;
    let encoders: usize = device.encoders as usize;
    let ghost before = profile.pages@;
    let ghost selected = profile.selected_page@;
    let mut i: usize = 0;
    while i < profile.pages.len()
        invariant
            i <= profile.pages@.len(),
            profile.pages@.len() == before.len(),
            profile.id@ == old(profile).id@,
            profile.selected_page@ == selected,
            forall|k: int|
                0 <= k < i ==> (#[trigger] profile.pages@[k])@ == loaded_page(
                    facts@,
                    before[k]@,
                    keys as nat,
                    encoders as nat,
                ),
            forall|k: int|
                i <= k < profile.pages@.len() ==> #[trigger] profile.pages@[k] == before[k],
        decreases profile.pages@.len() - i,
    {
        let mut page = profile.pages[i].copy();
        fit_page(&mut page, keys, encoders);
        clean_slots(facts, &mut page.keys);
        clean_slots(facts, &mut page.sliders);
        profile.pages.set(i, page);
        i = i + 1;
    }
    assert(profile@.pages =~= shared::pages_view(before).map_values(
        |x: PageView| loaded_page(facts@, x, keys as nat, encoders as nat),
    ));
}

/// A new profile: one blank page, which is selected.
pub open spec fn fresh_profile(id: Seq<char>) -> ProfileView {
    ProfileView { id, pages: seq![blank_page("1"@)], selected_page: "1"@ }
}

/// A new profile.
pub fn new_profile(id: &str) -> (r: Profile)
    ensures
        r@ == fresh_profile(id@),
{
    let mut pages: Vec<Page> = Vec::new();
    pages.push(default_page());
    let r = Profile { id: owned(id), pages, selected_page: owned("1") };
    assert(r@.pages =~= seq![blank_page("1"@)]);
    r
}

/// A loaded profile has a page, and each of its pages has one slot for each
/// key and encoder of the device.
pub proof fn law_loaded_fits(facts: PluginFactsView, p: ProfileView, keys: nat, encoders: nat)
    ensures
        ({
            let l = loaded(facts, p, keys, encoders);
            &&& l.pages.len() > 0
            &&& text::trimmed(l.selected_page).len() > 0
            &&& forall|i: int|
                0 <= i < l.pages.len() ==> (#[trigger] l.pages[i]).keys.len() == keys
                    && l.pages[i].sliders.len() == encoders
        }),
{
    reveal_strlit("1");
    let ws = |c: char| text::is_white_space(c);
    assert("1"@[0] == '1');
    assert("1"@.last() == '1');
    assert(!ws('1'));
    assert(text::trim_start_where("1"@, ws) == "1"@);
    assert(text::trim_end_where("1"@, ws) == "1"@);
}

/// Loading a loaded profile changes nothing.
pub proof fn law_load_idempotent(facts: PluginFactsView, p: ProfileView, keys: nat, encoders: nat)
    ensures
        loaded(facts, loaded(facts, p, keys, encoders), keys, encoders) == loaded(
            facts,
            p,
            keys,
            encoders,
        ),
{
    let l = loaded(facts, p, keys, encoders);
    let m = loaded(facts, l, keys, encoders);
    law_loaded_fits(facts, p, keys, encoders);
    assert forall|i: int| 0 <= i < l.pages.len() implies m.pages[i] == l.pages[i] by {
        let base = if p.pages.len() == 0 {
            seq![blank_page("1"@)]
        } else {
            p.pages
        };
        let x = base[i];
        lemma_slots_idempotent(facts, resized(x.keys, keys), keys);
        lemma_slots_idempotent(facts, resized(x.sliders, encoders), encoders);
    }
    assert(m.pages =~= l.pages);
}

proof fn lemma_slots_idempotent(facts: PluginFactsView, s: Seq<Option<InstanceView>>, n: nat)
    requires
        s.len() == n,
    ensures
        cleaned_slots(facts, resized(cleaned_slots(facts, s), n)) == cleaned_slots(facts, s),
{
    let c = cleaned_slots(facts, s);
    assert(resized(c, n) =~= c);
    assert forall|i: int| 0 <= i < c.len() implies cleaned(facts, c[i]) == c[i] by {
        match s[i] {
            Some(x) => {
                if keeps(facts, x) && x.children is Some {
                    let ch = x.children->0;
                    lemma_kept_all(facts, ch, ch.len());
                    let k = kept_children(facts, ch, ch.len());
                    lemma_kept_fixed(facts, k, k.len());
                    assert(k.take(k.len() as int) =~= k);
                    let y = InstanceView { children: Some(k), ..x };
                    assert(c[i] == Some(y));
                    assert(keeps(facts, y) == keeps(facts, x));
                }
            },
            None => {},
        }
    }
    assert(cleaned_slots(facts, c) =~= c);
}

proof fn lemma_kept_all(facts: PluginFactsView, c: Seq<InstanceView>, n: nat)
    requires
        n <= c.len(),
    ensures
        forall|i: int|
            0 <= i < kept_children(facts, c, n).len() ==> keeps(
                facts,
                #[trigger] kept_children(facts, c, n)[i],
            ),
    decreases n,
{
    if n > 0 {
        lemma_kept_all(facts, c, (n - 1) as nat);
        let before = kept_children(facts, c, (n - 1) as nat);
        let now = kept_children(facts, c, n);
        assert forall|i: int| 0 <= i < now.len() implies keeps(facts, #[trigger] now[i]) by {
            if i < before.len() {
                assert(now[i] == before[i]);
            }
        }
    }
}

proof fn lemma_kept_fixed(facts: PluginFactsView, c: Seq<InstanceView>, n: nat)
    requires
        n <= c.len(),
        forall|i: int| 0 <= i < c.len() ==> keeps(facts, #[trigger] c[i]),
    ensures
        kept_children(facts, c, n) == c.take(n as int),
    decreases n,
{
    if n > 0 {
        lemma_kept_fixed(facts, c, (n - 1) as nat);
        assert(c.take(n as int) =~= c.take(n - 1).push(c[n - 1]));
    } else {
        assert(c.take(0) =~= Seq::empty());
    }
}

/// Fitting a page to a device keeps every instance that has a place on the device,
/// where it was, and fills up with empty slots.
pub proof fn law_fitted_keeps_instances(p: PageView, keys: nat, encoders: nat)
    ensures
        ({
            let f = fitted(p, keys, encoders);
            &&& f.id == p.id
            &&& f.encoder_screen_background == p.encoder_screen_background
            &&& f.encoder_screen_crop == p.encoder_screen_crop
            &&& f.keys.len() == keys && f.sliders.len() == encoders
            &&& forall|k: int|
                0 <= k < keys ==> #[trigger] f.keys[k] == if k < p.keys.len() {
                    p.keys[k]
                } else {
                    None
                }
            &&& forall|k: int|
                0 <= k < encoders ==> #[trigger] f.sliders[k] == if k < p.sliders.len() {
                    p.sliders[k]
                } else {
                    None
                }
        }),
{
}

/// Preparing a page for use keeps the other pages as they are, and adds the page
/// behind them, blank, only where it is missing.
pub proof fn law_prepared_keeps_other_pages(
    pages: Seq<PageView>,
    id: Seq<char>,
    keys: nat,
    encoders: nat,
    k: int,
)
    requires
        0 <= k < pages.len(),
        pages[k].id != id,
    ensures
        ({
            let all = prepared(pages, id, keys, encoders);
            &&& all[k] == pages[k]
            &&& page_ids(pages).contains(id) ==> all.len() == pages.len()
            &&& !page_ids(pages).contains(id) ==> all.len() == pages.len() + 1 && all.last().id
                == id && forall|j: int|
                0 <= j < all.last().keys.len() ==> (#[trigger] all.last().keys[j]) is None
        }),
{
    let all = with_page(pages, id);
    let ids = page_ids(all);
    text::lemma_first_index(ids, id);
    if !page_ids(pages).contains(id) {
        let n = pages.len() as int;
        assert(ids[n] == id);
        assert forall|j: int| 0 <= j < n implies #[trigger] ids[j] != id by {
            assert(page_ids(pages)[j] == ids[j]);
        }
        text::lemma_first_index_is(ids, id, n);
    } else {
        assert(ids[k] == pages[k].id);
    }
}

/// The slot of a key or an encoder is set alone: the other slots of the page, and
/// those of the other controller, stay.
pub proof fn law_set_slot_alone(
    p: PageView,
    controller: Seq<char>,
    at: int,
    slot: Option<InstanceView>,
    k: int,
)
    requires
        0 <= at < controller_slots(p, controller).len(),
        0 <= k < controller_slots(p, controller).len(),
    ensures
        ({
            let r = with_slot(p, controller, at, slot);
            &&& controller_slots(r, controller).len() == controller_slots(p, controller).len()
            &&& controller_slots(r, controller)[at] == slot
            &&& k != at ==> controller_slots(r, controller)[k] == controller_slots(
                p,
                controller,
            )[k]
            &&& controller == "Encoder"@ ==> r.keys == p.keys && r.sliders[at] == slot
            &&& controller != "Encoder"@ ==> r.sliders == p.sliders && r.keys[at] == slot
            &&& r.id == p.id
        }),
{
}

/// An instance that is put at its place is found there, and what stood at other
/// places is found as before.
pub proof fn law_replaced_instance_is_found(
    slot: Option<InstanceView>,
    context: ActionContextView,
    new: InstanceView,
    other: ActionContextView,
)
    requires
        instance_in(slot, context) is Some,
        new.context == context,
        slot matches Some(i) ==> i.context != context,
        other != context,
        slot matches Some(i) ==> i.context != other,
    ensures
        instance_in(slot_with_instance(slot, context, new), context) == Some(new),
        instance_in(slot_with_instance(slot, context, new), other) == instance_in(slot, other),
{
    let i = slot->0;
    let c = i.children->0;
    lemma_child_index(c, context);
    lemma_child_index(c, other);
    let k = child_index(c, context);
    let now = c.update(k, new);
    assert forall|j: int| 0 <= j < k implies (#[trigger] now[j]).context != context by {
        assert(now[j] == c[j]);
    }
    lemma_child_index_is(now, context, k);
    let o = child_index(c, other);
    assert forall|j: int| 0 <= j < o implies (#[trigger] now[j]).context != other by {
        if j != k {
            assert(now[j] == c[j]);
        }
    }
    if o < c.len() {
        assert(now[o] == c[o]);
    }
    lemma_child_index_is(now, other, o);
}

/// An instance stays on a loaded profile exactly where it is built in, or its
/// plugin is installed and, once registered, still knows the action.
pub proof fn law_loaded_keeps_known_instances(
    facts: PluginFactsView,
    p: PageView,
    keys: nat,
    encoders: nat,
    k: int,
    i: InstanceView,
)
    requires
        0 <= k < keys,
        k < p.keys.len(),
        p.keys[k] == Some(i),
    ensures
        ({
            let now = loaded_page(facts, p, keys, encoders).keys[k];
            let builtin = i.action.plugin == "riverdeck"@;
            let installed = facts.installed.contains(i.action.plugin);
            let registered = facts.registered.contains(i.action.plugin);
            let known = facts.known_actions.contains(i.action.uuid);
            &&& builtin || (installed && (!registered || known)) <==> now is Some
            &&& now matches Some(n) ==> n.action == i.action && n.settings == i.settings
                && n.states == i.states && n.current_state == i.current_state && n.context
                == i.context && (n.children is Some <==> i.children is Some)
            &&& i.children is None && now is Some ==> now == Some(i)
        }),
{
}

/// The children that stay are those whose plugins still have them, in their order.
pub proof fn law_kept_children_in_order(
    facts: PluginFactsView,
    c: Seq<InstanceView>,
    n: nat,
)
    requires
        n <= c.len(),
    ensures
        kept_children(facts, c, n) == c.take(n as int).filter(|i: InstanceView| keeps(facts, i)),
    decreases n,
{
    reveal(Seq::filter);
    if n > 0 {
        let m = (n - 1) as nat;
        law_kept_children_in_order(facts, c, m);
        assert(c.take(n as int).drop_last() =~= c.take(m as int));
        assert(c.take(n as int).last() == c[m as int]);
    }
}

/// A loaded profile has the pages that it had, by their ids, or one page where it
/// had none; its selection stays unless it is blank.
pub proof fn law_loaded_keeps_pages(
    facts: PluginFactsView,
    p: ProfileView,
    keys: nat,
    encoders: nat,
)
    ensures
        ({
            let l = loaded(facts, p, keys, encoders);
            &&& l.id == p.id
            &&& p.pages.len() > 0 ==> page_ids(l.pages) == page_ids(p.pages)
            &&& p.pages.len() == 0 ==> l.pages.len() == 1 && l.pages[0].id == "1"@
            &&& text::trimmed(p.selected_page).len() > 0 ==> l.selected_page == p.selected_page
            &&& text::trimmed(p.selected_page).len() == 0 ==> l.selected_page == "1"@
            &&& forall|k: int|
                0 <= k < p.pages.len() ==> (#[trigger] l.pages[k]).encoder_screen_background
                    == p.pages[k].encoder_screen_background && l.pages[k].encoder_screen_crop
                    == p.pages[k].encoder_screen_crop
        }),
{
    let l = loaded(facts, p, keys, encoders);
    if p.pages.len() > 0 {
        assert(page_ids(l.pages) =~= page_ids(p.pages));
    }
}

/// A new profile has one page, without instances, which it shows.
pub proof fn law_fresh_profile_is_empty(id: Seq<char>)
    ensures
        ({
            let p = fresh_profile(id);
            &&& p.id == id
            &&& p.pages.len() == 1
            &&& p.pages[0].id == p.selected_page
            &&& p.selected_page == "1"@
            &&& p.pages[0].keys.len() == 0 && p.pages[0].sliders.len() == 0
            &&& p.pages[0].encoder_screen_background is None
        }),
{
}

} // verus!
