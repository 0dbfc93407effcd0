//! Switching, creating and deleting the pages of a profile.
use vstd::prelude::*;
use crate::profiles;
use crate::profiles::{ensure_page, fit_page, page_index};
use crate::relocate;
use crate::relocate::{selected_page, selected_page_mut};
use crate::shared;
use crate::shared::{
    is_multi_action_uuid, is_toggle_action_uuid, ActionInstance, DeviceInfo, EncoderScreenCrop,
    InstanceView, Page, PageView, Profile, ProfileView,
};
use crate::text;
use crate::text::{clone_opt, decimal_text, owned, same_text};

verus! {

// ---------------------------------------------------------------------------
// Who is told
// ---------------------------------------------------------------------------

/// The instances whose plugins are told when the first `n` slots appear or
/// disappear: each instance, or in place of a multi or toggle action its
/// children.
pub open spec fn told(s: Seq<Option<InstanceView>>, n: nat) -> Seq<InstanceView>
    decreases n,
{
    if n == 0 || n > s.len() {
        Seq::empty()
    } else {
        let before = told(s, (n - 1) as nat);
        match s[n - 1] {
            Some(i) => if !shared::holds_children(i.action.uuid) {
                before.push(i)
            } else {
                match i.children {
                    Some(c) => before + c,
                    None => before,
                }
            },
            None => before,
        }
    }
}

/// The instances whose plugins are told when a page appears or disappears:
/// those of the keys, then those of the encoders.
pub open spec fn told_on(p: PageView) -> Seq<InstanceView> {
    told(p.keys, p.keys.len()) + told(p.sliders, p.sliders.len())
}

fn append_instances(out: &mut Vec<ActionInstance>, more: &Vec<ActionInstance>)
    ensures
        shared::instances_view(final(out)@) == shared::instances_view(old(out)@)
            + shared::instances_view(more@),
{
    let ghost start = shared::instances_view(out@);
    let ghost models = shared::instances_view(more@);
    let mut i: usize = 0;
    assert(start + models.take(0) =~= start);
    while i < more.len()
        invariant
            i <= more@.len(),
            models == shared::instances_view(more@),
            shared::instances_view(out@) == start + models.take(i as int),
        decreases more@.len() - i,
    {
        let ghost before = out@;
        let child = more[i].copy();
        out.push(child);
        i = i + 1;
        assert(models.take(i as int) =~= models.take(i - 1).push(models[i - 1]));
        assert(shared::instances_view(out@) =~= shared::instances_view(before).push(child@));
        assert((start + models.take(i - 1)).push(child@) =~= start + models.take(i as int));
    }
    assert(models.take(i as int) =~= models);
}

fn append_told(out: &mut Vec<ActionInstance>, slots: &Vec<Option<ActionInstance>>)
    ensures
        shared::instances_view(final(out)@) == shared::instances_view(old(out)@) + told(
            shared::slots_view(slots@),
            slots@.len(),
        ),
{
    broadcast use shared::lemma_instance_view;

    let ghost start = shared::instances_view(out@);
    let ghost models = shared::slots_view(slots@);
    let mut i: usize = 0;
    assert(start + told(models, 0) =~= start);
    while i < slots.len()
        invariant
            i <= slots@.len(),
            models == shared::slots_view(slots@),
            shared::instances_view(out@) == start + told(models, i as nat),
        decreases slots@.len() - i,
    {
        let ghost found = told(models, i as nat);
        let ghost before = out@;
        assert(models[i as int] == shared::slot_view(slots@[i as int]));
        match &slots[i] {
            Some(instance) => {
                if !(is_multi_action_uuid(&instance.action.uuid) || is_toggle_action_uuid(
                    &instance.action.uuid,
                )) {
                    let copy = instance.copy();
                    out.push(copy);
                    assert(shared::instances_view(out@) =~= shared::instances_view(before).push(
                        copy@,
                    ));
                    assert((start + found).push(copy@) =~= start + found.push(copy@));
                } else {
                    match &instance.children {
                        Some(c) => {
                            append_instances(out, c);
                            assert((start + found) + shared::instances_view(c@) =~= start + (found
                                + shared::instances_view(c@)));
                        },
                        None => {},
                    }
                }
            },
            None => {},
        }
        i = i + 1;
    }
}

/// The instances whose plugins are told when a page appears or disappears.
pub fn instances_told(page: &Page) -> (r: Vec<ActionInstance>)
    ensures
        shared::instances_view(r@) == told_on(page@),
{
    let mut out: Vec<ActionInstance> = Vec::new();
    append_told(&mut out, &page.keys);
    append_told(&mut out, &page.sliders);
    assert(shared::instances_view(out@) =~= told_on(page@));
    out
}

/// The multi and toggle actions in the first `n` slots.
pub open spec fn containers(s: Seq<Option<InstanceView>>, n: nat) -> Seq<InstanceView>
    decreases n,
{
    if n == 0 || n > s.len() {
        Seq::empty()
    } else {
        let before = containers(s, (n - 1) as nat);
        match s[n - 1] {
            Some(i) => if shared::holds_children(i.action.uuid) {
                before.push(i)
            } else {
                before
            },
            None => before,
        }
    }
}

/// The multi and toggle actions of a page, whose images the host draws itself.
pub open spec fn containers_on(p: PageView) -> Seq<InstanceView> {
    containers(p.keys, p.keys.len()) + containers(p.sliders, p.sliders.len())
}

fn append_containers(out: &mut Vec<ActionInstance>, slots: &Vec<Option<ActionInstance>>)
    ensures
        shared::instances_view(final(out)@) == shared::instances_view(old(out)@) + containers(
            shared::slots_view(slots@),
            slots@.len(),
        ),
{
    broadcast use shared::lemma_instance_view;

    let ghost start = shared::instances_view(out@);
    let ghost models = shared::slots_view(slots@);
    let mut i: usize = 0;
    assert(start + containers(models, 0) =~= start);
    while i < slots.len()
        invariant
            i <= slots@.len(),
            models == shared::slots_view(slots@),
            shared::instances_view(out@) == start + containers(models, i as nat),
        decreases slots@.len() - i,
    {
        let ghost found = containers(models, i as nat);
        let ghost before = out@;
        assert(models[i as int] == shared::slot_view(slots@[i as int]));
        match &slots[i] {
            Some(instance) => {
                if is_multi_action_uuid(&instance.action.uuid) || is_toggle_action_uuid(
                    &instance.action.uuid,
                ) {
                    let copy = instance.copy();
                    out.push(copy);
                    assert(shared::instances_view(out@) =~= shared::instances_view(before).push(
                        copy@,
                    ));
                    assert((start + found).push(copy@) =~= start + found.push(copy@));
                }
            },
            None => {},
        }
        i = i + 1;
    }
}

/// The multi and toggle actions of a page.
pub fn containers_to_draw(page: &Page) -> (r: Vec<ActionInstance>)
    ensures
        shared::instances_view(r@) == containers_on(page@),
{
    let mut out: Vec<ActionInstance> = Vec::new();
    append_containers(&mut out, &page.keys);
    append_containers(&mut out, &page.sliders);
    assert(shared::instances_view(out@) =~= containers_on(page@));
    out
}

// ---------------------------------------------------------------------------
// Pages of a profile
// ---------------------------------------------------------------------------

/// The ids of the pages of a profile.
pub fn get_pages(profile: &Profile) -> (r: Vec<String>)
    ensures
        text::texts(r@) == profiles::page_ids(profile@.pages),
{
    let mut out: Vec<String> = Vec::new();
    let mut i: usize = 0;
    while i < profile.pages.len()
        invariant
            i <= profile.pages@.len(),
            out@.len() == i,
            forall|k: int| 0 <= k < i ==> (#[trigger] out@[k])@ == profile.pages@[k].id@,
        decreases profile.pages@.len() - i,
    {
        out.push(profile.pages[i].id.clone());
        i = i + 1;
    }
    assert(text::texts(out@) =~= profiles::page_ids(profile@.pages));
    out
}

/// The id of the selected page of a profile.
pub fn get_selected_page(profile: &Profile) -> (r: String)
    ensures
        r@ == profile@.selected_page,
{
    profile.selected_page.clone()
}

/// The profile with the page `id`, which is created where it is missing.
pub open spec fn with_page_in(p: ProfileView, id: Seq<char>) -> ProfileView {
    ProfileView { pages: profiles::with_page(p.pages, id), ..p }
}

/// The profile after the page `id` was selected: the page exists, and the page
/// that is then shown fits the device.
pub open spec fn selected(p: ProfileView, id: Seq<char>, keys: nat, encoders: nat) -> ProfileView {
    let a = with_page_in(p, id);
    if p.selected_page == id {
        a
    } else {
        let b = relocate::with_selection(ProfileView { selected_page: id, ..a });
        let i = relocate::shown_index(b);
        ProfileView { pages: b.pages.update(i, profiles::fitted(b.pages[i], keys, encoders)), ..b }
    }
}

/// What is to be done round a change of the selected page.
pub struct PageSwitch {
    /// Whether the selection changed; if not, nothing is to be done.
    pub switched: bool,
    /// The instances that disappear.
    pub disappearing: Vec<ActionInstance>,
    /// The instances that appear.
    pub appearing: Vec<ActionInstance>,
    /// The multi and toggle actions to draw.
    pub to_draw: Vec<ActionInstance>,
    /// The background of the encoder screen.
    pub background: Option<String>,
    pub crop: Option<EncoderScreenCrop>,
}

/// What a switch names: where it is shown, the instances of the page `before`
/// disappear and those of `shown` appear; else nothing is to be done.
pub open spec fn switches(r: PageSwitch, visible: bool, before: PageView, shown: PageView) -> bool {
    if visible {
        &&& shared::instances_view(r.disappearing@) == told_on(before)
        &&& shared::instances_view(r.appearing@) == told_on(shown)
        &&& shared::instances_view(r.to_draw@) == containers_on(shown)
        &&& text::opt_text(r.background) == shown.encoder_screen_background
        &&& r.crop == shown.encoder_screen_crop
    } else {
        &&& r.disappearing@.len() == 0
        &&& r.appearing@.len() == 0
        &&& r.to_draw@.len() == 0
        &&& r.background is None
        &&& r.crop is None
    }
}

/// Selects a page of a profile, and says what is to be done if the profile is
/// the active one of the device.
pub fn set_selected_page(profile: &mut Profile, device: &DeviceInfo, page_id: &str, active: bool)
    -> (r: PageSwitch)
    requires
        profiles::key_count(device.rows, device.columns) <= 255,
    ensures
        final(profile)@ == selected(
            old(profile)@,
            page_id@,
            profiles::key_count(device.rows, device.columns),
            device.encoders as nat,
        ),
        r.switched == (old(profile)@.selected_page != page_id@),
        ({
            let a = with_page_in(old(profile)@, page_id@);
            let shown = final(profile)@.pages[relocate::shown_index(final(profile)@)];
            switches(r, r.switched && active, a.pages[relocate::shown_index(a)], shown)
        }),
{
    let _ = ensure_page(profile, page_id);
    let mut r = PageSwitch {
        switched: false,
        disappearing: Vec::new(),
        appearing: Vec::new(),
        to_draw: Vec::new(),
        background: None,
        crop: None,
    };
    if same_text(&profile.selected_page, page_id) {
        return r;
    }
    r.switched = true;
    if active {
        match selected_page(profile) {
            Some(old_page) => {
                r.disappearing = instances_told(old_page);
            },
            None => {},
        }
    }
    profile.selected_page = owned(page_id);
    let keys: usize = (device.rows * device.columns) as usize;
    let ghost b = relocate::with_selection(profile@);
    let page = selected_page_mut(profile);
    fit_page(page, keys, device.encoders as usize);
    proof {
        let i = relocate::shown_index(b);
        assert(profiles::page_ids(profile@.pages) =~= profiles::page_ids(b.pages));
        assert(relocate::shown_index(profile@) == i);
    }
    if active {
        match selected_page(profile) {
            Some(page) => {
                r.appearing = instances_told(page);
                r.to_draw = containers_to_draw(page);
                r.background = clone_opt(&page.encoder_screen_background);
                r.crop = page.encoder_screen_crop;
            },
            None => {},
        }
    }
    r
}

/// The position of the selected page, or that of the first.
pub open spec fn current_index(p: ProfileView) -> int {
    relocate::shown_index(p)
}

/// The page that is `delta` pages behind the selected one, counted round the
/// end; `None` where there is nothing to shift.
pub open spec fn shifted_page(p: ProfileView, delta: int) -> Option<Seq<char>> {
    if delta == 0 || p.pages.len() <= 1 {
        None
    } else {
        Some(p.pages[(current_index(p) + delta) % (p.pages.len() as int)].id)
    }
}

/// The page to select when the selected page is shifted by `delta`.
pub fn shift_selected_page(profile: &Profile, delta: i32) -> (r: Option<String>)
    ensures
        text::opt_text(r) == shifted_page(profile@, delta as int),
{
    if delta == 0 || profile.pages.len() <= 1 {
        return None;
    }
    let found = page_index(&profile.pages, &profile.selected_page);
    let current: usize = if found < profile.pages.len() {
        found
    } else {
        0
    };
    let n: i128 = profile.pages.len() as i128;
    let sum: i128 = current as i128 + delta as i128;
    let next: usize = match sum.checked_rem_euclid(n) {
        Some(k) => {
            assert(k == sum % n);
            assert(0 <= sum % n < n) by (nonlinear_arith)
                requires
                    n > 0,
            ;
            k as usize
        },
        None => 0,
    };
    assert(profile@.pages[next as int] == profile.pages@[next as int]@);
    Some(profile.pages[next].id.clone())
}

/// On a profile whose pages have different ids, shifting by some pages and then
/// back by as many leads to the page from which it started.
pub proof fn law_shift_back(p: ProfileView, delta: int)
    requires
        p.pages.len() > 1,
        profiles::page_ids(p.pages).no_duplicates(),
        profiles::page_ids(p.pages).contains(p.selected_page),
        delta != 0,
    ensures
        ({
            let q = ProfileView { selected_page: shifted_page(p, delta)->0, ..p };
            shifted_page(q, -delta) == Some(p.selected_page)
        }),
{
    let ids = profiles::page_ids(p.pages);
    text::lemma_first_index(ids, p.selected_page);
    let n = p.pages.len() as int;
    let i = current_index(p);
    assert(ids[i] == p.pages[i].id);
    let j = (i + delta) % n;
    assert(0 <= j < n) by (nonlinear_arith)
        requires
            n > 0,
            j == (i + delta) % n,
    ;
    let q = ProfileView { selected_page: shifted_page(p, delta)->0, ..p };
    assert(ids[j] == p.pages[j].id);
    assert(ids[j] == q.selected_page);
    text::lemma_first_index(ids, q.selected_page);
    let k = text::first_index(ids, q.selected_page);
    assert(k == j) by {
        if k != j {
            assert(ids[k] == ids[j]);
        }
    }
    assert((j - delta) % n == i) by {
        vstd::arithmetic::div_mod::lemma_fundamental_div_mod(i + delta, n);
        let d = (i + delta) / n;
        assert(j - delta == i - n * d);
        vstd::arithmetic::div_mod::lemma_mod_multiples_vanish(-d, i, n);
        assert(n * (-d) + i == i - n * d) by (nonlinear_arith);
        vstd::arithmetic::div_mod::lemma_small_mod(i as nat, n as nat);
    }
}

/// The smallest number from 2 on that is the id of no page.
pub open spec fn is_next_page_number(ids: Seq<Seq<char>>, n: nat) -> bool {
    &&& n >= 2
    &&& !ids.contains(text::decimal(n))
    &&& forall|k: nat| 2 <= k < n ==> ids.contains(#[trigger] text::decimal(k))
}

/// Two numbers with the same digits are the same.
proof fn lemma_decimal_injective(a: nat, b: nat)
    requires
        text::decimal(a) == text::decimal(b),
    ensures
        a == b,
{
    text::lemma_decimal(a);
    text::lemma_decimal(b);
}

/// Not more numbers from 2 on are ids than there are ids.
proof fn lemma_numbers_bounded(ids: Seq<Seq<char>>, n: nat)
    requires
        n >= 2,
        forall|k: nat| 2 <= k < n ==> ids.contains(#[trigger] text::decimal(k)),
    ensures
        n - 2 <= ids.len(),
{
    let m = (n - 2) as nat;
    let used = Seq::new(m, |i: int| text::decimal((i + 2) as nat));
    assert(used.no_duplicates()) by {
        assert forall|i: int, j: int| 0 <= i < m && 0 <= j < m && i != j implies used[i]
            != used[j] by {
            if used[i] == used[j] {
                lemma_decimal_injective((i + 2) as nat, (j + 2) as nat);
            }
        }
    }
    used.unique_seq_to_set();
    ids.lemma_cardinality_of_set();
    assert(used.to_set().subset_of(ids.to_set())) by {
        assert forall|x: Seq<char>| used.to_set().contains(x) implies ids.to_set().contains(x) by {
            let i = choose|i: int| 0 <= i < used.len() && used[i] == x;
            assert(x == text::decimal((i + 2) as nat));
        }
    }
    vstd::set_lib::lemma_len_subset(used.to_set(), ids.to_set());
}

/// Adds a page under the smallest number from 2 on that is free, with slots for
/// the device, and returns its id.
pub fn create_page(profile: &mut Profile, device: &DeviceInfo) -> (r: String)
    requires
        profiles::key_count(device.rows, device.columns) <= 255,
        old(profile)@.pages.len() + 2 <= u32::MAX,
    ensures
        exists|n: nat|
            is_next_page_number(profiles::page_ids(old(profile)@.pages), n) && r@
                == #[trigger] text::decimal(n) && final(profile)@ == (ProfileView {
                pages: old(profile)@.pages.push(
                    profiles::fitted(
                        profiles::blank_page(text::decimal(n)),
                        profiles::key_count(device.rows, device.columns),
                        device.encoders as nat,
                    ),
                ),
                ..old(profile)@
            }),
{
    let ghost ids = profiles::page_ids(profile@.pages);
    let mut n: u64 = 2;
    loop
        invariant
            2 <= n <= profile.pages@.len() + 2,
            profile@ == old(profile)@,
            profile.pages@.len() + 2 <= u32::MAX,
            ids == profiles::page_ids(profile@.pages),
            profiles::key_count(device.rows, device.columns) <= 255,
            forall|k: nat| 2 <= k < n ==> ids.contains(#[trigger] text::decimal(k)),
        decreases profile.pages@.len() + 3 - n,
    {
        let candidate = decimal_text(n);
        if page_index(&profile.pages, &candidate) == profile.pages.len() {
            let keys: usize = (device.rows * device.columns) as usize;
            let mut page = profiles::new_page(&candidate);
            fit_page(&mut page, keys, device.encoders as usize);
            let ghost before = profile.pages@;
            profile.pages.push(page);
            assert(profile@.pages =~= shared::pages_view(before).push(page@));
            assert(is_next_page_number(ids, n as nat));
            return candidate;
        }
        proof {
            assert forall|k: nat| 2 <= k < n + 1 implies ids.contains(
                #[trigger] text::decimal(k),
            ) by {
                if k == n {
                    assert(text::decimal(k) == candidate@);
                }
            }
            lemma_numbers_bounded(ids, (n + 1) as nat);
        }
        n = n + 1;
    }
}

/// A new page has an id that no other page of the profile has.
pub proof fn law_created_page_is_new(ids: Seq<Seq<char>>, n: nat)
    requires
        is_next_page_number(ids, n),
        ids.no_duplicates(),
    ensures
        ids.push(text::decimal(n)).no_duplicates(),
        text::decimal(n) != "1"@,
{
    let all = ids.push(text::decimal(n));
    assert forall|i: int, j: int| 0 <= i < all.len() && 0 <= j < all.len() && i != j implies all[i]
        != all[j] by {
        if i == ids.len() {
            assert(ids.contains(all[j]));
        } else if j == ids.len() {
            assert(ids.contains(all[i]));
        } else {
            assert(ids[i] != ids[j]);
        }
    }
    reveal_strlit("1");
    if text::decimal(n) == "1"@ {
        assert("1"@ =~= seq!['1']);
        assert(text::decimal(1) =~= seq!['1']);
        lemma_decimal_injective(n, 1);
    }
}

/// The id of the first page other than `id`; "1" where there is none.
pub open spec fn other_page(pages: Seq<PageView>, id: Seq<char>) -> Seq<char>
    decreases pages.len(),
{
    if pages.len() == 0 {
        "1"@
    } else if pages[0].id != id {
        pages[0].id
    } else {
        other_page(pages.drop_first(), id)
    }
}

/// The page to select before the page `page_id` is deleted: another one, where
/// the page is selected, the profile is active and has more than one page.
pub fn page_before_delete(profile: &Profile, page_id: &str, active: bool) -> (r: Option<String>)
    ensures
        text::opt_text(r) == if profile@.pages.len() > 1 && active && profile@.selected_page
            == page_id@ {
            Some(other_page(profile@.pages, page_id@))
        } else {
            None
        },
{
    if profile.pages.len() <= 1 || !active || !same_text(&profile.selected_page, page_id) {
        return None;
    }
    let ghost pages = profile@.pages;
    let mut i: usize = 0;
    assert(pages.skip(0) =~= pages);
    while i < profile.pages.len()
        invariant
            i <= profile.pages@.len(),
            pages == profile@.pages,
            other_page(pages, page_id@) == other_page(pages.skip(i as int), page_id@),
            profile@.pages.len() > 1,
            active,
            profile@.selected_page == page_id@,
        decreases profile.pages@.len() - i,
    {
        assert(pages[i as int] == profile.pages@[i as int]@);
        assert(pages.skip(i as int)[0] == pages[i as int]);
        assert(pages.skip(i as int).drop_first() =~= pages.skip(i + 1));
        if !same_text(&profile.pages[i].id, page_id) {
            return Some(profile.pages[i].id.clone());
        }
        i = i + 1;
    }
    Some(owned("1"))
}

/// The profile without the page `id`. The last page stays. A selection that is
/// gone goes to the first page.
pub open spec fn without_page(p: ProfileView, id: Seq<char>) -> ProfileView {
    let ids = profiles::page_ids(p.pages);
    if p.pages.len() <= 1 || !ids.contains(id) {
        p
    } else {
        let pages = p.pages.remove(text::first_index(ids, id));
        ProfileView {
            pages,
            selected_page: if p.selected_page == id {
                pages[0].id
            } else {
                p.selected_page
            },
            ..p
        }
    }
}

/// Deletes a page. Returns whether a page was deleted.
pub fn delete_page(profile: &mut Profile, page_id: &str) -> (r: bool)
    ensures
        final(profile)@ == without_page(old(profile)@, page_id@),
        r == (old(profile)@.pages.len() > 1 && profiles::page_ids(old(profile)@.pages).contains(
            page_id@,
        )),
{
    if profile.pages.len() <= 1 {
        return false;
    }
    let i = page_index(&profile.pages, page_id);
    if i >= profile.pages.len() {
        return false;
    }
    let ghost before = profile@.pages;
    let _ = profile.pages.remove(i);
    assert(profile@.pages =~= before.remove(i as int));
    if same_text(&profile.selected_page, page_id) {
        assert(profile@.pages[0] == profile.pages@[0]@);
        profile.selected_page = profile.pages[0].id.clone();
    }
    true
}

/// A profile that has a page keeps at least one when a page is deleted, and a
/// selection that named a page still does where no two pages share an id.
pub proof fn law_delete_keeps_a_page(p: ProfileView, id: Seq<char>)
    requires
        p.pages.len() > 0,
        profiles::page_ids(p.pages).no_duplicates(),
        profiles::page_ids(p.pages).contains(p.selected_page),
    ensures
        ({
            let q = without_page(p, id);
            &&& q.pages.len() > 0
            &&& profiles::page_ids(q.pages).contains(q.selected_page)
            &&& profiles::page_ids(q.pages).no_duplicates()
            &&& p.pages.len() > 1 ==> !profiles::page_ids(q.pages).contains(id)
        }),
{
    let ids = profiles::page_ids(p.pages);
    let q = without_page(p, id);
    if p.pages.len() > 1 && ids.contains(id) {
        text::lemma_first_index(ids, id);
        let k = text::first_index(ids, id);
        let now = profiles::page_ids(q.pages);
        assert(now =~= ids.remove(k));
        assert forall|i: int, j: int| 0 <= i < now.len() && 0 <= j < now.len() && i
            != j implies now[i] != now[j] by {
            let a = if i < k { i } else { i + 1 };
            let b = if j < k { j } else { j + 1 };
            assert(now[i] == ids[a] && now[j] == ids[b]);
        }
        assert(!now.contains(id)) by {
            if now.contains(id) {
                let i = choose|i: int| 0 <= i < now.len() && now[i] == id;
                let a = if i < k { i } else { i + 1 };
                assert(now[i] == ids[a]);
                assert(ids[a] == ids[k]);
            }
        }
        if p.selected_page == id {
            assert(now[0] == q.pages[0].id);
        } else {
            let i = choose|i: int| 0 <= i < ids.len() && ids[i] == p.selected_page;
            let b = if i < k { i } else { i - 1 };
            assert(now[b] == ids[i]);
        }
    }
}

/// The page that was selected is the page that is shown.
pub proof fn law_selected_page_is_shown(
    p: ProfileView,
    id: Seq<char>,
    keys: nat,
    encoders: nat,
)
    requires
        text::trimmed(id).len() > 0,
    ensures
        ({
            let q = selected(p, id, keys, encoders);
            &&& q.selected_page == id
            &&& 0 <= relocate::shown_index(q) < q.pages.len()
            &&& q.pages[relocate::shown_index(q)].id == id
        }),
{
    let a = with_page_in(p, id);
    let ids = profiles::page_ids(a.pages);
    assert(ids.contains(id)) by {
        if !profiles::page_ids(p.pages).contains(id) {
            assert(ids[p.pages.len() as int] == id);
        }
    }
    text::lemma_first_index(ids, id);
    let q = selected(p, id, keys, encoders);
    assert(profiles::page_ids(q.pages) =~= ids);
    let i = relocate::shown_index(q);
    assert(ids[i] == q.pages[i].id);
}

/// Adds a page to a profile and selects it, and says what is to be done if the
/// profile is the active one of the device.
pub fn create_page_and_select(profile: &mut Profile, device: &DeviceInfo, active: bool) -> (r: (
    String,
    PageSwitch,
))
    requires
        profiles::key_count(device.rows, device.columns) <= 255,
        old(profile)@.pages.len() + 2 <= u32::MAX,
    ensures
        exists|n: nat|
            is_next_page_number(profiles::page_ids(old(profile)@.pages), n) && r.0@
                == #[trigger] text::decimal(n),
        ({
            let grown = ProfileView {
                pages: old(profile)@.pages.push(
                    profiles::fitted(
                        profiles::blank_page(r.0@),
                        profiles::key_count(device.rows, device.columns),
                        device.encoders as nat,
                    ),
                ),
                ..old(profile)@
            };
            let a = with_page_in(grown, r.0@);
            let shown = final(profile)@.pages[relocate::shown_index(final(profile)@)];
            &&& final(profile)@ == selected(
                grown,
                r.0@,
                profiles::key_count(device.rows, device.columns),
                device.encoders as nat,
            )
            &&& r.1.switched == (old(profile)@.selected_page != r.0@)
            &&& switches(r.1, r.1.switched && active, a.pages[relocate::shown_index(a)], shown)
        }),
{
    let id = create_page(profile, device);
    let switch = set_selected_page(profile, device, &id, active);
    (id, switch)
}

/// What is to be done round a change of the selected profile.
pub struct ProfileSwitch {
    /// Whether another profile was shown, so that the screen is cleared.
    pub switched: bool,
    /// The instances that disappear.
    pub disappearing: Vec<ActionInstance>,
    /// The background of the encoder screen, which is drawn first.
    pub background: Option<String>,
    /// The instances that appear.
    pub appearing: Vec<ActionInstance>,
}

/// Selects the profile `new` of a device that shows the profile `old`.
pub fn set_selected_profile(selected: &str, id: &str, old: &Profile, new: &Profile) -> (r:
    ProfileSwitch)
    requires
        old@.pages.len() > 0,
        new@.pages.len() > 0,
    ensures
        ({
            let before = old@.pages[relocate::shown_index(old@)];
            let after = new@.pages[relocate::shown_index(new@)];
            &&& r.switched == (selected@ != id@)
            &&& shared::instances_view(r.disappearing@) == if r.switched {
                told_on(before)
            } else {
                Seq::empty()
            }
            &&& text::opt_text(r.background) == after.encoder_screen_background
            &&& shared::instances_view(r.appearing@) == told_on(after)
        }),
{
    let switched = !same_text(selected, id);
    let mut r = ProfileSwitch {
        switched,
        disappearing: Vec::new(),
        background: None,
        appearing: Vec::new(),
    };
    assert(shared::instances_view(r.disappearing@) =~= Seq::empty());
    if switched {
        match selected_page(old) {
            Some(page) => {
                r.disappearing = instances_told(page);
            },
            None => {},
        }
    }
    match selected_page(new) {
        Some(page) => {
            r.background = clone_opt(&page.encoder_screen_background);
            r.appearing = instances_told(page);
        },
        None => {},
    }
    r
}

/// The plugins that are told of some slots are told of each instance there: of an
/// ordinary instance itself, and of the children of a multi or toggle action in its
/// place. They are told of nothing else.
pub proof fn law_told_of_every_instance(s: Seq<Option<InstanceView>>, n: nat)
    requires
        n <= s.len(),
    ensures
        forall|k: int|
            0 <= k < n && (#[trigger] s[k]) is Some && !shared::holds_children(
                s[k]->0.action.uuid,
            ) ==> told(s, n).contains(s[k]->0),
        forall|k: int, j: int|
            #![trigger s[k]->0.children->0[j]]
            0 <= k < n && s[k] is Some && shared::holds_children(s[k]->0.action.uuid)
                && s[k]->0.children is Some && 0 <= j < s[k]->0.children->0.len() ==> told(
                s,
                n,
            ).contains(s[k]->0.children->0[j]),
        forall|t: int|
            0 <= t < told(s, n).len() ==> exists|k: int|
                0 <= k < n && stands_for(#[trigger] s[k], #[trigger] told(s, n)[t]),
    decreases n,
{
    let now = told(s, n);
    if n > 0 {
        let m = (n - 1) as nat;
        law_told_of_every_instance(s, m);
        let before = told(s, m);
        let added = match s[m as int] {
            Some(i) => if !shared::holds_children(i.action.uuid) {
                seq![i]
            } else {
                match i.children {
                    Some(c) => c,
                    None => Seq::empty(),
                }
            },
            None => Seq::empty(),
        };
        assert(now =~= before + added);
        assert forall|x: InstanceView| before.contains(x) || added.contains(x) implies now.contains(
            x,
        ) by {
            if before.contains(x) {
                let j = choose|j: int| 0 <= j < before.len() && before[j] == x;
                assert(now[j] == x);
            } else {
                let j = choose|j: int| 0 <= j < added.len() && added[j] == x;
                assert(now[before.len() + j] == x);
            }
        }
        assert forall|k: int|
            0 <= k < n && (#[trigger] s[k]) is Some && !shared::holds_children(
                s[k]->0.action.uuid,
            ) implies now.contains(s[k]->0) by {
            if k == m {
                assert(added[0] == s[k]->0);
            }
        }
        assert forall|k: int, j: int|
            #![trigger s[k]->0.children->0[j]]
            0 <= k < n && s[k] is Some && shared::holds_children(s[k]->0.action.uuid)
                && s[k]->0.children is Some && 0 <= j
                < s[k]->0.children->0.len() implies now.contains(s[k]->0.children->0[j]) by {
            if k == m {
                assert(added[j] == s[k]->0.children->0[j]);
            }
        }
        assert forall|t: int| 0 <= t < now.len() implies exists|k: int|
            0 <= k < n && stands_for(#[trigger] s[k], #[trigger] now[t]) by {
            if t < before.len() {
                assert(now[t] == before[t]);
                let k = choose|k: int|
                    0 <= k < m && stands_for(#[trigger] s[k], before[t]);
                assert(stands_for(s[k], now[t]));
            } else {
                assert(now[t] == added[t - before.len()]);
                if !shared::holds_children(s[m as int]->0.action.uuid) {
                } else {
                    assert(s[m as int]->0.children->0[t - before.len()] == now[t]);
                }
                assert(stands_for(s[m as int], now[t]));
            }
        }
    }
}

/// The instance `i` is one whose plugin is told of the slot.
pub open spec fn stands_for(slot: Option<InstanceView>, i: InstanceView) -> bool {
    slot matches Some(x) && if shared::holds_children(x.action.uuid) {
        x.children matches Some(c) && c.contains(i)
    } else {
        x == i
    }
}

/// A page that is shown tells of its keys first and then of its encoders.
pub proof fn law_keys_are_told_before_encoders(p: PageView)
    ensures
        told_on(p).take(told(p.keys, p.keys.len()).len() as int) == told(p.keys, p.keys.len()),
        told_on(p).skip(told(p.keys, p.keys.len()).len() as int) == told(
            p.sliders,
            p.sliders.len(),
        ),
{
    let a = told(p.keys, p.keys.len());
    let b = told(p.sliders, p.sliders.len());
    assert((a + b).take(a.len() as int) =~= a);
    assert((a + b).skip(a.len() as int) =~= b);
}

/// A shift by one goes to the next page, and from the last to the first; one back
/// goes to the page before, and from the first to the last.
pub proof fn law_shift_by_one(p: ProfileView, k: int)
    requires
        p.pages.len() > 1,
        0 <= k < p.pages.len(),
        p.pages[k].id == p.selected_page,
        profiles::page_ids(p.pages).no_duplicates(),
    ensures
        k + 1 < p.pages.len() ==> shifted_page(p, 1) == Some(p.pages[k + 1].id),
        k + 1 == p.pages.len() ==> shifted_page(p, 1) == Some(p.pages[0].id),
        k > 0 ==> shifted_page(p, -1) == Some(p.pages[k - 1].id),
        k == 0 ==> shifted_page(p, -1) == Some(p.pages.last().id),
        shifted_page(p, 0) is None,
{
    let ids = profiles::page_ids(p.pages);
    let n = p.pages.len() as int;
    assert(ids[k] == p.selected_page);
    assert forall|j: int| 0 <= j < k implies #[trigger] ids[j] != p.selected_page by {}
    text::lemma_first_index_is(ids, p.selected_page, k);
    assert(current_index(p) == k);
    if k + 1 < n {
        vstd::arithmetic::div_mod::lemma_small_mod((k + 1) as nat, n as nat);
    } else {
        vstd::arithmetic::div_mod::lemma_mod_self_0(n);
    }
    if k > 0 {
        vstd::arithmetic::div_mod::lemma_small_mod((k - 1) as nat, n as nat);
    } else {
        vstd::arithmetic::div_mod::lemma_mod_add_multiples_vanish(-1, n);
        vstd::arithmetic::div_mod::lemma_small_mod((n - 1) as nat, n as nat);
        assert((n + -1) % n == -1int % n);
        assert((n - 1) % n == n - 1);
    }
}

/// Selecting a page keeps every other page, with what is on it, and only the page
/// that is then shown is fitted to the device.
pub proof fn law_selecting_keeps_other_pages(
    p: ProfileView,
    id: Seq<char>,
    keys: nat,
    encoders: nat,
    k: int,
)
    requires
        0 <= k < p.pages.len(),
        p.pages[k].id != id,
        text::trimmed(id).len() > 0,
    ensures
        selected(p, id, keys, encoders).id == p.id,
        selected(p, id, keys, encoders).pages[k] == p.pages[k],
{
    law_selected_page_is_shown(p, id, keys, encoders);
    let a = with_page_in(p, id);
    if p.selected_page != id {
        let b = relocate::with_selection(ProfileView { selected_page: id, ..a });
        let ids = profiles::page_ids(b.pages);
        text::lemma_first_index(ids, id);
        assert(b.pages == a.pages);
        if profiles::page_ids(p.pages).contains(id) {
        } else {
            assert(ids[p.pages.len() as int] == id);
        }
        assert(ids.contains(id));
        assert(ids[k] == p.pages[k].id);
    }
}

/// Deleting a page takes that page alone: the others stay, in their order, and a
/// selection of another page stays.
pub proof fn law_deleted_page_alone(p: ProfileView, id: Seq<char>, k: int)
    requires
        p.pages.len() > 1,
        profiles::page_ids(p.pages).no_duplicates(),
        0 <= k < p.pages.len(),
        p.pages[k].id == id,
    ensures
        without_page(p, id).pages == p.pages.remove(k),
        without_page(p, id).id == p.id,
        p.selected_page != id ==> without_page(p, id).selected_page == p.selected_page,
        p.selected_page == id ==> without_page(p, id).selected_page == p.pages.remove(k)[0].id,
{
    let ids = profiles::page_ids(p.pages);
    assert(ids[k] == id);
    assert forall|j: int| 0 <= j < k implies #[trigger] ids[j] != id by {}
    text::lemma_first_index_is(ids, id, k);
}

/// The page to which one goes from a page is another one wherever there is one: the
/// first of the others.
pub proof fn law_other_page_is_another(pages: Seq<PageView>, id: Seq<char>, k: int)
    requires
        0 <= k < pages.len(),
        pages[k].id != id,
        forall|j: int| 0 <= j < k ==> (#[trigger] pages[j]).id == id,
    ensures
        other_page(pages, id) == pages[k].id,
    decreases pages.len(),
{
    if k > 0 {
        let rest = pages.drop_first();
        assert(pages[0].id == id);
        assert forall|j: int| 0 <= j < k - 1 implies (#[trigger] rest[j]).id == id by {
            assert(rest[j] == pages[j + 1]);
        }
        law_other_page_is_another(rest, id, k - 1);
    }
}

/// The multi and toggle actions of some slots are drawn by the host: each of them, and
/// no other instance.
pub proof fn law_containers_are_drawn(s: Seq<Option<InstanceView>>, n: nat, i: InstanceView)
    requires
        n <= s.len(),
    ensures
        containers(s, n).contains(i) <==> shared::holds_children(i.action.uuid) && exists|k: int|
            0 <= k < n && #[trigger] s[k] == Some(i),
    decreases n,
{
    let now = containers(s, n);
    if n > 0 {
        let m = (n - 1) as nat;
        law_containers_are_drawn(s, m, i);
        let before = containers(s, m);
        if now.contains(i) {
            let t = choose|t: int| 0 <= t < now.len() && now[t] == i;
            if t < before.len() {
                assert(before[t] == i);
                let k = choose|k: int| 0 <= k < m && #[trigger] s[k] == Some(i);
                assert(s[k] == Some(i));
            } else {
                assert(s[m as int] == Some(i));
            }
        }
        if shared::holds_children(i.action.uuid) && exists|k: int|
            0 <= k < n && #[trigger] s[k] == Some(i) {
            let k = choose|k: int| 0 <= k < n && #[trigger] s[k] == Some(i);
            if k < m {
                let t = choose|t: int| 0 <= t < before.len() && before[t] == i;
                assert(now[t] == i);
            } else {
                assert(now[before.len() as int] == i);
            }
        }
    }
}

/// A switch that is not seen has nothing to do. One that is seen takes the instances of
/// the page before off the device, puts those of the page that is shown on it, and has
/// the background of that page.
pub proof fn law_seen_switch(r: PageSwitch, before: PageView, shown: PageView)
    ensures
        switches(r, false, before, shown) ==> r.appearing@.len() == 0 && r.disappearing@.len() == 0
            && r.to_draw@.len() == 0 && r.background is None && r.crop is None,
        switches(r, true, before, shown) ==> shared::instances_view(r.disappearing@) == told_on(
            before,
        ) && shared::instances_view(r.appearing@) == told_on(shown) && text::opt_text(r.background)
            == shown.encoder_screen_background && r.crop == shown.encoder_screen_crop,
{
}

} // verus!
