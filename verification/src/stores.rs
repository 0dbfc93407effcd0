//! Stores: the profiles in use, the selected profile of each device, the
//! settings, and which file of a store is read.
use vstd::prelude::*;
use crate::migration;
use crate::migration::profile_file;
use crate::profiles;
use crate::profiles::{load_profile, validate_profile_id, PluginFacts, ProfileIdError};
use crate::relocate;
use crate::relocate::{clone_profile, profile_images_dir};
use crate::shared;
use crate::shared::{
    join, ActionContext, ActionContextView, ActionInstance, DeviceInfo, InstanceView, PageView,
    Profile, ProfileView,
};
use crate::text;
use crate::text::{chars_of, owned, same_text, texts_contain, trim};

verus! {

// ---------------------------------------------------------------------------
// Profiles in use
// ---------------------------------------------------------------------------

/// A profile in use, under its canonical id.
pub struct StoredProfile {
    pub canonical: String,
    pub profile: Profile,
}

/// The profiles in use. No two have the same canonical id.
pub struct ProfileStores {
    pub stores: Vec<StoredProfile>,
}

impl View for ProfileStores {
    type V = Seq<(Seq<char>, ProfileView)>;

    open spec fn view(&self) -> Seq<(Seq<char>, ProfileView)> {
        stored_view(self.stores@)
    }
}

/// The models of stored profiles.
pub open spec fn stored_view(s: Seq<StoredProfile>) -> Seq<(Seq<char>, ProfileView)> {
    s.map_values(|p: StoredProfile| (p.canonical@, p.profile@))
}

/// The canonical ids of stored profiles.
pub open spec fn canonical_ids(s: Seq<(Seq<char>, ProfileView)>) -> Seq<Seq<char>> {
    s.map_values(|p: (Seq<char>, ProfileView)| p.0)
}

/// Why a profile is not found.
#[derive(Clone, Copy, PartialEq, Eq, Structural, Debug)]
pub enum ProfileStoreError {
    InvalidId(ProfileIdError),
    NotFound,
}

/// The profiles in use after the profile `id` of a device was opened: `loaded`
/// joins them, unless the id is no valid one or its profile is in use already.
pub open spec fn opened(
    s: Seq<(Seq<char>, ProfileView)>,
    device: Seq<char>,
    id: Seq<char>,
    loaded: ProfileView,
) -> Seq<(Seq<char>, ProfileView)> {
    let c = shared::joined(device, id);
    if !profiles::valid_profile_id(id) || canonical_ids(s).contains(c) {
        s
    } else {
        s.push((c, loaded))
    }
}

/// Why the profile `id` of a device is not found among those in use, if it is
/// not.
pub open spec fn lookup_error(
    s: Seq<(Seq<char>, ProfileView)>,
    device: Seq<char>,
    id: Seq<char>,
) -> Option<ProfileStoreError> {
    if id.len() == 0 {
        Some(ProfileStoreError::InvalidId(ProfileIdError::Empty))
    } else if !profiles::valid_profile_id(id) {
        Some(ProfileStoreError::InvalidId(ProfileIdError::Invalid))
    } else if !canonical_ids(s).contains(shared::joined(device, id)) {
        Some(ProfileStoreError::NotFound)
    } else {
        None
    }
}

/// The profile `id` of a device among those in use.
pub open spec fn profile_in_use(
    s: Seq<(Seq<char>, ProfileView)>,
    device: Seq<char>,
    id: Seq<char>,
) -> ProfileView {
    s[text::first_index(canonical_ids(s), shared::joined(device, id))].1
}

/// The profiles in use with another one in place of the profile `id` of a device.
pub open spec fn with_profile(
    s: Seq<(Seq<char>, ProfileView)>,
    device: Seq<char>,
    id: Seq<char>,
    p: ProfileView,
) -> Seq<(Seq<char>, ProfileView)> {
    let c = shared::joined(device, id);
    s.update(text::first_index(canonical_ids(s), c), (c, p))
}

/// Why a profile cannot be created, if it cannot: that from which it is cloned is
/// not in use, or its id is no valid one.
pub open spec fn creation_error(
    s: Seq<(Seq<char>, ProfileView)>,
    device: Seq<char>,
    id: Seq<char>,
    clone_from: Option<Seq<char>>,
) -> Option<ProfileStoreError> {
    let of_source = match clone_from {
        Some(source) => lookup_error(s, device, source),
        None => None,
    };
    if of_source is Some {
        of_source
    } else {
        match lookup_error(s, device, id) {
            Some(ProfileStoreError::InvalidId(e)) => Some(ProfileStoreError::InvalidId(e)),
            _ => None,
        }
    }
}

/// The canonical ids of two stores differ.
pub open spec fn distinct(s: Seq<(Seq<char>, ProfileView)>) -> bool {
    canonical_ids(s).no_duplicates()
}

impl ProfileStores {
    /// No two profiles have the same canonical id.
    pub open spec fn well_formed(&self) -> bool {
        distinct(self@)
    }

    /// No profile is in use.
    pub fn new() -> (r: ProfileStores)
        ensures
            r@ == Seq::<(Seq<char>, ProfileView)>::empty(),
            r.well_formed(),
    {
        let r = ProfileStores { stores: Vec::new() };
        assert(r@ =~= Seq::empty());
        r
    }

    /// The id under which a profile of a device is stored.
    pub fn canonical_id(device: &str, id: &str) -> (r: String)
        ensures
            r@ == shared::joined(device@, id@),
    {
        join(device, id)
    }

    fn position(&self, canonical: &str) -> (r: usize)
        ensures
            r == text::first_index(canonical_ids(self@), canonical@),
            r <= self.stores@.len(),
            r < self.stores@.len() <==> canonical_ids(self@).contains(canonical@),
            r < self.stores@.len() ==> self.stores@[r as int].canonical@ == canonical@,
    {
        let ghost ids = canonical_ids(self@);
        let mut i: usize = 0;
        proof {
            text::lemma_first_index(ids, canonical@);
        }
        while i < self.stores.len()
            invariant
                i <= self.stores@.len(),
                ids == canonical_ids(self@),
                forall|j: int| 0 <= j < i ==> ids[j] != canonical@,
            decreases self.stores@.len() - i,
        {
            assert(ids[i as int] == self.stores@[i as int].canonical@);
            if same_text(&self.stores[i].canonical, canonical) {
                proof {
                    text::lemma_first_index_is(ids, canonical@, i as int);
                }
                return i;
            }
            i = i + 1;
        }
        proof {
            text::lemma_first_index_is(ids, canonical@, i as int);
        }
        i
    }

    /// The profile `id` of a device.
    pub fn get_profile_store(&self, device: &str, id: &str) -> (r: Result<
        &Profile,
        ProfileStoreError,
    >)
        ensures
            ({
                let c = shared::joined(device@, id@);
                let ids = canonical_ids(self@);
                match r {
                    Ok(p) => profiles::valid_profile_id(id@) && ids.contains(c) && p@
                        == self@[text::first_index(ids, c)].1,
                    Err(ProfileStoreError::InvalidId(ProfileIdError::Empty)) => id@.len() == 0,
                    Err(ProfileStoreError::InvalidId(ProfileIdError::Invalid)) => id@.len() > 0
                        && !profiles::valid_profile_id(id@),
                    Err(ProfileStoreError::NotFound) => profiles::valid_profile_id(id@)
                        && !ids.contains(c),
                }
            }),
    {
        match validate_profile_id(id) {
            Ok(_) => {},
            Err(e) => {
                return Err(ProfileStoreError::InvalidId(e));
            },
        }
        let c = ProfileStores::canonical_id(device, id);
        let k = self.position(&c);
        if k < self.stores.len() {
            Ok(&self.stores[k].profile)
        } else {
            Err(ProfileStoreError::NotFound)
        }
    }

    /// The profile `id` of a device, to be changed.
    pub fn get_profile_store_mut(&mut self, device: &str, id: &str) -> (r: Result<
        &mut Profile,
        ProfileStoreError,
    >)
        ensures
            ({
                let c = shared::joined(device@, id@);
                let ids = canonical_ids(old(self)@);
                let k = text::first_index(ids, c);
                match r {
                    Ok(p) => {
                        &&& profiles::valid_profile_id(id@)
                        &&& ids.contains(c)
                        &&& (*p)@ == old(self)@[k].1
                        &&& final(self)@ == old(self)@.update(k, (c, (*final(p))@))
                    },
                    Err(e) => {
                        &&& final(self)@ == old(self)@
                        &&& match e {
                            ProfileStoreError::InvalidId(ProfileIdError::Empty) => id@.len() == 0,
                            ProfileStoreError::InvalidId(ProfileIdError::Invalid) => id@.len() > 0
                                && !profiles::valid_profile_id(id@),
                            ProfileStoreError::NotFound => profiles::valid_profile_id(id@)
                                && !ids.contains(c),
                        }
                    },
                }
            }),
    {
        broadcast use lemma_stores_update;

        match validate_profile_id(id) {
            Ok(_) => {},
            Err(e) => {
                return Err(ProfileStoreError::InvalidId(e));
            },
        }
        let c = ProfileStores::canonical_id(device, id);
        let k = self.position(&c);
        if k < self.stores.len() {
            Ok(&mut self.stores[k].profile)
        } else {
            Err(ProfileStoreError::NotFound)
        }
    }

    /// Takes a profile that was read from disk into use, unless it is in use
    /// already.
    pub fn open_profile(
        &mut self,
        device: &DeviceInfo,
        id: &str,
        on_disk: Profile,
        facts: &PluginFacts,
    ) -> (r: Result<(), ProfileIdError>)
        requires
            old(self).well_formed(),
            profiles::key_count(device.rows, device.columns) <= 255,
        ensures
            final(self).well_formed(),
            r is Ok <==> profiles::valid_profile_id(id@),
            r is Ok ==> canonical_ids(final(self)@).contains(shared::joined(device.id@, id@)),
            final(self)@ == opened(
                old(self)@,
                device.id@,
                id@,
                profiles::loaded(
                    facts@,
                    on_disk@,
                    profiles::key_count(device.rows, device.columns),
                    device.encoders as nat,
                ),
            ),
            r matches Err(e) ==> e == (if id@.len() == 0 {
                ProfileIdError::Empty
            } else {
                ProfileIdError::Invalid
            }),
    {
        match validate_profile_id(id) {
            Ok(_) => {},
            Err(e) => {
                return Err(e);
            },
        }
        let canonical = ProfileStores::canonical_id(&device.id, id);
        if self.position(&canonical) < self.stores.len() {
            return Ok(());
        }
        let mut profile = on_disk;
        load_profile(&mut profile, device, facts);
        let ghost before = self@;
        self.stores.push(StoredProfile { canonical, profile });
        proof {
            assert(self@ =~= before.push((canonical@, profile@)));
            let ids = canonical_ids(before);
            assert(canonical_ids(self@) =~= ids.push(canonical@));
            assert(canonical_ids(self@)[ids.len() as int] == canonical@);
        }
        Ok(())
    }

    /// Creates the profile `id` of a device: one that was read from disk or is
    /// new, `on_disk`, or else a copy of the profile `clone_from`. Returns, for a
    /// copy, the directories from which and to which its images are copied.
    pub fn create_profile(
        &mut self,
        device: &DeviceInfo,
        id: &str,
        clone_from: &Option<String>,
        on_disk: Profile,
        facts: &PluginFacts,
        config_dir: &str,
    ) -> (r: Result<Option<(String, String)>, ProfileStoreError>)
        requires
            old(self).well_formed(),
            profiles::key_count(device.rows, device.columns) <= 255,
        ensures
            final(self).well_formed(),
            ({
                let error = creation_error(old(self)@, device.id@, id@, text::opt_text(*clone_from));
                let all = opened(
                    old(self)@,
                    device.id@,
                    id@,
                    profiles::loaded(
                        facts@,
                        on_disk@,
                        profiles::key_count(device.rows, device.columns),
                        device.encoders as nat,
                    ),
                );
                match r {
                    Err(e) => error == Some(e) && final(self)@ == old(self)@,
                    Ok(None) => error is None && *clone_from is None && final(self)@ == all,
                    Ok(Some(dirs)) => {
                        &&& error is None
                        &&& *clone_from is Some
                        &&& ({
                            let source = (*clone_from)->0@;
                            let route = relocate::profile_route(
                                config_dir@,
                                device.id@,
                                source,
                                id@,
                            );
                            &&& dirs.0@ == route.old
                            &&& dirs.1@ == route.new
                            &&& final(self)@ == with_profile(
                                all,
                                device.id@,
                                id@,
                                relocate::cloned_profile(
                                    profile_in_use(old(self)@, device.id@, source),
                                    id@,
                                    route,
                                ),
                            )
                        })
                    },
                }
            }),
    {
        let clone = match clone_from {
            Some(source) => match self.get_profile_store(&device.id, source) {
                Ok(p) => Some(clone_profile(p, source, id, config_dir, &device.id)),
                Err(e) => {
                    return Err(e);
                },
            },
            None => None,
        };
        match self.open_profile(device, id, on_disk, facts) {
            Ok(_) => {},
            Err(e) => {
                return Err(ProfileStoreError::InvalidId(e));
            },
        }
        match (clone, clone_from) {
            (Some(p), Some(source)) => {
                let ghost all = self@;
                proof {
                    text::lemma_first_index(
                        canonical_ids(all),
                        shared::joined(device.id@, id@),
                    );
                }
                match self.get_profile_store_mut(&device.id, id) {
                    Ok(held) => {
                        *held = p;
                    },
                    Err(e) => {
                        return Err(e);
                    },
                }
                assert(canonical_ids(self@) =~= canonical_ids(all));
                Ok(
                    Some(
                        (
                            profile_images_dir(config_dir, &device.id, source),
                            profile_images_dir(config_dir, &device.id, id),
                        ),
                    ),
                )
            },
            _ => Ok(None),
        }
    }

    /// Takes the profile `id` of a device out of use.
    pub fn remove_profile(&mut self, device: &str, id: &str)
        requires
            old(self).well_formed(),
        ensures
            final(self).well_formed(),
            ({
                let c = shared::joined(device@, id@);
                let ids = canonical_ids(old(self)@);
                final(self)@ == if profiles::valid_profile_id(id@) && ids.contains(c) {
                    old(self)@.remove(text::first_index(ids, c))
                } else {
                    old(self)@
                }
            }),
            profiles::valid_profile_id(id@) ==> !canonical_ids(final(self)@).contains(
                shared::joined(device@, id@),
            ),
    {
        match validate_profile_id(id) {
            Ok(_) => {},
            Err(_) => {
                return;
            },
        }
        let c = ProfileStores::canonical_id(device, id);
        let k = self.position(&c);
        if k < self.stores.len() {
            let ghost before = self@;
            let ghost ids = canonical_ids(before);
            let _ = self.stores.remove(k);
            proof {
                assert(self@ =~= before.remove(k as int));
                let now = canonical_ids(self@);
                assert(now =~= ids.remove(k as int));
                assert(ids[k as int] == c@);
                assert forall|i: int, j: int| 0 <= i < now.len() && 0 <= j < now.len() && i
                    != j implies now[i] != now[j] by {
                    let a = if i < k { i } else { i + 1 };
                    let b = if j < k { j } else { j + 1 };
                    assert(now[i] == ids[a]);
                    assert(now[j] == ids[b]);
                }
                assert forall|i: int| 0 <= i < now.len() implies now[i] != c@ by {
                    let a = if i < k { i } else { i + 1 };
                    assert(now[i] == ids[a]);
                }
            }
        }
    }

    /// The contexts of the instances of a plugin in all profiles in use.
    pub fn all_from_plugin(&self, plugin: &str) -> (r: Vec<ActionContext>)
        ensures
            contexts_view(r@) == contexts_in_stores(self@, plugin@, self@.len()),
    {
        let ghost all = self@;
        let mut out: Vec<ActionContext> = Vec::new();
        let mut i: usize = 0;
        assert(contexts_view(out@) =~= Seq::<ActionContextView>::empty());
        while i < self.stores.len()
            invariant
                i <= self.stores@.len(),
                all == self@,
                contexts_view(out@) == contexts_in_stores(all, plugin@, i as nat),
            decreases self.stores@.len() - i,
        {
            assert(all[i as int].1 == self.stores@[i as int].profile@);
            append_profile_contexts(&mut out, &self.stores[i].profile, plugin);
            i = i + 1;
        }
        out
    }
}

/// Changing a stored profile changes its model.
pub broadcast proof fn lemma_stores_update(s: Seq<StoredProfile>, i: int, x: StoredProfile)
    requires
        0 <= i < s.len(),
    ensures
        #[trigger] stored_view(s.update(i, x)) == stored_view(s).update(
            i,
            (x.canonical@, x.profile@),
        ),
{
    assert(stored_view(s.update(i, x)) =~= stored_view(s).update(
        i,
        (x.canonical@, x.profile@),
    ));
}

/// The models of contexts.
pub open spec fn contexts_view(s: Seq<ActionContext>) -> Seq<ActionContextView> {
    s.map_values(|c: ActionContext| c@)
}

/// The contexts of the instances of `plugin` in the first `n` slots.
pub open spec fn contexts_in_slots(
    s: Seq<Option<InstanceView>>,
    plugin: Seq<char>,
    n: nat,
) -> Seq<ActionContextView>
    decreases n,
{
    if n == 0 || n > s.len() {
        Seq::empty()
    } else {
        let before = contexts_in_slots(s, plugin, (n - 1) as nat);
        match s[n - 1] {
            Some(i) => if i.action.plugin == plugin {
                before.push(i.context)
            } else {
                before
            },
            None => before,
        }
    }
}

/// The contexts of the instances of `plugin` on the first `n` pages: on each
/// page those of the keys, then those of the encoders.
pub open spec fn contexts_on_pages(p: Seq<PageView>, plugin: Seq<char>, n: nat) -> Seq<
    ActionContextView,
>
    decreases n,
{
    if n == 0 || n > p.len() {
        Seq::empty()
    } else {
        contexts_on_pages(p, plugin, (n - 1) as nat) + contexts_in_slots(
            p[n - 1].keys,
            plugin,
            p[n - 1].keys.len(),
        ) + contexts_in_slots(p[n - 1].sliders, plugin, p[n - 1].sliders.len())
    }
}

/// The contexts of the instances of `plugin` in the first `n` profiles.
pub open spec fn contexts_in_stores(
    s: Seq<(Seq<char>, ProfileView)>,
    plugin: Seq<char>,
    n: nat,
) -> Seq<ActionContextView>
    decreases n,
{
    if n == 0 || n > s.len() {
        Seq::empty()
    } else {
        contexts_in_stores(s, plugin, (n - 1) as nat) + contexts_on_pages(
            s[n - 1].1.pages,
            plugin,
            s[n - 1].1.pages.len(),
        )
    }
}

fn append_slot_contexts(
    out: &mut Vec<ActionContext>,
    slots: &Vec<Option<ActionInstance>>,
    plugin: &str,
)
    ensures
        contexts_view(final(out)@) == contexts_view(old(out)@) + contexts_in_slots(
            shared::slots_view(slots@),
            plugin@,
            slots@.len(),
        ),
{
    broadcast use shared::lemma_instance_view;

    let ghost start = contexts_view(out@);
    let ghost models = shared::slots_view(slots@);
    let mut i: usize = 0;
    assert(start + contexts_in_slots(models, plugin@, 0) =~= start);
    while i < slots.len()
        invariant
            i <= slots@.len(),
            models == shared::slots_view(slots@),
            contexts_view(out@) == start + contexts_in_slots(models, plugin@, i as nat),
        decreases slots@.len() - i,
    {
        assert(models[i as int] == shared::slot_view(slots@[i as int]));
        match &slots[i] {
            Some(instance) => {
                if same_text(&instance.action.plugin, plugin) {
                    let ghost before = out@;
                    let ghost found = contexts_in_slots(models, plugin@, i as nat);
                    let context = instance.context.copy();
                    out.push(context);
                    assert(contexts_view(out@) =~= contexts_view(before).push(context@));
                    assert((start + found).push(context@) =~= start + found.push(context@));
                }
            },
            None => {},
        }
        i = i + 1;
    }
}

fn append_profile_contexts(out: &mut Vec<ActionContext>, profile: &Profile, plugin: &str)
    ensures
        contexts_view(final(out)@) == contexts_view(old(out)@) + contexts_on_pages(
            profile@.pages,
            plugin@,
            profile@.pages.len(),
        ),
{
    let ghost start = contexts_view(out@);
    let ghost pages = profile@.pages;
    let mut i: usize = 0;
    assert(start + contexts_on_pages(pages, plugin@, 0) =~= start);
    while i < profile.pages.len()
        invariant
            i <= profile.pages@.len(),
            pages == profile@.pages,
            contexts_view(out@) == start + contexts_on_pages(pages, plugin@, i as nat),
        decreases profile.pages@.len() - i,
    {
        assert(pages[i as int] == profile.pages@[i as int]@);
        let ghost before = contexts_view(out@);
        append_slot_contexts(out, &profile.pages[i].keys, plugin);
        append_slot_contexts(out, &profile.pages[i].sliders, plugin);
        i = i + 1;
        assert(contexts_view(out@) =~= start + contexts_on_pages(pages, plugin@, i as nat));
    }
}

/// The files of a profile that is deleted.
pub struct ProfileFiles {
    pub file: String,
    pub images: String,
}

/// The file and the image directory of a profile; `None` where the id names no
/// profile.
pub fn profile_files(config_dir: &str, device: &str, id: &str) -> (r: Option<ProfileFiles>)
    ensures
        match r {
            Some(f) => profiles::valid_profile_id(id@) && f.file@ == migration::profile_path(
                config_dir@,
                device@,
                id@,
            ) && f.images@ == relocate::profile_images(config_dir@, device@, id@),
            None => !profiles::valid_profile_id(id@),
        },
{
    match validate_profile_id(id) {
        Ok(_) => Some(
            ProfileFiles {
                file: profile_file(config_dir, device, id),
                images: profile_images_dir(config_dir, device, id),
            },
        ),
        Err(_) => None,
    }
}

/// The files of a profile that is renamed, before and after.
pub struct RenamedProfile {
    pub from: ProfileFiles,
    pub to: ProfileFiles,
}

impl ProfileStores {
    /// Takes a profile that is renamed out of use, so that it is read again under
    /// its new id, and says which files are moved.
    pub fn rename_profile(&mut self, device: &str, old_id: &str, new_id: &str, config_dir: &str) -> (r:
        Result<RenamedProfile, ProfileIdError>)
        requires
            old(self).well_formed(),
        ensures
            final(self).well_formed(),
            r is Ok <==> profiles::valid_profile_id(old_id@) && profiles::valid_profile_id(
                new_id@,
            ),
            r matches Ok(f) ==> f.from.file@ == migration::profile_path(
                config_dir@,
                device@,
                old_id@,
            ) && f.to.file@ == migration::profile_path(config_dir@, device@, new_id@)
                && f.from.images@ == relocate::profile_images(config_dir@, device@, old_id@)
                && f.to.images@ == relocate::profile_images(config_dir@, device@, new_id@),
            r matches Err(e) ==> e == (if profiles::valid_profile_id(old_id@) {
                if new_id@.len() == 0 {
                    ProfileIdError::Empty
                } else {
                    ProfileIdError::Invalid
                }
            } else if old_id@.len() == 0 {
                ProfileIdError::Empty
            } else {
                ProfileIdError::Invalid
            }),
            ({
                let c = shared::joined(device@, old_id@);
                let ids = canonical_ids(old(self)@);
                final(self)@ == if r is Ok && ids.contains(c) {
                    old(self)@.remove(text::first_index(ids, c))
                } else {
                    old(self)@
                }
            }),
    {
        match validate_profile_id(old_id) {
            Ok(_) => {},
            Err(e) => {
                return Err(e);
            },
        }
        match validate_profile_id(new_id) {
            Ok(_) => {},
            Err(e) => {
                return Err(e);
            },
        }
        self.remove_profile(device, old_id);
        Ok(
            RenamedProfile {
                from: ProfileFiles {
                    file: profile_file(config_dir, device, old_id),
                    images: profile_images_dir(config_dir, device, old_id),
                },
                to: ProfileFiles {
                    file: profile_file(config_dir, device, new_id),
                    images: profile_images_dir(config_dir, device, new_id),
                },
            },
        )
    }

    /// Takes a profile that is deleted out of use, and says which files go.
    pub fn delete_profile(&mut self, device: &str, id: &str, config_dir: &str) -> (r: Option<
        ProfileFiles,
    >)
        requires
            old(self).well_formed(),
        ensures
            final(self).well_formed(),
            match r {
                Some(f) => profiles::valid_profile_id(id@) && f.file@ == migration::profile_path(
                    config_dir@,
                    device@,
                    id@,
                ) && f.images@ == relocate::profile_images(config_dir@, device@, id@),
                None => !profiles::valid_profile_id(id@),
            },
            ({
                let c = shared::joined(device@, id@);
                let ids = canonical_ids(old(self)@);
                final(self)@ == if r is Some && ids.contains(c) {
                    old(self)@.remove(text::first_index(ids, c))
                } else {
                    old(self)@
                }
            }),
    {
        self.remove_profile(device, id);
        profile_files(config_dir, device, id)
    }
}

// ---------------------------------------------------------------------------
// Selected profiles
// ---------------------------------------------------------------------------

/// The configuration of a device.
pub struct DeviceConfig {
    pub selected_profile: String,
}

/// The configurations of the devices in use. No two are of the same device.
pub struct DeviceStores {
    pub stores: Vec<(String, DeviceConfig)>,
}

impl View for DeviceStores {
    type V = Seq<(Seq<char>, Seq<char>)>;

    open spec fn view(&self) -> Seq<(Seq<char>, Seq<char>)> {
        self.stores@.map_values(|s: (String, DeviceConfig)| (s.0@, s.1.selected_profile@))
    }
}

/// The devices of configurations.
pub open spec fn device_ids(s: Seq<(Seq<char>, Seq<char>)>) -> Seq<Seq<char>> {
    s.map_values(|p: (Seq<char>, Seq<char>)| p.0)
}

/// The configurations with that of `device` among them: what is on disk, or
/// else `default`, is added where it is missing.
pub open spec fn with_device(
    s: Seq<(Seq<char>, Seq<char>)>,
    device: Seq<char>,
    on_disk: Option<Seq<char>>,
    default: Seq<char>,
) -> Seq<(Seq<char>, Seq<char>)> {
    if device_ids(s).contains(device) {
        s
    } else {
        s.push(
            (
                device,
                match on_disk {
                    Some(p) => p,
                    None => default,
                },
            ),
        )
    }
}

impl DeviceStores {
    /// No configuration is in use.
    pub fn new() -> (r: DeviceStores)
        ensures
            r@ == Seq::<(Seq<char>, Seq<char>)>::empty(),
    {
        let r = DeviceStores { stores: Vec::new() };
        assert(r@ =~= Seq::empty());
        r
    }

    fn position(&self, device: &str) -> (r: usize)
        ensures
            r == text::first_index(device_ids(self@), device@),
            r <= self.stores@.len(),
            r < self.stores@.len() <==> device_ids(self@).contains(device@),
            r < self.stores@.len() ==> self.stores@[r as int].0@ == device@,
    {
        let ghost ids = device_ids(self@);
        let mut i: usize = 0;
        proof {
            text::lemma_first_index(ids, device@);
        }
        while i < self.stores.len()
            invariant
                i <= self.stores@.len(),
                ids == device_ids(self@),
                forall|j: int| 0 <= j < i ==> ids[j] != device@,
            decreases self.stores@.len() - i,
        {
            assert(ids[i as int] == self.stores@[i as int].0@);
            if same_text(&self.stores[i].0, device) {
                proof {
                    text::lemma_first_index_is(ids, device@, i as int);
                }
                return i;
            }
            i = i + 1;
        }
        proof {
            text::lemma_first_index_is(ids, device@, i as int);
        }
        i
    }

    fn ensure_device(&mut self, device: &str, on_disk: Option<DeviceConfig>, default: &str) -> (r:
        usize)
        ensures
            final(self)@ == with_device(
                old(self)@,
                device@,
                match on_disk {
                    Some(c) => Some(c.selected_profile@),
                    None => None,
                },
                default@,
            ),
            r == text::first_index(device_ids(final(self)@), device@),
            r < final(self).stores@.len(),
    {
        let k = self.position(device);
        if k < self.stores.len() {
            return k;
        }
        let config = match on_disk {
            Some(c) => c,
            None => DeviceConfig { selected_profile: owned(default) },
        };
        let ghost before = self@;
        self.stores.push((owned(device), config));
        proof {
            let ids = device_ids(before);
            text::lemma_first_index(ids, device@);
            assert(self@ =~= before.push((device@, config.selected_profile@)));
            let now = device_ids(self@);
            assert(now =~= ids.push(device@));
            assert forall|j: int| 0 <= j < ids.len() implies now[j] != device@ by {
                assert(now[j] == ids[j]);
            }
            text::lemma_first_index_is(now, device@, k as int);
        }
        k
    }

    /// The selected profile of a device, given its configuration on disk and
    /// the profiles it has: the one of its configuration, or the first profile
    /// where that one is gone.
    pub fn get_selected_profile(
        &mut self,
        device: &str,
        on_disk: Option<DeviceConfig>,
        all: &Vec<String>,
    ) -> (r: String)
        requires
            all@.len() > 0,
        ensures
            final(self)@ == with_device(
                old(self)@,
                device@,
                match on_disk {
                    Some(c) => Some(c.selected_profile@),
                    None => None,
                },
                "Default"@,
            ),
            ({
                let stored = final(self)@[text::first_index(
                    device_ids(final(self)@),
                    device@,
                )].1;
                r@ == if text::texts(all@).contains(stored) {
                    stored
                } else {
                    all@[0]@
                }
            }),
            text::texts(all@).contains(r@),
    {
        let k = self.ensure_device(device, on_disk, "Default");
        assert(self@[k as int].1 == self.stores@[k as int].1.selected_profile@);
        if texts_contain(all, &self.stores[k].1.selected_profile) {
            self.stores[k].1.selected_profile.clone()
        } else {
            assert(text::texts(all@)[0] == all@[0]@);
            all[0].clone()
        }
    }

    /// Selects a profile of a device, whatever was selected before.
    pub fn set_selected_profile(&mut self, device: &str, id: &str)
        ensures
            final(self)@ == with_selection(old(self)@, device@, id@),
    {
        let ghost before = self@;
        let k = self.position(device);
        let entry = (owned(device), DeviceConfig { selected_profile: owned(id) });
        if k < self.stores.len() {
            self.stores.set(k, entry);
            assert(self@ =~= before.update(k as int, (device@, id@)));
        } else {
            proof {
                text::lemma_first_index(device_ids(before), device@);
            }
            self.stores.push(entry);
            assert(self@ =~= before.push((device@, id@)));
        }
    }
}

/// The configurations once a profile of a device is selected.
pub open spec fn with_selection(
    s: Seq<(Seq<char>, Seq<char>)>,
    device: Seq<char>,
    id: Seq<char>,
) -> Seq<(Seq<char>, Seq<char>)> {
    if device_ids(s).contains(device) {
        s.update(text::first_index(device_ids(s), device), (device, id))
    } else {
        s.push((device, id))
    }
}

/// A profile that was selected is the selected one, whatever is on disk.
pub proof fn law_selected_profile_reads_back(
    s: Seq<(Seq<char>, Seq<char>)>,
    device: Seq<char>,
    id: Seq<char>,
    on_disk: Option<Seq<char>>,
    default: Seq<char>,
)
    ensures
        ({
            let t = with_device(with_selection(s, device, id), device, on_disk, default);
            &&& device_ids(t).contains(device)
            &&& t[text::first_index(device_ids(t), device)].1 == id
        }),
{
    let ids = device_ids(s);
    let t = with_selection(s, device, id);
    if ids.contains(device) {
        text::lemma_first_index(ids, device);
        assert(device_ids(t) =~= ids);
    } else {
        assert(device_ids(t) =~= ids.push(device));
        let all = device_ids(t);
        assert(all[s.len() as int] == device);
        assert forall|i: int| 0 <= i < s.len() implies all[i] != device by {
            assert(ids[i] == all[i]);
        }
        text::lemma_first_index_is(all, device, s.len() as int);
    }
}

// ---------------------------------------------------------------------------
// Files of a store
// ---------------------------------------------------------------------------

/// Which file of a store is read.
#[derive(Clone, Copy, PartialEq, Eq, Structural, Debug)]
pub enum StoreSource {
    /// The main file; what is left of the other two is removed.
    Main,
    /// The temporary file, which becomes the main one.
    Temp,
    /// The backup, which becomes the main file.
    Backup,
    /// None of them: the store starts with its default.
    Default,
}

/// The file of a store that is read, given which of its files hold a valid
/// value: the main file, the temporary one or the backup, in this order.
pub fn choose_store_source(main_valid: bool, temp_valid: bool, backup_valid: bool) -> (r:
    StoreSource)
    ensures
        r == StoreSource::Main <==> main_valid,
        r == StoreSource::Temp <==> !main_valid && temp_valid,
        r == StoreSource::Backup <==> !main_valid && !temp_valid && backup_valid,
{
    if main_valid {
        StoreSource::Main
    } else if temp_valid {
        StoreSource::Temp
    } else if backup_valid {
        StoreSource::Backup
    } else {
        StoreSource::Default
    }
}

/// Why a store is not written.
#[derive(Clone, Copy, PartialEq, Eq, Structural, Debug)]
pub enum StoreWriteError {
    SymlinkedTemp,
    SymlinkedBackup,
    SymlinkedStore,
}

/// Checks that none of the files of a store is a symbolic link.
pub fn check_store_files(temp_is_link: bool, backup_is_link: bool, main_is_link: bool) -> (r:
    Result<(), StoreWriteError>)
    ensures
        r is Ok <==> !temp_is_link && !backup_is_link && !main_is_link,
        r == Err::<(), _>(StoreWriteError::SymlinkedTemp) <==> temp_is_link,
        r == Err::<(), _>(StoreWriteError::SymlinkedBackup) <==> !temp_is_link && backup_is_link,
        r == Err::<(), _>(StoreWriteError::SymlinkedStore) <==> !temp_is_link && !backup_is_link
            && main_is_link,
{
    if temp_is_link {
        Err(StoreWriteError::SymlinkedTemp)
    } else if backup_is_link {
        Err(StoreWriteError::SymlinkedBackup)
    } else if main_is_link {
        Err(StoreWriteError::SymlinkedStore)
    } else {
        Ok(())
    }
}

/// One step of writing a store.
#[derive(Clone, Copy, PartialEq, Eq, Structural, Debug)]
pub enum WriteStep {
    /// Write the contents to the temporary file.
    WriteTemp,
    /// Rename the main file to the backup.
    BackUpMain,
    /// Rename the temporary file to the main one.
    PromoteTemp,
    /// Remove the backup.
    RemoveBackup,
}

/// The steps in which a store is written. At every step the old or the new
/// contents stand in one of the files that are read.
pub fn write_steps(main_exists: bool, backup_exists: bool) -> (r: Vec<WriteStep>)
    ensures
        r@ == (if main_exists {
            seq![WriteStep::WriteTemp, WriteStep::BackUpMain, WriteStep::PromoteTemp]
        } else {
            seq![WriteStep::WriteTemp, WriteStep::PromoteTemp]
        }) + (if main_exists || backup_exists {
            seq![WriteStep::RemoveBackup]
        } else {
            Seq::empty()
        }),
{
    let mut steps: Vec<WriteStep> = Vec::new();
    steps.push(WriteStep::WriteTemp);
    if main_exists {
        steps.push(WriteStep::BackUpMain);
    }
    steps.push(WriteStep::PromoteTemp);
    if main_exists || backup_exists {
        steps.push(WriteStep::RemoveBackup);
    }
    assert(steps@ =~= (if main_exists {
        seq![WriteStep::WriteTemp, WriteStep::BackUpMain, WriteStep::PromoteTemp]
    } else {
        seq![WriteStep::WriteTemp, WriteStep::PromoteTemp]
    }) + (if main_exists || backup_exists {
        seq![WriteStep::RemoveBackup]
    } else {
        Seq::empty()
    }));
    steps
}

/// Which of the files of a store hold a valid value.
pub struct StoreFiles {
    pub main: bool,
    pub temp: bool,
    pub backup: bool,
}

/// The files after a step of writing.
pub open spec fn after_step(f: StoreFiles, step: WriteStep) -> StoreFiles {
    match step {
        WriteStep::WriteTemp => StoreFiles { temp: true, ..f },
        WriteStep::BackUpMain => StoreFiles { main: false, backup: f.main, ..f },
        WriteStep::PromoteTemp => StoreFiles { main: f.temp, temp: false, ..f },
        WriteStep::RemoveBackup => StoreFiles { backup: false, ..f },
    }
}

/// Some file of the store holds a valid value.
pub open spec fn readable(f: StoreFiles) -> bool {
    f.main || f.temp || f.backup
}

/// A store that is read after any of the steps of writing, but not before the
/// first, finds a valid value; after the last step it is the main file's.
pub proof fn law_write_keeps_store_readable(f: StoreFiles)
    ensures
        ({
            let a = after_step(f, WriteStep::WriteTemp);
            let b = after_step(a, WriteStep::BackUpMain);
            let c = after_step(b, WriteStep::PromoteTemp);
            let d = after_step(c, WriteStep::RemoveBackup);
            &&& readable(a)
            &&& readable(b)
            &&& readable(c)
            &&& d.main && !d.temp && !d.backup
        }),
        ({
            let a = after_step(f, WriteStep::WriteTemp);
            let c = after_step(a, WriteStep::PromoteTemp);
            readable(a) && c.main
        }),
{
}

// ---------------------------------------------------------------------------
// Settings
// ---------------------------------------------------------------------------

/// The identifier of a theme of the user interface.
pub struct ThemeId(pub String);

impl ThemeId {
    /// The dark theme.
    pub fn river_dark() -> (r: ThemeId)
        ensures
            r.0@ == "river-dark"@,
    {
        ThemeId(owned("river-dark"))
    }

    /// The light theme.
    pub fn river_light() -> (r: ThemeId)
        ensures
            r.0@ == "river-light"@,
    {
        ThemeId(owned("river-light"))
    }
}

/// The settings of the application.
pub struct Settings {
    pub version: String,
    pub language: String,
    pub brightness: u8,
    pub theme: ThemeId,
    /// Whether the dark theme is set; older settings had only this.
    pub darktheme: bool,
    pub background: bool,
    pub autolaunch: bool,
    pub screensaver: bool,
    pub updatecheck: bool,
    pub statistics: bool,
    pub separatewine: bool,
    pub developer: bool,
    pub disableelgato: bool,
    /// The plugins that are not launched.
    pub disabled_plugins: Vec<String>,
}

/// The settings as they stand on disk.
pub struct SettingsSerde {
    pub version: String,
    pub language: String,
    pub brightness: u8,
    pub theme: Option<ThemeId>,
    pub darktheme: Option<bool>,
    pub background: bool,
    pub autolaunch: bool,
    pub screensaver: bool,
    pub updatecheck: bool,
    pub statistics: bool,
    pub separatewine: bool,
    pub developer: bool,
    pub disableelgato: bool,
    pub disabled_plugins: Vec<String>,
}

/// The theme of stored settings: the one they name, or else the light one where
/// they say that the dark one is off.
pub open spec fn migrated_theme(theme: Option<Seq<char>>, darktheme: Option<bool>) -> Seq<char> {
    match theme {
        Some(t) => t,
        None => if darktheme == Some(false) {
            "river-light"@
        } else {
            "river-dark"@
        },
    }
}

impl Settings {
    /// The settings of a new installation.
    pub fn initial(flatpak: bool, update_check_disabled: bool) -> (r: Settings)
        ensures
            r.version@ == "0.0.0"@,
            r.language@ == "en"@,
            r.brightness == 50,
            r.theme.0@ == "river-dark"@,
            r.darktheme,
            r.background == !flatpak,
            !r.autolaunch,
            !r.screensaver,
            r.updatecheck == (!update_check_disabled && !flatpak),
            !r.statistics,
            !r.separatewine,
            !r.developer,
            !r.disableelgato,
            r.disabled_plugins@.len() == 0,
    {
        Settings {
            version: owned("0.0.0"),
            language: owned("en"),
            brightness: 50,
            theme: ThemeId::river_dark(),
            darktheme: true,
            background: !flatpak,
            autolaunch: false,
            screensaver: false,
            updatecheck: !update_check_disabled && !flatpak,
            statistics: false,
            separatewine: false,
            developer: false,
            disableelgato: false,
            disabled_plugins: Vec::new(),
        }
    }

    /// The settings that stood on disk.
    pub fn from_disk(s: SettingsSerde) -> (r: Settings)
        ensures
            r.version == s.version,
            r.language == s.language,
            r.brightness == s.brightness,
            r.theme.0@ == migrated_theme(
                match s.theme {
                    Some(t) => Some(t.0@),
                    None => None,
                },
                s.darktheme,
            ),
            r.darktheme == (r.theme.0@ == "river-dark"@),
            r.background == s.background,
            r.autolaunch == s.autolaunch,
            r.screensaver == s.screensaver,
            r.updatecheck == s.updatecheck,
            r.statistics == s.statistics,
            r.separatewine == s.separatewine,
            r.developer == s.developer,
            r.disableelgato == s.disableelgato,
            r.disabled_plugins == s.disabled_plugins,
    {
        let theme = match s.theme {
            Some(t) => t,
            None => match s.darktheme {
                Some(false) => ThemeId::river_light(),
                _ => ThemeId::river_dark(),
            },
        };
        let darktheme = same_text(&theme.0, "river-dark");
        Settings {
            version: s.version,
            language: s.language,
            brightness: s.brightness,
            theme,
            darktheme,
            background: s.background,
            autolaunch: s.autolaunch,
            screensaver: s.screensaver,
            updatecheck: s.updatecheck,
            statistics: s.statistics,
            separatewine: s.separatewine,
            developer: s.developer,
            disableelgato: s.disableelgato,
            disabled_plugins: s.disabled_plugins,
        }
    }
}

/// The lower-case ASCII form of a character.
pub fn to_ascii_lower(c: char) -> (r: char)
    ensures
        r == text::ascii_lower(c),
{
    if 'A' <= c && c <= 'Z' {
        let n: u8 = (c as u32) as u8;
        (n + 32) as char
    } else {
        c
    }
}

/// `s` with each ASCII letter in lower case.
pub fn to_ascii_lowercase(s: &str) -> (r: String)
    ensures
        r@ == text::ascii_lowered(s@),
{
    let v = chars_of(s);
    let mut out = String::new();
    let mut i: usize = 0;
    while i < v.len()
        invariant
            v@ == s@,
            i <= v@.len(),
            out@ == text::ascii_lowered(v@.take(i as int)),
        decreases v@.len() - i,
    {
        out.push(to_ascii_lower(v[i]));
        i = i + 1;
        assert(out@ =~= text::ascii_lowered(v@.take(i as int)));
    }
    assert(v@.take(i as int) =~= v@);
    out
}

/// A value of an environment variable that switches something on: `1`, `true`,
/// `yes` or `on`, in any case and with white space round it.
pub open spec fn is_truthy(v: Seq<char>) -> bool {
    let t = text::ascii_lowered(text::trimmed(v));
    t == "1"@ || t == "true"@ || t == "yes"@ || t == "on"@
}

/// A value of an environment variable that switches something on.
pub fn truthy(v: &str) -> (r: bool)
    ensures
        r == is_truthy(v@),
{
    let t = trim(v);
    let l = to_ascii_lowercase(&t);
    same_text(&l, "1") || same_text(&l, "true") || same_text(&l, "yes") || same_text(&l, "on")
}

/// Whether stores are written as indented JSON, given the value of
/// `RIVERDECK_PRETTY_JSON`.
pub fn pretty_json_enabled(value: &Option<String>) -> (r: bool)
    ensures
        r == (value matches Some(v) && is_truthy(v@)),
{
    match value {
        Some(v) => truthy(v),
        None => false,
    }
}

/// What a store holds other than a profile: it is written as it is.
pub trait NotProfile {

}

impl NotProfile for Settings {

}

impl NotProfile for DeviceConfig {

}

/// A profile that was opened is in use as it was loaded, and the profiles that were
/// in use stay in use as they are.
pub proof fn law_opened_profile_is_in_use(
    s: Seq<(Seq<char>, ProfileView)>,
    device: Seq<char>,
    id: Seq<char>,
    loaded: ProfileView,
    k: int,
)
    requires
        profiles::valid_profile_id(id),
    ensures
        ({
            let t = opened(s, device, id, loaded);
            &&& lookup_error(t, device, id) is None
            &&& !canonical_ids(s).contains(shared::joined(device, id)) ==> profile_in_use(
                t,
                device,
                id,
            ) == loaded
            &&& canonical_ids(s).contains(shared::joined(device, id)) ==> t == s
            &&& 0 <= k < s.len() ==> t[k] == s[k]
        }),
{
    let c = shared::joined(device, id);
    let t = opened(s, device, id, loaded);
    let ids = canonical_ids(t);
    if !canonical_ids(s).contains(c) {
        let n = s.len() as int;
        assert(ids[n] == c);
        assert forall|j: int| 0 <= j < n implies #[trigger] ids[j] != c by {
            assert(canonical_ids(s)[j] == ids[j]);
        }
        text::lemma_first_index_is(ids, c, n);
    }
}

/// A profile is found exactly where its id is valid and it is in use; an empty id,
/// an invalid one and one that is not in use are told apart.
pub proof fn law_lookup_errors(
    s: Seq<(Seq<char>, ProfileView)>,
    device: Seq<char>,
    id: Seq<char>,
)
    ensures
        lookup_error(s, device, id) is None <==> id.len() > 0 && crate::path::stays_below(id)
            && canonical_ids(s).contains(shared::joined(device, id)),
        id.len() == 0 <==> lookup_error(s, device, id) == Some(
            ProfileStoreError::InvalidId(ProfileIdError::Empty),
        ),
        id.len() > 0 && !crate::path::stays_below(id) <==> lookup_error(s, device, id) == Some(
            ProfileStoreError::InvalidId(ProfileIdError::Invalid),
        ),
{
}

/// A profile that takes the place of another is the one in use then, and the other
/// profiles stay.
pub proof fn law_replaced_profile_reads_back(
    s: Seq<(Seq<char>, ProfileView)>,
    device: Seq<char>,
    id: Seq<char>,
    p: ProfileView,
    other: Seq<char>,
)
    requires
        lookup_error(s, device, id) is None,
    ensures
        profile_in_use(with_profile(s, device, id, p), device, id) == p,
        canonical_ids(with_profile(s, device, id, p)) == canonical_ids(s),
        shared::joined(device, other) != shared::joined(device, id) && canonical_ids(s).contains(
            shared::joined(device, other),
        ) ==> profile_in_use(with_profile(s, device, id, p), device, other) == profile_in_use(
            s,
            device,
            other,
        ),
{
    let c = shared::joined(device, id);
    let t = with_profile(s, device, id, p);
    text::lemma_first_index(canonical_ids(s), c);
    text::lemma_first_index(canonical_ids(s), shared::joined(device, other));
    assert(canonical_ids(t) =~= canonical_ids(s)) by {
        let k = text::first_index(canonical_ids(s), c);
        assert forall|j: int| 0 <= j < s.len() implies canonical_ids(t)[j] == canonical_ids(
            s,
        )[j] by {
            if j == k {
                assert(canonical_ids(s)[k] == c);
            }
        }
    }
}

/// A profile can be created under every valid id, as a copy only of one that is in
/// use.
pub proof fn law_creation_errors(
    s: Seq<(Seq<char>, ProfileView)>,
    device: Seq<char>,
    id: Seq<char>,
    source: Seq<char>,
)
    ensures
        creation_error(s, device, id, None) is None <==> profiles::valid_profile_id(id),
        creation_error(s, device, id, Some(source)) is None <==> profiles::valid_profile_id(id)
            && profiles::valid_profile_id(source) && canonical_ids(s).contains(
            shared::joined(device, source),
        ),
        lookup_error(s, device, source) is Some ==> creation_error(s, device, id, Some(source))
            == lookup_error(s, device, source),
{
}

/// The slot holds an instance of `plugin` at the place `c`.
pub open spec fn stands_at(
    slot: Option<InstanceView>,
    plugin: Seq<char>,
    c: ActionContextView,
) -> bool {
    slot matches Some(i) && i.action.plugin == plugin && i.context == c
}

/// The contexts that are listed for a plugin are those of its own instances, each of
/// them, and of no other plugin's.
pub proof fn law_contexts_are_of_the_plugin(
    s: Seq<Option<InstanceView>>,
    plugin: Seq<char>,
    n: nat,
    c: ActionContextView,
)
    requires
        n <= s.len(),
    ensures
        contexts_in_slots(s, plugin, n).contains(c) <==> exists|k: int|
            0 <= k < n && stands_at(#[trigger] s[k], plugin, c),
    decreases n,
{
    let now = contexts_in_slots(s, plugin, n);
    if n > 0 {
        let m = (n - 1) as nat;
        law_contexts_are_of_the_plugin(s, plugin, m, c);
        let before = contexts_in_slots(s, plugin, m);
        if now.contains(c) {
            let t = choose|t: int| 0 <= t < now.len() && now[t] == c;
            if t < before.len() {
                assert(before[t] == c);
                let k = choose|k: int| 0 <= k < m && stands_at(#[trigger] s[k], plugin, c);
                assert(stands_at(s[k], plugin, c));
            } else {
                assert(stands_at(s[m as int], plugin, c));
            }
        }
        if exists|k: int| 0 <= k < n && stands_at(#[trigger] s[k], plugin, c) {
            let k = choose|k: int| 0 <= k < n && stands_at(#[trigger] s[k], plugin, c);
            if k < m {
                let t = choose|t: int| 0 <= t < before.len() && before[t] == c;
                assert(now[t] == c);
            } else {
                assert(now[before.len() as int] == c);
            }
        }
    }
}

/// Selecting a profile of a device leaves the selections of the other devices alone,
/// and a device that is new gets what is on disk, or else the default.
pub proof fn law_selection_of_other_devices(
    s: Seq<(Seq<char>, Seq<char>)>,
    device: Seq<char>,
    id: Seq<char>,
    on_disk: Option<Seq<char>>,
    default: Seq<char>,
    k: int,
)
    requires
        0 <= k < s.len(),
        s[k].0 != device,
    ensures
        with_selection(s, device, id)[k] == s[k],
        with_device(s, device, on_disk, default)[k] == s[k],
        !device_ids(s).contains(device) ==> ({
            let t = with_device(s, device, on_disk, default);
            &&& t.last().0 == device
            &&& on_disk matches Some(p) ==> t.last().1 == p
            &&& on_disk is None ==> t.last().1 == default
        }),
        device_ids(s).contains(device) ==> with_device(s, device, on_disk, default) == s,
{
    let ids = device_ids(s);
    text::lemma_first_index(ids, device);
    assert(ids[k] == s[k].0);
}

/// Settings that name a theme keep it; those that only say whether the theme is dark
/// get a dark one unless they say no.
pub proof fn law_theme_is_kept(theme: Seq<char>, dark: Option<bool>)
    ensures
        migrated_theme(Some(theme), dark) == theme,
        migrated_theme(None, Some(false)) == "river-light"@,
        migrated_theme(None, Some(true)) == "river-dark"@,
        migrated_theme(None, None) == "river-dark"@,
{
}

proof fn lemma_contains_either<T>(a: Seq<T>, b: Seq<T>, x: T)
    ensures
        (a + b).contains(x) <==> a.contains(x) || b.contains(x),
{
    if a.contains(x) {
        let i = choose|i: int| 0 <= i < a.len() && a[i] == x;
        assert((a + b)[i] == x);
    }
    if b.contains(x) {
        let i = choose|i: int| 0 <= i < b.len() && b[i] == x;
        assert((a + b)[a.len() + i] == x);
    }
    if (a + b).contains(x) {
        let i = choose|i: int| 0 <= i < (a + b).len() && (a + b)[i] == x;
        if i < a.len() {
            assert(a[i] == x);
        } else {
            assert(b[i - a.len()] == x);
        }
    }
}

/// The page holds an instance of `plugin` at the place `c`, on a key or an encoder.
pub open spec fn holds_at(p: PageView, plugin: Seq<char>, c: ActionContextView) -> bool {
    (exists|k: int| 0 <= k < p.keys.len() && stands_at(#[trigger] p.keys[k], plugin, c)) || (
    exists|k: int| 0 <= k < p.sliders.len() && stands_at(#[trigger] p.sliders[k], plugin, c))
}

/// The contexts that are listed for a plugin on some pages are those of its instances
/// on any of them, on keys and on encoders alike.
pub proof fn law_contexts_of_all_pages(
    p: Seq<PageView>,
    plugin: Seq<char>,
    n: nat,
    c: ActionContextView,
)
    requires
        n <= p.len(),
    ensures
        contexts_on_pages(p, plugin, n).contains(c) <==> exists|k: int|
            0 <= k < n && holds_at(#[trigger] p[k], plugin, c),
    decreases n,
{
    if n > 0 {
        let m = (n - 1) as nat;
        law_contexts_of_all_pages(p, plugin, m, c);
        let x = p[m as int];
        law_contexts_are_of_the_plugin(x.keys, plugin, x.keys.len(), c);
        law_contexts_are_of_the_plugin(x.sliders, plugin, x.sliders.len(), c);
        let a = contexts_on_pages(p, plugin, m);
        let b = contexts_in_slots(x.keys, plugin, x.keys.len());
        let d = contexts_in_slots(x.sliders, plugin, x.sliders.len());
        lemma_contains_either(a, b, c);
        lemma_contains_either(a + b, d, c);
        if b.contains(c) || d.contains(c) {
            assert(holds_at(p[m as int], plugin, c));
        }
        if a.contains(c) {
            let k = choose|k: int| 0 <= k < m && holds_at(#[trigger] p[k], plugin, c);
            assert(holds_at(p[k], plugin, c));
        }
        if exists|k: int| 0 <= k < n && holds_at(#[trigger] p[k], plugin, c) {
            let k = choose|k: int| 0 <= k < n && holds_at(#[trigger] p[k], plugin, c);
            if k < m {
                assert(a.contains(c));
            } else {
                assert(b.contains(c) || d.contains(c));
            }
        }
    }
}

/// The contexts that are listed for a plugin are those of its instances on the pages
/// of every profile in use.
pub proof fn law_contexts_of_all_profiles(
    s: Seq<(Seq<char>, ProfileView)>,
    plugin: Seq<char>,
    n: nat,
    c: ActionContextView,
)
    requires
        n <= s.len(),
    ensures
        contexts_in_stores(s, plugin, n).contains(c) <==> exists|j: int, k: int|
            #![trigger s[j].1.pages[k]]
            0 <= j < n && 0 <= k < s[j].1.pages.len() && holds_at(s[j].1.pages[k], plugin, c),
    decreases n,
{
    if n > 0 {
        let m = (n - 1) as nat;
        law_contexts_of_all_profiles(s, plugin, m, c);
        let pages = s[m as int].1.pages;
        law_contexts_of_all_pages(pages, plugin, pages.len(), c);
        let a = contexts_in_stores(s, plugin, m);
        let b = contexts_on_pages(pages, plugin, pages.len());
        lemma_contains_either(a, b, c);
        if b.contains(c) {
            let k = choose|k: int| 0 <= k < pages.len() && holds_at(#[trigger] pages[k], plugin, c);
            assert(holds_at(s[m as int].1.pages[k], plugin, c));
        }
        if a.contains(c) {
            let (j, k) = choose|j: int, k: int|
                #![trigger s[j].1.pages[k]]
                0 <= j < m && 0 <= k < s[j].1.pages.len() && holds_at(s[j].1.pages[k], plugin, c);
            assert(holds_at(s[j].1.pages[k], plugin, c));
        }
        if exists|j: int, k: int|
            #![trigger s[j].1.pages[k]]
            0 <= j < n && 0 <= k < s[j].1.pages.len() && holds_at(s[j].1.pages[k], plugin, c) {
            let (j, k) = choose|j: int, k: int|
                #![trigger s[j].1.pages[k]]
                0 <= j < n && 0 <= k < s[j].1.pages.len() && holds_at(s[j].1.pages[k], plugin, c);
            if j < m {
                assert(a.contains(c));
            } else {
                assert(holds_at(pages[k], plugin, c));
                assert(b.contains(c));
            }
        }
    }
}

/// A setting of the environment is on where it says `1`, `true`, `yes` or `on`, in any
/// case of its letters, and nowhere else.
#[verifier::rlimit(50)]
pub proof fn law_truthy_values(v: Seq<char>)
    ensures
        text::trimmed(v) == "1"@ ==> is_truthy(v),
        text::trimmed(v) == "true"@ || text::trimmed(v) == "True"@ ==> is_truthy(v),
        text::trimmed(v) == "yes"@ ==> is_truthy(v),
        text::trimmed(v) == "on"@ || text::trimmed(v) == "ON"@ ==> is_truthy(v),
        text::trimmed(v).len() == 0 || text::trimmed(v) == "0"@ ==> !is_truthy(v),
{
    reveal_strlit("0");
    reveal_strlit("1");
    reveal_strlit("true");
    reveal_strlit("True");
    reveal_strlit("yes");
    reveal_strlit("on");
    reveal_strlit("ON");
    assert(text::ascii_lowered("1"@) =~= "1"@);
    assert(text::ascii_lowered("true"@) =~= "true"@);
    assert(text::ascii_lowered("True"@) =~= "true"@);
    assert(text::ascii_lowered("yes"@) =~= "yes"@);
    assert(text::ascii_lowered("on"@) =~= "on"@);
    assert(text::ascii_lowered("ON"@) =~= "on"@);
    let t = text::ascii_lowered(text::trimmed(v));
    assert(t.len() == text::trimmed(v).len());
    if text::trimmed(v) == "0"@ {
        assert(t[0] == '0');
    }
}

} // verus!
