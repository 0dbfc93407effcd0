//! The profiles of a device on disk, and the migration of profiles named
//! `Page N` into the pages of one profile.
use vstd::prelude::*;
use crate::path;
use crate::profiles;
use crate::profiles::default_page;
use crate::relocate;
use crate::relocate::{
    page_images_dir, profile_images_dir, rewrite_page, selected_page_mut, ImageRoute, RouteView,
};
use crate::shared;
use crate::shared::{join, Page, PageView, Profile, ProfileView};
use crate::text;
use crate::text::{
    concat2, concat3, decimal_text, owned, parse_unsigned, same_text, starts_with, strip_prefix,
    strip_suffix, texts_contain,
};

verus! {

// ---------------------------------------------------------------------------
// Listing
// ---------------------------------------------------------------------------

/// An entry of a directory.
pub struct DirEntry {
    pub name: String,
    pub is_file: bool,
    pub is_dir: bool,
    /// The names of the files in it, where it is a directory.
    pub files: Vec<String>,
}

/// The model of a `DirEntry`.
pub struct DirEntryView {
    pub name: Seq<char>,
    pub is_file: bool,
    pub is_dir: bool,
    pub files: Seq<Seq<char>>,
}

impl View for DirEntry {
    type V = DirEntryView;

    open spec fn view(&self) -> DirEntryView {
        DirEntryView {
            name: self.name@,
            is_file: self.is_file,
            is_dir: self.is_dir,
            files: text::texts(self.files@),
        }
    }
}

/// The models of the entries of a directory.
pub open spec fn entries_view(s: Seq<DirEntry>) -> Seq<DirEntryView> {
    s.map_values(|e: DirEntry| e@)
}

/// The profile that a file holds: its name without `.json`, `.json.bak` or
/// `.json.temp`; `None` for any other file.
pub open spec fn profile_of_file(name: Seq<char>) -> Option<Seq<char>> {
    if ".json"@.is_suffix_of(name) {
        Some(name.take(name.len() - ".json"@.len()))
    } else if ".json.bak"@.is_suffix_of(name) {
        Some(name.take(name.len() - ".json.bak"@.len()))
    } else if ".json.temp"@.is_suffix_of(name) {
        Some(name.take(name.len() - ".json.temp"@.len()))
    } else {
        None
    }
}

/// The profile that a file holds.
pub fn profile_id_of_file(name: &str) -> (r: Option<String>)
    ensures
        text::opt_text(r) == profile_of_file(name@),
{
    let plain = strip_suffix(name, ".json");
    if plain.is_some() {
        return plain;
    }
    let backup = strip_suffix(name, ".json.bak");
    if backup.is_some() {
        return backup;
    }
    strip_suffix(name, ".json.temp")
}

/// The profiles among the first `n` files of the directory `dir`.
pub open spec fn profiles_in_dir(dir: Seq<char>, files: Seq<Seq<char>>, n: nat) -> Seq<Seq<char>>
    decreases n,
{
    if n == 0 || n > files.len() {
        Seq::empty()
    } else {
        let before = profiles_in_dir(dir, files, (n - 1) as nat);
        match profile_of_file(dir + "/"@ + files[n - 1]) {
            Some(id) => before.push(id),
            None => before,
        }
    }
}

/// The profiles among the first `n` entries.
pub open spec fn profiles_among(entries: Seq<DirEntryView>, n: nat) -> Seq<Seq<char>>
    decreases n,
{
    if n == 0 || n > entries.len() {
        Seq::empty()
    } else {
        let before = profiles_among(entries, (n - 1) as nat);
        let e = entries[n - 1];
        if e.is_file {
            match profile_of_file(e.name) {
                Some(id) => before.push(id),
                None => before,
            }
        } else if e.is_dir {
            before + profiles_in_dir(e.name, e.files, e.files.len())
        } else {
            before
        }
    }
}

/// The profiles in the directory of a device; `Default` where there are none.
pub open spec fn raw_profiles(entries: Seq<DirEntryView>) -> Seq<Seq<char>> {
    let found = profiles_among(entries, entries.len());
    if found.len() == 0 {
        seq!["Default"@]
    } else {
        found
    }
}

fn append_profiles_in_dir(out: &mut Vec<String>, entry: &DirEntry)
    ensures
        text::texts(final(out)@) == text::texts(old(out)@) + profiles_in_dir(
            entry.name@,
            entry@.files,
            entry@.files.len(),
        ),
{
    let ghost start = text::texts(out@);
    let ghost files = entry@.files;
    let mut i: usize = 0;
    assert(start + profiles_in_dir(entry.name@, files, 0) =~= start);
    while i < entry.files.len()
        invariant
            i <= entry.files@.len(),
            files == text::texts(entry.files@),
            text::texts(out@) == start + profiles_in_dir(entry.name@, files, i as nat),
        decreases entry.files@.len() - i,
    {
        assert(files[i as int] == entry.files@[i as int]@);
        let name = concat3(&entry.name, "/", &entry.files[i]);
        match profile_id_of_file(&name) {
            Some(id) => {
                let ghost before = out@;
                let ghost found = profiles_in_dir(entry.name@, files, i as nat);
                out.push(id);
                assert(text::texts(out@) =~= text::texts(before).push(id@));
                assert((start + found).push(id@) =~= start + found.push(id@));
            },
            None => {},
        }
        i = i + 1;
    }
}

/// The profiles in the directory of a device.
pub fn get_device_profiles_raw(entries: &Vec<DirEntry>) -> (r: Vec<String>)
    ensures
        text::texts(r@) == raw_profiles(entries_view(entries@)),
{
    let ghost all = entries_view(entries@);
    let mut out: Vec<String> = Vec::new();
    let mut i: usize = 0;
    assert(text::texts(out@) =~= Seq::<Seq<char>>::empty());
    while i < entries.len()
        invariant
            i <= entries@.len(),
            all == entries_view(entries@),
            text::texts(out@) == profiles_among(all, i as nat),
        decreases entries@.len() - i,
    {
        assert(all[i as int] == entries@[i as int]@);
        if entries[i].is_file {
            match profile_id_of_file(&entries[i].name) {
                Some(id) => {
                    let ghost before = out@;
                    out.push(id);
                    assert(text::texts(out@) =~= text::texts(before).push(id@));
                },
                None => {},
            }
        } else if entries[i].is_dir {
            append_profiles_in_dir(&mut out, &entries[i]);
        }
        i = i + 1;
    }
    assert(text::texts(out@).len() == out@.len());
    if out.len() == 0 {
        out.push(owned("Default"));
        assert(text::texts(out@) =~= seq!["Default"@]);
    }
    out
}

/// The ids among the first `n` that are no `Page ` profiles.
pub open spec fn without_pages(ids: Seq<Seq<char>>, n: nat) -> Seq<Seq<char>>
    decreases n,
{
    if n == 0 || n > ids.len() {
        Seq::empty()
    } else {
        let before = without_pages(ids, (n - 1) as nat);
        if "Page "@.is_prefix_of(ids[n - 1]) {
            before
        } else {
            before.push(ids[n - 1])
        }
    }
}

/// The profiles of a device, without those that are pages of others.
pub fn get_device_profiles(entries: &Vec<DirEntry>) -> (r: Vec<String>)
    ensures
        ({
            let raw = raw_profiles(entries_view(entries@));
            text::texts(r@) == without_pages(raw, raw.len())
        }),
{
    let all = get_device_profiles_raw(entries);
    let ghost raw = text::texts(all@);
    let mut out: Vec<String> = Vec::new();
    let mut i: usize = 0;
    assert(text::texts(out@) =~= Seq::<Seq<char>>::empty());
    while i < all.len()
        invariant
            i <= all@.len(),
            raw == text::texts(all@),
            text::texts(out@) == without_pages(raw, i as nat),
        decreases all@.len() - i,
    {
        assert(raw[i as int] == all@[i as int]@);
        if !starts_with(&all[i], "Page ") {
            let ghost before = out@;
            out.push(all[i].clone());
            assert(text::texts(out@) =~= text::texts(before).push(raw[i as int]));
        }
        i = i + 1;
    }
    out
}

/// The profiles of a device.
pub fn get_profiles(entries: &Vec<DirEntry>) -> (r: Vec<String>)
    ensures
        ({
            let raw = raw_profiles(entries_view(entries@));
            text::texts(r@) == without_pages(raw, raw.len())
        }),
{
    get_device_profiles(entries)
}

/// No profile of a device has an id that begins with `Page `.
pub proof fn law_no_page_profiles(ids: Seq<Seq<char>>, n: nat)
    requires
        n <= ids.len(),
    ensures
        forall|i: int|
            0 <= i < without_pages(ids, n).len() ==> !"Page "@.is_prefix_of(
                #[trigger] without_pages(ids, n)[i],
            ),
    decreases n,
{
    if n > 0 {
        law_no_page_profiles(ids, (n - 1) as nat);
        let before = without_pages(ids, (n - 1) as nat);
        let now = without_pages(ids, n);
        assert forall|i: int| 0 <= i < now.len() implies !"Page "@.is_prefix_of(
            #[trigger] now[i],
        ) by {
            if i < before.len() {
                assert(now[i] == before[i]);
            }
        }
    }
}

// ---------------------------------------------------------------------------
// Sources of pages
// ---------------------------------------------------------------------------

/// A profile that becomes a page.
pub struct PageSource {
    pub old_id: String,
    pub page: u32,
}

/// The models of sources: the id of the profile and the number of the page.
pub open spec fn sources_view(s: Seq<PageSource>) -> Seq<(Seq<char>, u32)> {
    s.map_values(|x: PageSource| (x.old_id@, x.page))
}

/// The number in an id of the form `Page N`.
pub open spec fn page_number(id: Seq<char>) -> Option<u32> {
    if "Page "@.is_prefix_of(id) {
        match text::parsed_unsigned(id.skip("Page "@.len() as int), u32::MAX as nat) {
            Some(n) => Some(n as u32),
            None => None,
        }
    } else {
        None
    }
}

/// The number in an id of the form `Page N`.
pub fn page_number_of(id: &str) -> (r: Option<u32>)
    ensures
        r == page_number(id@),
{
    match strip_prefix(id, "Page ") {
        Some(n) => match parse_unsigned(&n, u32::MAX as u64) {
            Some(k) => Some(k as u32),
            None => None,
        },
        None => None,
    }
}

/// `x` put behind the last of `s` whose number is not larger.
pub open spec fn inserted(s: Seq<(Seq<char>, u32)>, x: (Seq<char>, u32)) -> Seq<(Seq<char>, u32)>
    decreases s.len(),
{
    if s.len() == 0 || s.last().1 <= x.1 {
        s.push(x)
    } else {
        inserted(s.drop_last(), x).push(s.last())
    }
}

/// The sources among the first `n` profiles behind that of page 1, in the order
/// of their numbers, and of their place in the list where numbers are equal.
pub open spec fn sources_among(
    start: Seq<(Seq<char>, u32)>,
    ids: Seq<Seq<char>>,
    n: nat,
) -> Seq<(Seq<char>, u32)>
    decreases n,
{
    if n == 0 || n > ids.len() {
        start
    } else {
        let before = sources_among(start, ids, (n - 1) as nat);
        match page_number(ids[n - 1]) {
            Some(k) => inserted(before, (ids[n - 1], k)),
            None => before,
        }
    }
}

/// The profiles that become pages of one profile: `Default` as page 1, and
/// each `Page N` as page N.
pub open spec fn page_sources(ids: Seq<Seq<char>>) -> Seq<(Seq<char>, u32)> {
    sources_among(
        if ids.contains("Default"@) {
            seq![("Default"@, 1u32)]
        } else {
            Seq::empty()
        },
        ids,
        ids.len(),
    )
}

proof fn lemma_inserted_at(s: Seq<(Seq<char>, u32)>, x: (Seq<char>, u32), k: int)
    requires
        0 <= k <= s.len(),
        k > 0 ==> s[k - 1].1 <= x.1,
        forall|j: int| k <= j < s.len() ==> (#[trigger] s[j]).1 > x.1,
    ensures
        inserted(s, x) == s.insert(k, x),
    decreases s.len(),
{
    if k < s.len() {
        assert(s.last().1 > x.1);
        lemma_inserted_at(s.drop_last(), x, k);
        assert(s.drop_last().insert(k, x).push(s.last()) =~= s.insert(k, x));
    } else {
        assert(s.push(x) =~= s.insert(k, x));
    }
}

fn insert_source(out: &mut Vec<PageSource>, source: PageSource)
    ensures
        sources_view(final(out)@) == inserted(
            sources_view(old(out)@),
            (source.old_id@, source.page),
        ),
{
    let ghost models = sources_view(out@);
    let mut k: usize = out.len();
    while k > 0 && out[k - 1].page > source.page
        invariant
            k <= out@.len(),
            out@ == old(out)@,
            models == sources_view(out@),
            forall|j: int| k <= j < models.len() ==> (#[trigger] models[j]).1 > source.page,
        decreases k,
    {
        assert(models[k - 1].1 == out@[k - 1].page);
        k = k - 1;
    }
    proof {
        if k > 0 {
            assert(models[k - 1].1 == out@[k - 1].page);
        }
        lemma_inserted_at(models, (source.old_id@, source.page), k as int);
    }
    out.insert(k, source);
    assert(sources_view(out@) =~= models.insert(k as int, (source.old_id@, source.page)));
}

/// The profiles that become pages of one profile.
pub fn migration_sources(existing: &Vec<String>) -> (r: Vec<PageSource>)
    ensures
        sources_view(r@) == page_sources(text::texts(existing@)),
{
    let ghost ids = text::texts(existing@);
    let mut out: Vec<PageSource> = Vec::new();
    assert(sources_view(out@) =~= Seq::<(Seq<char>, u32)>::empty());
    if texts_contain(existing, "Default") {
        out.push(PageSource { old_id: owned("Default"), page: 1 });
        assert(sources_view(out@) =~= seq![("Default"@, 1u32)]);
    }
    let ghost start = sources_view(out@);
    let mut i: usize = 0;
    while i < existing.len()
        invariant
            i <= existing@.len(),
            ids == text::texts(existing@),
            sources_view(out@) == sources_among(start, ids, i as nat),
        decreases existing@.len() - i,
    {
        assert(ids[i as int] == existing@[i as int]@);
        match page_number_of(&existing[i]) {
            Some(page) => {
                insert_source(&mut out, PageSource { old_id: existing[i].clone(), page });
            },
            None => {},
        }
        i = i + 1;
    }
    out
}

/// The numbers of the sources do not fall.
pub open spec fn numbers_rise(s: Seq<(Seq<char>, u32)>) -> bool {
    forall|i: int, j: int| 0 <= i <= j < s.len() ==> (#[trigger] s[i]).1 <= (#[trigger] s[j]).1
}

proof fn lemma_inserted_rises(s: Seq<(Seq<char>, u32)>, x: (Seq<char>, u32))
    requires
        numbers_rise(s),
    ensures
        numbers_rise(inserted(s, x)),
        inserted(s, x).len() == s.len() + 1,
        inserted(s, x).last().1 == if s.len() > 0 && s.last().1 > x.1 {
            s.last().1
        } else {
            x.1
        },
    decreases s.len(),
{
    if s.len() > 0 && s.last().1 > x.1 {
        assert(numbers_rise(s.drop_last())) by {
            assert forall|i: int, j: int|
                0 <= i <= j < s.drop_last().len() implies (#[trigger] s.drop_last()[i]).1 <= (
            #[trigger] s.drop_last()[j]).1 by {
                assert(s[i].1 <= s[j].1);
            }
        }
        lemma_inserted_rises(s.drop_last(), x);
        let t = inserted(s.drop_last(), x);
        let r = t.push(s.last());
        assert(t.last().1 <= s.last().1) by {
            if s.drop_last().len() > 0 {
                assert(s[s.len() - 2].1 <= s[s.len() - 1].1);
            }
        }
        assert forall|i: int, j: int| 0 <= i <= j < r.len() implies (#[trigger] r[i]).1 <= (
        #[trigger] r[j]).1 by {
            if j == r.len() - 1 && i < j {
                assert(t[i].1 <= t[t.len() - 1].1);
            }
        }
    } else {
        let r = s.push(x);
        assert forall|i: int, j: int| 0 <= i <= j < r.len() implies (#[trigger] r[i]).1 <= (
        #[trigger] r[j]).1 by {
            if j == s.len() && i < j {
                assert(s[i].1 <= s[s.len() - 1].1);
            }
        }
    }
}

proof fn lemma_sources_rise(start: Seq<(Seq<char>, u32)>, ids: Seq<Seq<char>>, n: nat)
    requires
        numbers_rise(start),
    ensures
        numbers_rise(sources_among(start, ids, n)),
    decreases n,
{
    if n > 0 && n <= ids.len() {
        lemma_sources_rise(start, ids, (n - 1) as nat);
        match page_number(ids[n - 1]) {
            Some(k) => {
                lemma_inserted_rises(
                    sources_among(start, ids, (n - 1) as nat),
                    (ids[n - 1], k),
                );
            },
            None => {},
        }
    }
}

/// The pages of a migrated profile come in the order of their numbers.
pub proof fn law_sources_in_order(ids: Seq<Seq<char>>)
    ensures
        numbers_rise(page_sources(ids)),
{
    let start = if ids.contains("Default"@) {
        seq![("Default"@, 1u32)]
    } else {
        Seq::empty()
    };
    lemma_sources_rise(start, ids, ids.len());
}

// ---------------------------------------------------------------------------
// Grouping
// ---------------------------------------------------------------------------

/// How the images of a profile move that becomes the page `page` of `Default`.
/// What lies below that page already stays there.
pub open spec fn grouped_route(
    old_id: Seq<char>,
    page: Seq<char>,
    config_dir: Seq<char>,
    device: Seq<char>,
) -> RouteView {
    let new = relocate::page_images(config_dir, device, "Default"@, page);
    RouteView {
        old: relocate::profile_images(config_dir, device, old_id),
        new,
        kept: seq![new],
    }
}

/// The page that a profile becomes: the page it shows, under the new number,
/// with its instances and images relocated.
pub open spec fn grouped_page(
    p: ProfileView,
    source: (Seq<char>, u32),
    config_dir: Seq<char>,
    device: Seq<char>,
) -> PageView {
    let whole = relocate::with_selection(p);
    let id = text::decimal(source.1 as nat);
    relocate::relocated_page(
        PageView { id, ..whole.pages[relocate::shown_index(whole)] },
        "Default"@,
        Some(id),
        grouped_route(source.0, id, config_dir, device),
    )
}

/// The profile `Default` whose pages the `sources` become. `selected` is the
/// profile that was selected before.
pub open spec fn grouped_profile(
    profiles: Seq<ProfileView>,
    sources: Seq<(Seq<char>, u32)>,
    selected: Seq<char>,
    config_dir: Seq<char>,
    device: Seq<char>,
) -> ProfileView {
    ProfileView {
        id: "Default"@,
        pages: Seq::new(
            sources.len(),
            |i: int| grouped_page(profiles[i], sources[i], config_dir, device),
        ),
        selected_page: match page_number(selected) {
            Some(n) => text::decimal(n as nat),
            None => "1"@,
        },
    }
}

/// The profile that is selected after the migration.
pub open spec fn selected_after(selected: Seq<char>) -> Seq<char> {
    if page_number(selected) is Some {
        "Default"@
    } else {
        selected
    }
}

/// The models of profiles.
pub open spec fn profiles_view(s: Seq<Profile>) -> Seq<ProfileView> {
    s.map_values(|p: Profile| p@)
}

fn group_page(profile: &mut Profile, source: &PageSource, config_dir: &str, device: &str) -> (r: Page)
    ensures
        r@ == grouped_page(
            old(profile)@,
            (source.old_id@, source.page),
            config_dir@,
            device@,
        ),
{
    let id = decimal_text(source.page as u64);
    let mut kept: Vec<String> = Vec::new();
    kept.push(page_images_dir(config_dir, device, "Default", &id));
    let route = ImageRoute {
        old: profile_images_dir(config_dir, device, &source.old_id),
        new: page_images_dir(config_dir, device, "Default", &id),
        kept,
    };
    assert(route@.kept =~= seq![route@.new]);
    let mut page = selected_page_mut(profile).copy();
    page.id = id.clone();
    rewrite_page(&page, "Default", Some(id.as_str()), &route)
}

/// Groups the profiles of `sources`, which `profiles` holds in the same order,
/// as pages of one profile. Also returns the profile that is then selected.
pub fn group_profiles(
    sources: &Vec<PageSource>,
    profiles: Vec<Profile>,
    selected: &str,
    config_dir: &str,
    device: &str,
) -> (r: (Profile, String))
    requires
        profiles@.len() == sources@.len(),
    ensures
        r.0@ == grouped_profile(
            profiles_view(profiles@),
            sources_view(sources@),
            selected@,
            config_dir@,
            device@,
        ),
        r.1@ == selected_after(selected@),
{
    let ghost before = profiles@;
    let mut profiles = profiles;
    let mut pages: Vec<Page> = Vec::new();
    let mut i: usize = 0;
    while i < sources.len()
        invariant
            i <= sources@.len(),
            profiles@.len() == sources@.len(),
            before.len() == sources@.len(),
            pages@.len() == i,
            forall|k: int| i <= k < before.len() ==> #[trigger] profiles@[k] == before[k],
            forall|k: int|
                0 <= k < i ==> (#[trigger] pages@[k])@ == grouped_page(
                    before[k]@,
                    (sources@[k].old_id@, sources@[k].page),
                    config_dir@,
                    device@,
                ),
        decreases sources@.len() - i,
    {
        assert(profiles@[i as int] == before[i as int]);
        let page = group_page(&mut profiles[i], &sources[i], config_dir, device);
        pages.push(page);
        i = i + 1;
    }
    let mut selected_page = owned("1");
    let mut selected_profile = owned(selected);
    match page_number_of(selected) {
        Some(n) => {
            selected_page = decimal_text(n as u64);
            selected_profile = owned("Default");
        },
        None => {},
    }
    let grouped = Profile { id: owned("Default"), pages, selected_page };
    assert(grouped@.pages =~= grouped_profile(
        profiles_view(before),
        sources_view(sources@),
        selected@,
        config_dir@,
        device@,
    ).pages);
    (grouped, selected_profile)
}

/// How the images of a profile that becomes a page are moved.
pub struct ImageMove {
    pub from: String,
    pub to: String,
    /// Whether only the contents of `from` move, not `from` itself.
    pub contents_only: bool,
    /// The entries of `from` that stay where they are.
    pub except: Vec<String>,
}

/// The model of an `ImageMove`.
pub struct MoveView {
    pub from: Seq<char>,
    pub to: Seq<char>,
    pub contents_only: bool,
    pub except: Seq<Seq<char>>,
}

impl View for ImageMove {
    type V = MoveView;

    open spec fn view(&self) -> MoveView {
        MoveView {
            from: self.from@,
            to: self.to@,
            contents_only: self.contents_only,
            except: text::texts(self.except@),
        }
    }
}

/// How the images of a source are moved: those of `Default` into a directory
/// below their own, those of another profile with their directory.
pub open spec fn source_move(
    source: (Seq<char>, u32),
    config_dir: Seq<char>,
    device: Seq<char>,
) -> MoveView {
    MoveView {
        from: relocate::profile_images(config_dir, device, source.0),
        to: relocate::page_images(
            config_dir,
            device,
            "Default"@,
            text::decimal(source.1 as nat),
        ),
        contents_only: source.0 == "Default"@,
        except: Seq::empty(),
    }
}

/// How the images of a source are moved.
pub fn image_move(source: &PageSource, config_dir: &str, device: &str) -> (r: ImageMove)
    ensures
        r@ == source_move((source.old_id@, source.page), config_dir@, device@),
{
    let id = decimal_text(source.page as u64);
    let r = ImageMove {
        from: profile_images_dir(config_dir, device, &source.old_id),
        to: page_images_dir(config_dir, device, "Default", &id),
        contents_only: same_text(&source.old_id, "Default"),
        except: Vec::new(),
    };
    assert(r@.except =~= Seq::<Seq<char>>::empty());
    r
}

/// The ids of pages that name a directory.
pub open spec fn page_names(pages: Seq<PageView>, n: nat) -> Seq<Seq<char>>
    decreases n,
{
    if n == 0 || n > pages.len() {
        Seq::empty()
    } else {
        let before = page_names(pages, (n - 1) as nat);
        if pages[n - 1].id.len() == 0 {
            before
        } else {
            before.push(pages[n - 1].id)
        }
    }
}

fn names_of_pages(pages: &Vec<Page>) -> (r: Vec<String>)
    ensures
        text::texts(r@) == page_names(shared::pages_view(pages@), pages@.len()),
{
    let ghost models = shared::pages_view(pages@);
    let mut out: Vec<String> = Vec::new();
    let mut i: usize = 0;
    assert(text::texts(out@) =~= Seq::<Seq<char>>::empty());
    while i < pages.len()
        invariant
            i <= pages@.len(),
            models == shared::pages_view(pages@),
            text::texts(out@) == page_names(models, i as nat),
        decreases pages@.len() - i,
    {
        assert(models[i as int] == pages@[i as int]@);
        if !pages[i].id.as_str().is_empty() {
            let ghost before = out@;
            let id = pages[i].id.clone();
            out.push(id);
            assert(text::texts(out@) =~= text::texts(before).push(id@));
        }
        i = i + 1;
    }
    out
}

/// How the images of a profile move below its first page: all that lies in the
/// profile's directory, but for the directories of its pages.
pub open spec fn first_move(
    pages: Seq<PageView>,
    id: Seq<char>,
    config_dir: Seq<char>,
    device: Seq<char>,
) -> MoveView {
    MoveView {
        from: relocate::profile_images(config_dir, device, id),
        to: relocate::page_images(config_dir, device, id, "1"@),
        contents_only: true,
        except: page_names(pages, pages.len()),
    }
}

/// How the images of a profile move below its first page.
pub fn first_page_move(profile: &Profile, id: &str, config_dir: &str, device: &str) -> (r:
    ImageMove)
    ensures
        r@ == first_move(profile@.pages, id@, config_dir@, device@),
{
    ImageMove {
        from: profile_images_dir(config_dir, device, id),
        to: page_images_dir(config_dir, device, id, "1"),
        contents_only: true,
        except: names_of_pages(&profile.pages),
    }
}

/// Whether the images of a profile move below its first page: the profile has a
/// directory, `from_is_dir`, and the page has none, `to_exists`.
pub fn makes_first_page_move(from_is_dir: bool, to_exists: bool) -> (r: bool)
    ensures
        r == (from_is_dir && !to_exists),
{
    from_is_dir && !to_exists
}

/// The file of a profile.
pub open spec fn profile_path(config_dir: Seq<char>, device: Seq<char>, id: Seq<char>) -> Seq<
    char,
> {
    shared::joined(
        shared::joined(shared::joined(config_dir, "profiles"@), device),
        id + ".json"@,
    )
}

/// The file of a profile.
pub fn profile_file(config_dir: &str, device: &str, id: &str) -> (r: String)
    ensures
        r@ == profile_path(config_dir@, device@, id@),
{
    let all = join(config_dir, "profiles");
    let of_device = join(&all, device);
    let name = concat2(id, ".json");
    join(&of_device, &name)
}

/// The files of the sources among the first `n` that the migration removes.
pub open spec fn removed_files(
    sources: Seq<(Seq<char>, u32)>,
    n: nat,
    config_dir: Seq<char>,
    device: Seq<char>,
) -> Seq<Seq<char>>
    decreases n,
{
    if n == 0 || n > sources.len() {
        Seq::empty()
    } else {
        let before = removed_files(sources, (n - 1) as nat, config_dir, device);
        let id = sources[n - 1].0;
        if id != "Default"@ && "Page "@.is_prefix_of(id) {
            before.push(profile_path(config_dir, device, id))
        } else {
            before
        }
    }
}

/// The files of the profiles that became pages and are no longer needed.
pub fn files_to_remove(sources: &Vec<PageSource>, config_dir: &str, device: &str) -> (r: Vec<
    String,
>)
    ensures
        text::texts(r@) == removed_files(
            sources_view(sources@),
            sources@.len(),
            config_dir@,
            device@,
        ),
{
    let ghost models = sources_view(sources@);
    let mut out: Vec<String> = Vec::new();
    let mut i: usize = 0;
    assert(text::texts(out@) =~= Seq::<Seq<char>>::empty());
    while i < sources.len()
        invariant
            i <= sources@.len(),
            models == sources_view(sources@),
            text::texts(out@) == removed_files(models, i as nat, config_dir@, device@),
        decreases sources@.len() - i,
    {
        assert(models[i as int].0 == sources@[i as int].old_id@);
        if !same_text(&sources[i].old_id, "Default") && starts_with(&sources[i].old_id, "Page ") {
            let ghost before = out@;
            let file = profile_file(config_dir, device, &sources[i].old_id);
            out.push(file);
            assert(text::texts(out@) =~= text::texts(before).push(file@));
        }
        i = i + 1;
    }
    out
}

/// The pages of a profile as they are stored after the migration: there is one,
/// and a single one is page 1.
pub open spec fn numbered_pages(p: ProfileView) -> Seq<PageView> {
    if p.pages.len() == 0 {
        seq![profiles::blank_page("1"@)]
    } else if p.pages.len() == 1 {
        seq![(PageView { id: "1"@, ..p.pages[0] })]
    } else {
        p.pages
    }
}

/// The directories of the images of page 1 and of the pages given.
pub open spec fn page_dirs(
    pages: Seq<PageView>,
    id: Seq<char>,
    config_dir: Seq<char>,
    device: Seq<char>,
) -> Seq<Seq<char>> {
    (seq!["1"@] + page_names(pages, pages.len())).map_values(
        |name: Seq<char>| relocate::page_images(config_dir, device, id, name),
    )
}

/// How the images of a profile move below its first page. What lies below one of
/// its pages already stays there.
pub open spec fn normal_route(
    pages: Seq<PageView>,
    id: Seq<char>,
    config_dir: Seq<char>,
    device: Seq<char>,
) -> RouteView {
    RouteView {
        old: relocate::profile_images(config_dir, device, id),
        new: relocate::page_images(config_dir, device, id, "1"@),
        kept: page_dirs(pages, id, config_dir, device),
    }
}

fn make_normal_route(pages: &Vec<Page>, id: &str, config_dir: &str, device: &str) -> (r: ImageRoute)
    ensures
        r@ == normal_route(shared::pages_view(pages@), id@, config_dir@, device@),
{
    let ghost models = shared::pages_view(pages@);
    let names = names_of_pages(pages);
    let ghost all = text::texts(names@);
    let mut kept: Vec<String> = Vec::new();
    kept.push(page_images_dir(config_dir, device, id, "1"));
    let mut i: usize = 0;
    while i < names.len()
        invariant
            i <= names@.len(),
            all == text::texts(names@),
            kept@.len() == i + 1,
            kept@[0]@ == relocate::page_images(config_dir@, device@, id@, "1"@),
            forall|k: int|
                1 <= k <= i ==> (#[trigger] kept@[k])@ == relocate::page_images(
                    config_dir@,
                    device@,
                    id@,
                    all[k - 1],
                ),
        decreases names@.len() - i,
    {
        assert(all[i as int] == names@[i as int]@);
        kept.push(page_images_dir(config_dir, device, id, &names[i]));
        i = i + 1;
    }
    let r = ImageRoute {
        old: profile_images_dir(config_dir, device, id),
        new: page_images_dir(config_dir, device, id, "1"),
        kept,
    };
    assert(r@.kept =~= page_dirs(models, id@, config_dir@, device@));
    r
}

/// A profile as it is stored after the migration: it has a page, a single page
/// is page 1, and the images that lay in the profile's own directory lie below
/// page 1.
pub open spec fn normalized_profile(
    p: ProfileView,
    id: Seq<char>,
    config_dir: Seq<char>,
    device: Seq<char>,
) -> ProfileView {
    let pages = numbered_pages(p);
    ProfileView {
        id: p.id,
        pages: pages.map_values(
            |x: PageView|
                relocate::relocated_page(
                    x,
                    id,
                    Some(x.id),
                    normal_route(pages, id, config_dir, device),
                ),
        ),
        selected_page: if pages.len() == 1 {
            "1"@
        } else {
            p.selected_page
        },
    }
}

/// Brings a profile into the form in which it is stored after the migration.
pub fn normalize_profile(profile: &mut Profile, id: &str, config_dir: &str, device: &str)
    ensures
        final(profile)@ == normalized_profile(old(profile)@, id@, config_dir@, device@),
{
    if profile.pages.len() == 0 {
        profile.pages.push(default_page());
    }
    let ghost pages = shared::pages_view(profile.pages@);
    if profile.pages.len() == 1 {
        profile.pages[0].id = owned("1");
        profile.selected_page = owned("1");
        assert(shared::pages_view(profile.pages@) =~= seq![(PageView { id: "1"@, ..pages[0] })]);
    }
    let ghost numbered = shared::pages_view(profile.pages@);
    assert(numbered =~= numbered_pages(old(profile)@));
    let route = make_normal_route(&profile.pages, id, config_dir, device);
    let mut out: Vec<Page> = Vec::new();
    let mut i: usize = 0;
    while i < profile.pages.len()
        invariant
            i <= profile.pages@.len(),
            numbered == shared::pages_view(profile.pages@),
            out@.len() == i,
            forall|k: int|
                0 <= k < i ==> (#[trigger] out@[k])@ == relocate::relocated_page(
                    numbered[k],
                    id@,
                    Some(numbered[k].id),
                    route@,
                ),
        decreases profile.pages@.len() - i,
    {
        assert(numbered[i as int] == profile.pages@[i as int]@);
        let page = rewrite_page(
            &profile.pages[i],
            id,
            Some(profile.pages[i].id.as_str()),
            &route,
        );
        out.push(page);
        i = i + 1;
    }
    profile.pages = out;
    assert(profile@.pages =~= normalized_profile(old(profile)@, id@, config_dir@, device@).pages);
}

/// An image of the profile `p` that lies below one of its pages already, or not
/// in the directory of its images at all.
pub open spec fn stays_put(
    image: Seq<char>,
    p: ProfileView,
    id: Seq<char>,
    config_dir: Seq<char>,
    device: Seq<char>,
) -> bool {
    ||| path::relative_path(
        text::trimmed(image),
        relocate::profile_images(config_dir, device, id),
    ) is None
    ||| relocate::lies_in(image, page_dirs(numbered_pages(p), id, config_dir, device))
}

/// When a profile is brought into its stored form, the images that lie below one
/// of its pages already, and those that do not lie in the directory of its
/// images, stay as they are: those of states on keys and encoders, and the
/// backgrounds of pages.
pub proof fn law_images_elsewhere_stay(
    p: ProfileView,
    id: Seq<char>,
    config_dir: Seq<char>,
    device: Seq<char>,
)
    requires
        p.pages.len() > 0,
    ensures
        ({
            let r = normalized_profile(p, id, config_dir, device);
            &&& r.pages.len() == p.pages.len()
            &&& forall|i: int|
                0 <= i < p.pages.len() && (#[trigger] p.pages[i]).encoder_screen_background is Some
                    && stays_put(
                    p.pages[i].encoder_screen_background->0,
                    p,
                    id,
                    config_dir,
                    device,
                ) ==> r.pages[i].encoder_screen_background
                    == p.pages[i].encoder_screen_background
            &&& forall|i: int, j: int, k: int|
                #![trigger p.pages[i].keys[j]->0.states[k]]
                0 <= i < p.pages.len() && 0 <= j < p.pages[i].keys.len() && p.pages[i].keys[j]
                    is Some && 0 <= k < p.pages[i].keys[j]->0.states.len() && stays_put(
                    p.pages[i].keys[j]->0.states[k].image,
                    p,
                    id,
                    config_dir,
                    device,
                ) ==> r.pages[i].keys[j]->0.states[k] == p.pages[i].keys[j]->0.states[k]
            &&& forall|i: int, j: int, k: int|
                #![trigger p.pages[i].sliders[j]->0.states[k]]
                0 <= i < p.pages.len() && 0 <= j < p.pages[i].sliders.len()
                    && p.pages[i].sliders[j] is Some && 0 <= k
                    < p.pages[i].sliders[j]->0.states.len() && stays_put(
                    p.pages[i].sliders[j]->0.states[k].image,
                    p,
                    id,
                    config_dir,
                    device,
                ) ==> r.pages[i].sliders[j]->0.states[k] == p.pages[i].sliders[j]->0.states[k]
        }),
{
}

proof fn lemma_joined_begins(dir: Seq<char>, name: Seq<char>)
    requires
        dir.len() > 0,
        !text::is_white_space(dir[0]),
    ensures
        shared::joined(dir, name).len() > 0,
        !text::is_white_space(shared::joined(dir, name)[0]),
{
}

proof fn lemma_normal_route_settles(
    pages: Seq<PageView>,
    id: Seq<char>,
    config_dir: Seq<char>,
    device: Seq<char>,
)
    requires
        config_dir.len() > 0,
        !text::is_white_space(config_dir[0]),
    ensures
        relocate::settles(normal_route(pages, id, config_dir, device)),
{
    reveal_strlit("1");
    let images = shared::joined(config_dir, "images"@);
    lemma_joined_begins(config_dir, "images"@);
    let of_device = shared::joined(images, device);
    lemma_joined_begins(images, device);
    let old = relocate::profile_images(config_dir, device, id);
    lemma_joined_begins(of_device, id);
    lemma_joined_begins(old, "1"@);
    let r = normal_route(pages, id, config_dir, device);
    assert(r.new.last() == '1');
    assert(r.kept[0] == r.new);
}

proof fn lemma_names_agree(a: Seq<PageView>, b: Seq<PageView>, n: nat)
    requires
        a.len() == b.len(),
        forall|k: int| 0 <= k < a.len() ==> (#[trigger] a[k]).id == b[k].id,
    ensures
        page_names(a, n) == page_names(b, n),
    decreases n,
{
    if n > 0 && n <= a.len() {
        assert(a[n - 1].id == b[n - 1].id);
        lemma_names_agree(a, b, (n - 1) as nat);
    }
}

/// A profile in its stored form is left as it is when it is brought into that
/// form again: its images, once below its pages, stay there.
pub proof fn law_normalized_once(
    p: ProfileView,
    id: Seq<char>,
    config_dir: Seq<char>,
    device: Seq<char>,
)
    requires
        config_dir.len() > 0,
        !text::is_white_space(config_dir[0]),
    ensures
        ({
            let once = normalized_profile(p, id, config_dir, device);
            normalized_profile(once, id, config_dir, device) == once
        }),
{
    let pages = numbered_pages(p);
    let route = normal_route(pages, id, config_dir, device);
    let once = normalized_profile(p, id, config_dir, device);
    let twice = normalized_profile(once, id, config_dir, device);
    lemma_normal_route_settles(pages, id, config_dir, device);
    assert(numbered_pages(once) =~= once.pages);
    lemma_names_agree(once.pages, pages, pages.len());
    assert(normal_route(once.pages, id, config_dir, device) == route);
    assert forall|k: int| 0 <= k < pages.len() implies twice.pages[k] == once.pages[k] by {
        relocate::law_relocated_once(pages[k], id, Some(pages[k].id), route);
    }
    assert(twice.pages =~= once.pages);
}

// ---------------------------------------------------------------------------
// The migration as a whole
// ---------------------------------------------------------------------------

/// The profiles that become pages of one profile. `None` where nothing is
/// grouped: the migration has been made before, or there are no two of them.
pub fn migration_plan(marker_exists: bool, existing: &Vec<String>) -> (r: Option<Vec<PageSource>>)
    ensures
        r is None <==> marker_exists || page_sources(text::texts(existing@)).len() < 2,
        r matches Some(v) ==> sources_view(v@) == page_sources(text::texts(existing@)),
{
    if marker_exists {
        return None;
    }
    let sources = migration_sources(existing);
    assert(sources_view(sources@).len() == sources@.len());
    if sources.len() < 2 {
        None
    } else {
        Some(sources)
    }
}

/// A profile under the name of its file.
pub struct NamedProfile {
    pub name: String,
    pub profile: Profile,
}

/// The models of named profiles.
pub open spec fn named_view(s: Seq<NamedProfile>) -> Seq<(Seq<char>, ProfileView)> {
    s.map_values(|x: NamedProfile| (x.name@, x.profile@))
}

/// The names of profiles.
pub open spec fn names_of(s: Seq<(Seq<char>, ProfileView)>) -> Seq<Seq<char>> {
    s.map_values(|x: (Seq<char>, ProfileView)| x.0)
}

/// The profile of a name; a new one where there is none.
pub open spec fn profile_named(s: Seq<(Seq<char>, ProfileView)>, name: Seq<char>) -> ProfileView {
    if names_of(s).contains(name) {
        s[text::first_index(names_of(s), name)].1
    } else {
        profiles::fresh_profile(name)
    }
}

/// The profiles among the first `n` that stay: those that are no pages, without
/// `Default` where it is made anew.
pub open spec fn kept_profiles(s: Seq<(Seq<char>, ProfileView)>, n: nat, groups: bool) -> Seq<
    (Seq<char>, ProfileView),
>
    decreases n,
{
    if n == 0 || n > s.len() {
        Seq::empty()
    } else {
        let before = kept_profiles(s, (n - 1) as nat, groups);
        let name = s[n - 1].0;
        if "Page "@.is_prefix_of(name) || (groups && name == "Default"@) {
            before
        } else {
            before.push(s[n - 1])
        }
    }
}

/// The profiles of a device after the migration.
pub open spec fn migrated_profiles(
    s: Seq<(Seq<char>, ProfileView)>,
    selected: Seq<char>,
    config_dir: Seq<char>,
    device: Seq<char>,
) -> Seq<(Seq<char>, ProfileView)> {
    let sources = page_sources(names_of(s));
    let groups = sources.len() >= 2;
    let kept = kept_profiles(s, s.len(), groups);
    let all = if groups {
        let read = sources.map_values(|x: (Seq<char>, u32)| profile_named(s, x.0));
        seq![("Default"@, grouped_profile(read, sources, selected, config_dir, device))] + kept
    } else {
        kept
    };
    all.map_values(
        |x: (Seq<char>, ProfileView)| (x.0, normalized_profile(x.1, x.0, config_dir, device)),
    )
}

/// What the migration of a device comes to.
pub struct Migration {
    /// The profiles that are stored.
    pub profiles: Vec<NamedProfile>,
    /// The profile that is then selected.
    pub selected: String,
    /// How the images of profiles that became pages move.
    pub moves: Vec<ImageMove>,
    /// The files that are removed.
    pub removed: Vec<String>,
}

/// The model of a `Migration`.
pub struct MigrationView {
    pub profiles: Seq<(Seq<char>, ProfileView)>,
    pub selected: Seq<char>,
    pub moves: Seq<MoveView>,
    pub removed: Seq<Seq<char>>,
}

/// The models of moves.
pub open spec fn moves_view(s: Seq<ImageMove>) -> Seq<MoveView> {
    s.map_values(|m: ImageMove| m@)
}

impl View for Migration {
    type V = MigrationView;

    open spec fn view(&self) -> MigrationView {
        MigrationView {
            profiles: named_view(self.profiles@),
            selected: self.selected@,
            moves: moves_view(self.moves@),
            removed: text::texts(self.removed@),
        }
    }
}

/// What the migration of a device comes to; `None` where it has been made before.
pub open spec fn migration_of(
    marker_exists: bool,
    s: Seq<(Seq<char>, ProfileView)>,
    selected: Seq<char>,
    config_dir: Seq<char>,
    device: Seq<char>,
) -> Option<MigrationView> {
    let sources = page_sources(names_of(s));
    if marker_exists {
        None
    } else if sources.len() < 2 {
        Some(
            MigrationView {
                profiles: migrated_profiles(s, selected, config_dir, device),
                selected,
                moves: Seq::empty(),
                removed: Seq::empty(),
            },
        )
    } else {
        Some(
            MigrationView {
                profiles: migrated_profiles(s, selected, config_dir, device),
                selected: selected_after(selected),
                moves: sources.map_values(
                    |x: (Seq<char>, u32)| source_move(x, config_dir, device),
                ),
                removed: removed_files(sources, sources.len(), config_dir, device),
            },
        )
    }
}

fn copy_profile(p: &Profile) -> (r: Profile)
    ensures
        r@ == p@,
{
    let mut pages: Vec<Page> = Vec::new();
    let mut i: usize = 0;
    while i < p.pages.len()
        invariant
            i <= p.pages@.len(),
            pages@.len() == i,
            forall|k: int| 0 <= k < i ==> (#[trigger] pages@[k])@ == p.pages@[k]@,
        decreases p.pages@.len() - i,
    {
        pages.push(p.pages[i].copy());
        i = i + 1;
    }
    assert(shared::pages_view(pages@) =~= shared::pages_view(p.pages@));
    Profile { id: p.id.clone(), pages, selected_page: p.selected_page.clone() }
}

fn find_profile(s: &Vec<NamedProfile>, name: &str) -> (r: Profile)
    ensures
        r@ == profile_named(named_view(s@), name@),
{
    let ghost names = names_of(named_view(s@));
    let mut i: usize = 0;
    while i < s.len()
        invariant
            i <= s@.len(),
            names == names_of(named_view(s@)),
            forall|k: int| 0 <= k < i ==> (#[trigger] names[k]) != name@,
        decreases s@.len() - i,
    {
        assert(names[i as int] == s@[i as int].name@);
        if same_text(&s[i].name, name) {
            proof {
                text::lemma_first_index_is(names, name@, i as int);
                assert(named_view(s@)[i as int].1 == s@[i as int].profile@);
            }
            return copy_profile(&s[i].profile);
        }
        i = i + 1;
    }
    assert(!names.contains(name@));
    profiles::new_profile(name)
}

fn names(s: &Vec<NamedProfile>) -> (r: Vec<String>)
    ensures
        text::texts(r@) == names_of(named_view(s@)),
{
    let mut out: Vec<String> = Vec::new();
    let mut i: usize = 0;
    while i < s.len()
        invariant
            i <= s@.len(),
            out@.len() == i,
            forall|k: int| 0 <= k < i ==> (#[trigger] out@[k])@ == s@[k].name@,
        decreases s@.len() - i,
    {
        out.push(s[i].name.clone());
        i = i + 1;
    }
    assert(text::texts(out@) =~= names_of(named_view(s@)));
    out
}

fn keep_profiles(s: &Vec<NamedProfile>, groups: bool) -> (r: Vec<NamedProfile>)
    ensures
        named_view(r@) == kept_profiles(named_view(s@), s@.len(), groups),
{
    let ghost all = named_view(s@);
    let mut out: Vec<NamedProfile> = Vec::new();
    let mut i: usize = 0;
    assert(named_view(out@) =~= Seq::<(Seq<char>, ProfileView)>::empty());
    while i < s.len()
        invariant
            i <= s@.len(),
            all == named_view(s@),
            named_view(out@) == kept_profiles(all, i as nat, groups),
        decreases s@.len() - i,
    {
        assert(all[i as int] == (s@[i as int].name@, s@[i as int].profile@));
        if !(starts_with(&s[i].name, "Page ") || (groups && same_text(&s[i].name, "Default"))) {
            let ghost before = out@;
            let kept = NamedProfile {
                name: s[i].name.clone(),
                profile: copy_profile(&s[i].profile),
            };
            out.push(kept);
            assert(named_view(out@) =~= named_view(before).push(all[i as int]));
        }
        i = i + 1;
    }
    out
}

fn normalize_all(s: Vec<NamedProfile>, config_dir: &str, device: &str) -> (r: Vec<NamedProfile>)
    ensures
        named_view(r@) == named_view(s@).map_values(
            |x: (Seq<char>, ProfileView)|
                (x.0, normalized_profile(x.1, x.0, config_dir@, device@)),
        ),
{
    let mut out: Vec<NamedProfile> = Vec::new();
    let mut i: usize = 0;
    while i < s.len()
        invariant
            i <= s@.len(),
            out@.len() == i,
            forall|k: int|
                0 <= k < i ==> (#[trigger] out@[k]).name@ == s@[k].name@ && out@[k].profile@
                    == normalized_profile(s@[k].profile@, s@[k].name@, config_dir@, device@),
        decreases s@.len() - i,
    {
        let mut profile = copy_profile(&s[i].profile);
        normalize_profile(&mut profile, &s[i].name, config_dir, device);
        out.push(NamedProfile { name: s[i].name.clone(), profile });
        i = i + 1;
    }
    assert(named_view(out@) =~= named_view(s@).map_values(
        |x: (Seq<char>, ProfileView)| (x.0, normalized_profile(x.1, x.0, config_dir@, device@)),
    ));
    out
}

fn group_named(
    profiles: &Vec<NamedProfile>,
    sources: &Vec<PageSource>,
    selected: &str,
    config_dir: &str,
    device: &str,
) -> (r: (Profile, String))
    ensures
        ({
            let s = named_view(profiles@);
            let from = sources_view(sources@);
            let read = from.map_values(|x: (Seq<char>, u32)| profile_named(s, x.0));
            r.0@ == grouped_profile(read, from, selected@, config_dir@, device@)
        }),
        r.1@ == selected_after(selected@),
{
    let ghost s = named_view(profiles@);
    let ghost from = sources_view(sources@);
    let mut read: Vec<Profile> = Vec::new();
    let mut i: usize = 0;
    while i < sources.len()
        invariant
            i <= sources@.len(),
            read@.len() == i,
            s == named_view(profiles@),
            forall|k: int|
                0 <= k < i ==> (#[trigger] read@[k])@ == profile_named(s, sources@[k].old_id@),
        decreases sources@.len() - i,
    {
        read.push(find_profile(profiles, &sources[i].old_id));
        i = i + 1;
    }
    assert(profiles_view(read@) =~= from.map_values(
        |x: (Seq<char>, u32)| profile_named(s, x.0),
    ));
    group_profiles(sources, read, selected, config_dir, device)
}

fn image_moves(sources: &Vec<PageSource>, config_dir: &str, device: &str) -> (r: Vec<ImageMove>)
    ensures
        moves_view(r@) == sources_view(sources@).map_values(
            |x: (Seq<char>, u32)| source_move(x, config_dir@, device@),
        ),
{
    let mut out: Vec<ImageMove> = Vec::new();
    let mut i: usize = 0;
    while i < sources.len()
        invariant
            i <= sources@.len(),
            out@.len() == i,
            forall|k: int|
                0 <= k < i ==> (#[trigger] out@[k])@ == source_move(
                    (sources@[k].old_id@, sources@[k].page),
                    config_dir@,
                    device@,
                ),
        decreases sources@.len() - i,
    {
        out.push(image_move(&sources[i], config_dir, device));
        i = i + 1;
    }
    assert(moves_view(out@) =~= sources_view(sources@).map_values(
        |x: (Seq<char>, u32)| source_move(x, config_dir@, device@),
    ));
    out
}

/// The migration of the profiles of a device, given those that are there, the one
/// that is selected, and whether the migration has been made before.
pub fn migrate_device_profiles_to_pages(
    marker_exists: bool,
    profiles: &Vec<NamedProfile>,
    selected: &str,
    config_dir: &str,
    device: &str,
) -> (r: Option<Migration>)
    ensures
        (match r {
            Some(m) => Some(m@),
            None => None,
        }) == migration_of(
            marker_exists,
            named_view(profiles@),
            selected@,
            config_dir@,
            device@,
        ),
{
    if marker_exists {
        return None;
    }
    let existing = names(profiles);
    match migration_plan(marker_exists, &existing) {
        None => {
            let kept = keep_profiles(profiles, false);
            let m = Migration {
                profiles: normalize_all(kept, config_dir, device),
                selected: owned(selected),
                moves: Vec::new(),
                removed: Vec::new(),
            };
            assert(m@.moves =~= Seq::<MoveView>::empty());
            assert(m@.removed =~= Seq::<Seq<char>>::empty());
            Some(m)
        },
        Some(sources) => {
            let (grouped, selected) = group_named(
                profiles,
                &sources,
                selected,
                config_dir,
                device,
            );
            let mut kept = keep_profiles(profiles, true);
            let ghost rest = named_view(kept@);
            let first = NamedProfile { name: owned("Default"), profile: grouped };
            kept.insert(0, first);
            assert(named_view(kept@) =~= seq![("Default"@, grouped@)] + rest);
            assert(sources_view(sources@).len() == sources@.len());
            Some(
                Migration {
                    profiles: normalize_all(kept, config_dir, device),
                    selected,
                    moves: image_moves(&sources, config_dir, device),
                    removed: files_to_remove(&sources, config_dir, device),
                },
            )
        },
    }
}

/// The migration is made once: where its mark is there, nothing changes. A single
/// source is not grouped: its profile keeps its pages, and no file is removed.
pub proof fn law_migration_is_made_once(
    s: Seq<(Seq<char>, ProfileView)>,
    selected: Seq<char>,
    config_dir: Seq<char>,
    device: Seq<char>,
)
    ensures
        migration_of(true, s, selected, config_dir, device) is None,
        page_sources(names_of(s)).len() < 2 ==> ({
            let m = migration_of(false, s, selected, config_dir, device)->0;
            let kept = kept_profiles(s, s.len(), false);
            &&& m.selected == selected
            &&& m.moves.len() == 0
            &&& m.removed.len() == 0
            &&& m.profiles.len() == kept.len()
            &&& forall|i: int|
                0 <= i < kept.len() ==> (#[trigger] m.profiles[i]).0 == kept[i].0 && m.profiles[i].1
                    == normalized_profile(kept[i].1, kept[i].0, config_dir, device)
        }),
{
}

/// Where profiles are grouped, no profile is left whose name is that of a page,
/// and `Default` holds a page for each source, in the order of their numbers.
pub proof fn law_grouped_pages_are_there(
    s: Seq<(Seq<char>, ProfileView)>,
    selected: Seq<char>,
    config_dir: Seq<char>,
    device: Seq<char>,
)
    requires
        page_sources(names_of(s)).len() >= 2,
    ensures
        ({
            let sources = page_sources(names_of(s));
            let m = migration_of(false, s, selected, config_dir, device)->0;
            let d = m.profiles[0];
            &&& d.0 == "Default"@
            &&& d.1.pages.len() == sources.len()
            &&& forall|i: int|
                0 <= i < sources.len() ==> (#[trigger] d.1.pages[i]).id == text::decimal(
                    sources[i].1 as nat,
                )
            &&& d.1.selected_page == match page_number(selected) {
                Some(n) => text::decimal(n as nat),
                None => "1"@,
            }
            &&& m.selected == selected_after(selected)
            &&& forall|i: int|
                0 <= i < m.profiles.len() ==> !"Page "@.is_prefix_of((#[trigger] m.profiles[i]).0)
        }),
{
    let kept = kept_profiles(s, s.len(), true);
    lemma_kept_are_no_pages(s, s.len(), true);
    let m = migration_of(false, s, selected, config_dir, device)->0;
    reveal_strlit("Page ");
    reveal_strlit("Default");
    assert("Default"@[0] == 'D');
    assert("Page "@[0] == 'P');
    assert(!"Page "@.is_prefix_of("Default"@)) by {
        if "Page "@.is_prefix_of("Default"@) {
            assert("Default"@.subrange(0, "Page "@.len() as int)[0] == "Page "@[0]);
        }
    }
    assert forall|i: int| 0 <= i < m.profiles.len() implies !"Page "@.is_prefix_of(
        (#[trigger] m.profiles[i]).0,
    ) by {
        if i > 0 {
            assert(m.profiles[i].0 == kept[i - 1].0);
        }
    }
}

proof fn lemma_normalized_keeps(
    p: ProfileView,
    id: Seq<char>,
    config_dir: Seq<char>,
    device: Seq<char>,
    k: int,
)
    requires
        0 <= k < p.pages.len(),
    ensures
        ({
            let r = normalized_profile(p, id, config_dir, device);
            &&& r.pages.len() == p.pages.len()
            &&& r.pages[k].id == if p.pages.len() == 1 {
                "1"@
            } else {
                p.pages[k].id
            }
            &&& relocate::keeps_page(p.pages[k], r.pages[k], id, r.pages[k].id)
        }),
{
    let pages = numbered_pages(p);
    relocate::law_relocated_page_keeps(
        pages[k],
        id,
        pages[k].id,
        normal_route(pages, id, config_dir, device),
    );
}

/// Where profiles are grouped, each page of `Default` holds what the page held
/// that its source showed: as many keys and as many dials, occupied exactly where
/// they were, each by the same action with the same settings, current state and
/// children, with a context in `Default` and on the page of that number.
pub proof fn law_grouped_pages_keep_actions(
    s: Seq<(Seq<char>, ProfileView)>,
    selected: Seq<char>,
    config_dir: Seq<char>,
    device: Seq<char>,
)
    requires
        page_sources(names_of(s)).len() >= 2,
    ensures
        ({
            let sources = page_sources(names_of(s));
            let d = migration_of(false, s, selected, config_dir, device)->0.profiles[0].1;
            forall|i: int|
                0 <= i < sources.len() ==> {
                    let source = relocate::with_selection(profile_named(s, sources[i].0));
                    let shown = source.pages[relocate::shown_index(source)];
                    relocate::keeps_page(
                        shown,
                        #[trigger] d.pages[i],
                        "Default"@,
                        text::decimal(sources[i].1 as nat),
                    )
                }
        }),
{
    let sources = page_sources(names_of(s));
    let read = sources.map_values(|x: (Seq<char>, u32)| profile_named(s, x.0));
    let grouped = grouped_profile(read, sources, selected, config_dir, device);
    let d = migration_of(false, s, selected, config_dir, device)->0.profiles[0].1;
    assert(d == normalized_profile(grouped, "Default"@, config_dir, device));
    assert forall|i: int| 0 <= i < sources.len() implies {
        let source = relocate::with_selection(profile_named(s, sources[i].0));
        let shown = source.pages[relocate::shown_index(source)];
        relocate::keeps_page(
            shown,
            #[trigger] d.pages[i],
            "Default"@,
            text::decimal(sources[i].1 as nat),
        )
    } by {
        let source = relocate::with_selection(profile_named(s, sources[i].0));
        let shown = source.pages[relocate::shown_index(source)];
        let id = text::decimal(sources[i].1 as nat);
        assert(read[i] == profile_named(s, sources[i].0));
        relocate::law_relocated_page_keeps(
            PageView { id, ..shown },
            "Default"@,
            id,
            grouped_route(sources[i].0, id, config_dir, device),
        );
        assert(grouped.pages[i] == grouped_page(read[i], sources[i], config_dir, device));
        lemma_normalized_keeps(grouped, "Default"@, config_dir, device, i);
        relocate::lemma_keeps_page_chain(
            shown,
            grouped.pages[i],
            d.pages[i],
            ("Default"@, id),
            "Default"@,
            id,
        );
    }
}

proof fn lemma_kept_at(s: Seq<(Seq<char>, ProfileView)>, n: nat, groups: bool, k: int)
    requires
        n <= s.len(),
        0 <= k < n,
        !"Page "@.is_prefix_of(s[k].0),
        !(groups && s[k].0 == "Default"@),
    ensures
        kept_profiles(s, n, groups).contains(s[k]),
    decreases n,
{
    let before = kept_profiles(s, (n - 1) as nat, groups);
    let now = kept_profiles(s, n, groups);
    if k == n - 1 {
        assert(now[before.len() as int] == s[k]);
    } else {
        lemma_kept_at(s, (n - 1) as nat, groups, k);
        let j = choose|j: int| 0 <= j < before.len() && before[j] == s[k];
        assert(now[j] == s[k]);
    }
}

/// A profile that becomes no page is there under its name after the migration,
/// and each of its pages holds what it held, on keys and on dials.
pub proof fn law_other_profiles_keep_actions(
    s: Seq<(Seq<char>, ProfileView)>,
    selected: Seq<char>,
    config_dir: Seq<char>,
    device: Seq<char>,
    k: int,
)
    requires
        0 <= k < s.len(),
        !"Page "@.is_prefix_of(s[k].0),
        page_sources(names_of(s)).len() >= 2 ==> s[k].0 != "Default"@,
    ensures
        ({
            let m = migration_of(false, s, selected, config_dir, device)->0;
            let p = s[k].1;
            exists|j: int|
                0 <= j < m.profiles.len() && (#[trigger] m.profiles[j]).0 == s[k].0
                    && m.profiles[j].1.id == p.id && (p.pages.len() > 0
                    ==> m.profiles[j].1.pages.len() == p.pages.len()) && forall|i: int|
                    0 <= i < p.pages.len() ==> relocate::keeps_page(
                        #[trigger] p.pages[i],
                        m.profiles[j].1.pages[i],
                        s[k].0,
                        m.profiles[j].1.pages[i].id,
                    )
        }),
{
    let groups = page_sources(names_of(s)).len() >= 2;
    let kept = kept_profiles(s, s.len(), groups);
    lemma_kept_at(s, s.len(), groups, k);
    let at = choose|j: int| 0 <= j < kept.len() && kept[j] == s[k];
    let m = migration_of(false, s, selected, config_dir, device)->0;
    let j = if groups {
        at + 1
    } else {
        at
    };
    let p = s[k].1;
    assert(m.profiles[j] == (s[k].0, normalized_profile(p, s[k].0, config_dir, device)));
    assert forall|i: int| 0 <= i < p.pages.len() implies relocate::keeps_page(
        #[trigger] p.pages[i],
        m.profiles[j].1.pages[i],
        s[k].0,
        m.profiles[j].1.pages[i].id,
    ) by {
        lemma_normalized_keeps(p, s[k].0, config_dir, device, i);
    }
    if p.pages.len() > 0 {
        lemma_normalized_keeps(p, s[k].0, config_dir, device, 0);
    }
}

proof fn lemma_kept_are_no_pages(s: Seq<(Seq<char>, ProfileView)>, n: nat, groups: bool)
    requires
        n <= s.len(),
    ensures
        forall|i: int|
            0 <= i < kept_profiles(s, n, groups).len() ==> !"Page "@.is_prefix_of(
                (#[trigger] kept_profiles(s, n, groups)[i]).0,
            ),
    decreases n,
{
    if n > 0 {
        lemma_kept_are_no_pages(s, (n - 1) as nat, groups);
        let before = kept_profiles(s, (n - 1) as nat, groups);
        let now = kept_profiles(s, n, groups);
        assert forall|i: int| 0 <= i < now.len() implies !"Page "@.is_prefix_of(
            (#[trigger] now[i]).0,
        ) by {
            if i < before.len() {
                assert(now[i] == before[i]);
            }
        }
    }
}

/// A profile named `Page N` has the number N, and `Default` has none.
pub proof fn law_page_number_reads_back(n: u32)
    ensures
        page_number("Page "@ + text::decimal(n as nat)) == Some(n),
        page_number("Default"@) is None,
        selected_after("Page "@ + text::decimal(n as nat)) == "Default"@,
        selected_after("Default"@) == "Default"@,
{
    reveal_strlit("Page ");
    reveal_strlit("Default");
    let d = text::decimal(n as nat);
    let id = "Page "@ + d;
    assert(id.subrange(0, 5) =~= "Page "@);
    assert(id.skip(5) =~= d);
    text::lemma_parse_decimal(n as nat, u32::MAX as nat);
    if "Page "@.is_prefix_of("Default"@) {
        assert("Default"@.subrange(0, 5)[0] == "Default"@[0]);
    }
}

proof fn lemma_inserted_holds(s: Seq<(Seq<char>, u32)>, x: (Seq<char>, u32), y: (Seq<char>, u32))
    ensures
        inserted(s, x).contains(y) <==> s.contains(y) || x == y,
        inserted(s, x).len() == s.len() + 1,
    decreases s.len(),
{
    let r = inserted(s, x);
    if s.len() == 0 || s.last().1 <= x.1 {
        if s.contains(y) {
            let i = choose|i: int| 0 <= i < s.len() && s[i] == y;
            assert(r[i] == y);
        }
        assert(r[s.len() as int] == x);
        if r.contains(y) {
            let i = choose|i: int| 0 <= i < r.len() && r[i] == y;
            if i < s.len() {
                assert(s[i] == y);
            }
        }
    } else {
        let t = s.drop_last();
        let q = inserted(t, x);
        lemma_inserted_holds(t, x, y);
        if s.contains(y) {
            let i = choose|i: int| 0 <= i < s.len() && s[i] == y;
            if i < t.len() {
                assert(t[i] == y);
            }
        }
        if q.contains(y) {
            let i = choose|i: int| 0 <= i < q.len() && q[i] == y;
            assert(r[i] == y);
        }
        assert(r[q.len() as int] == s.last());
        if r.contains(y) {
            let i = choose|i: int| 0 <= i < r.len() && r[i] == y;
            if i < q.len() {
                assert(q[i] == y);
            } else {
                assert(s[s.len() - 1] == y);
            }
        }
        if t.contains(y) {
            let i = choose|i: int| 0 <= i < t.len() && t[i] == y;
            assert(s[i] == y);
        }
    }
}

proof fn lemma_sources_hold(
    start: Seq<(Seq<char>, u32)>,
    ids: Seq<Seq<char>>,
    n: nat,
    y: (Seq<char>, u32),
)
    requires
        n <= ids.len(),
    ensures
        sources_among(start, ids, n).contains(y) <==> start.contains(y) || (page_number(y.0)
            == Some(y.1) && exists|k: int| 0 <= k < n && #[trigger] ids[k] == y.0),
    decreases n,
{
    if n > 0 {
        let m = (n - 1) as nat;
        lemma_sources_hold(start, ids, m, y);
        let before = sources_among(start, ids, m);
        if let Some(k) = page_number(ids[m as int]) {
            lemma_inserted_holds(before, (ids[m as int], k), y);
        }
        if exists|k: int| 0 <= k < n && #[trigger] ids[k] == y.0 {
            let k = choose|k: int| 0 <= k < n && #[trigger] ids[k] == y.0;
            if k < m {
                assert(exists|k: int| 0 <= k < m && #[trigger] ids[k] == y.0);
            }
        }
        if exists|k: int| 0 <= k < m && #[trigger] ids[k] == y.0 {
            let k = choose|k: int| 0 <= k < m && #[trigger] ids[k] == y.0;
            assert(ids[k] == y.0);
        }
    }
}

/// The profiles that become pages are `Default`, as page 1, and each profile that
/// has a page number, as the page of that number; no other profile does.
pub proof fn law_every_page_is_a_source(ids: Seq<Seq<char>>, id: Seq<char>, n: u32)
    ensures
        page_sources(ids).contains((id, n)) <==> ids.contains(id) && ((id == "Default"@ && n == 1)
            || page_number(id) == Some(n)),
{
    law_page_number_reads_back(1);
    let start: Seq<(Seq<char>, u32)> = if ids.contains("Default"@) {
        seq![("Default"@, 1u32)]
    } else {
        Seq::empty()
    };
    lemma_sources_hold(start, ids, ids.len(), (id, n));
    if ids.contains("Default"@) {
        assert(start[0] == ("Default"@, 1u32));
    }
    if ids.contains(id) {
        let k = choose|k: int| 0 <= k < ids.len() && ids[k] == id;
        assert(ids[k] == id);
    }
}

/// A profile is read as it is: the first of its name, whatever the others are.
pub proof fn law_named_profile_is_the_first(
    s: Seq<(Seq<char>, ProfileView)>,
    name: Seq<char>,
    k: int,
)
    requires
        0 <= k < s.len(),
        s[k].0 == name,
        forall|j: int| 0 <= j < k ==> (#[trigger] s[j]).0 != name,
    ensures
        profile_named(s, name) == s[k].1,
{
    let names = names_of(s);
    assert(names[k] == name);
    assert forall|j: int| 0 <= j < k implies #[trigger] names[j] != name by {
        assert(names[j] == s[j].0);
    }
    text::lemma_first_index_is(names, name, k);
}

/// The files that the migration removes are those of the profiles that became pages
/// and are named `Page N`: each of them, and no other.
pub proof fn law_removed_files_are_of_pages(
    sources: Seq<(Seq<char>, u32)>,
    n: nat,
    config_dir: Seq<char>,
    device: Seq<char>,
    file: Seq<char>,
)
    requires
        n <= sources.len(),
    ensures
        removed_files(sources, n, config_dir, device).contains(file) <==> exists|k: int|
            0 <= k < n && "Page "@.is_prefix_of((#[trigger] sources[k]).0) && file
                == profile_path(config_dir, device, sources[k].0),
    decreases n,
{
    reveal_strlit("Page ");
    reveal_strlit("Default");
    let now = removed_files(sources, n, config_dir, device);
    if n > 0 {
        let m = (n - 1) as nat;
        law_removed_files_are_of_pages(sources, m, config_dir, device, file);
        let before = removed_files(sources, m, config_dir, device);
        let id = sources[m as int].0;
        if "Page "@.is_prefix_of(id) {
            assert(id.subrange(0, 5)[0] == id[0]);
            assert(id != "Default"@);
        }
        if now.contains(file) {
            let t = choose|t: int| 0 <= t < now.len() && now[t] == file;
            if t < before.len() {
                assert(before[t] == file);
                let k = choose|k: int|
                    0 <= k < m && "Page "@.is_prefix_of((#[trigger] sources[k]).0) && file
                        == profile_path(config_dir, device, sources[k].0);
                assert(file == profile_path(config_dir, device, sources[k].0));
            } else {
                assert(file == profile_path(config_dir, device, sources[m as int].0));
            }
        }
        if exists|k: int|
            0 <= k < n && "Page "@.is_prefix_of((#[trigger] sources[k]).0) && file == profile_path(
                config_dir,
                device,
                sources[k].0,
            ) {
            let k = choose|k: int|
                0 <= k < n && "Page "@.is_prefix_of((#[trigger] sources[k]).0) && file
                    == profile_path(config_dir, device, sources[k].0);
            if k < m {
                let t = choose|t: int| 0 <= t < before.len() && before[t] == file;
                assert(now[t] == file);
            } else {
                assert(now[before.len() as int] == file);
            }
        }
    }
}

/// The file of a profile, with or without what a write leaves behind its name, names
/// the profile.
pub proof fn law_profile_of_its_file(id: Seq<char>)
    ensures
        profile_of_file(id + ".json"@) == Some(id),
        profile_of_file(id + ".json.bak"@) == Some(id),
        profile_of_file(id + ".json.temp"@) == Some(id),
{
    reveal_strlit(".json");
    reveal_strlit(".json.bak");
    reveal_strlit(".json.temp");
    let a = id + ".json"@;
    assert(a.subrange(a.len() - 5, a.len() as int) =~= ".json"@);
    assert(a.take(a.len() - 5) =~= id);
    let b = id + ".json.bak"@;
    assert(b.subrange(b.len() - 9, b.len() as int) =~= ".json.bak"@);
    assert(b.take(b.len() - 9) =~= id);
    assert(!".json"@.is_suffix_of(b)) by {
        assert(b.subrange(b.len() - 5, b.len() as int)[4] == 'k');
    }
    let c = id + ".json.temp"@;
    assert(c.subrange(c.len() - 10, c.len() as int) =~= ".json.temp"@);
    assert(c.take(c.len() - 10) =~= id);
    assert(!".json"@.is_suffix_of(c)) by {
        assert(c.subrange(c.len() - 5, c.len() as int)[4] == 'p');
    }
    assert(!".json.bak"@.is_suffix_of(c)) by {
        assert(c.subrange(c.len() - 9, c.len() as int)[8] == 'p');
    }
}

/// Every file of a profile in the directory of a device makes the profile known, and
/// so does every one in a directory below it, under the directory's name; `Default`
/// is known where there is no other.
pub proof fn law_found_profiles(entries: Seq<DirEntryView>, n: nat, k: int, id: Seq<char>)
    requires
        0 <= k < n <= entries.len(),
        entries[k].is_file && !entries[k].is_dir ==> entries[k].name == id + ".json"@,
        !entries[k].is_file ==> entries[k].is_dir && exists|j: int|
            0 <= j < entries[k].files.len() && entries[k].name + "/"@ + (
            #[trigger] entries[k].files[j]) == id + ".json"@,
        entries[k].is_file ==> !entries[k].is_dir,
    ensures
        profiles_among(entries, n).contains(id),
        raw_profiles(Seq::empty()) == seq!["Default"@],
    decreases n,
{
    let now = profiles_among(entries, n);
    let m = (n - 1) as nat;
    let before = profiles_among(entries, m);
    law_profile_of_its_file(id);
    if k < m {
        law_found_profiles(entries, m, k, id);
        let t = choose|t: int| 0 <= t < before.len() && before[t] == id;
        assert(now[t] == id);
    } else if entries[k].is_file {
        assert(now[before.len() as int] == id);
    } else {
        let e = entries[k];
        let j = choose|j: int|
            0 <= j < e.files.len() && e.name + "/"@ + (#[trigger] e.files[j]) == id + ".json"@;
        lemma_profiles_in_dir(e.name, e.files, e.files.len(), j, id);
        let found = profiles_in_dir(e.name, e.files, e.files.len());
        let t = choose|t: int| 0 <= t < found.len() && found[t] == id;
        assert(now[before.len() + t] == id);
    }
}

proof fn lemma_profiles_in_dir(
    dir: Seq<char>,
    files: Seq<Seq<char>>,
    n: nat,
    j: int,
    id: Seq<char>,
)
    requires
        0 <= j < n <= files.len(),
        dir + "/"@ + files[j] == id + ".json"@,
    ensures
        profiles_in_dir(dir, files, n).contains(id),
    decreases n,
{
    let now = profiles_in_dir(dir, files, n);
    let m = (n - 1) as nat;
    let before = profiles_in_dir(dir, files, m);
    law_profile_of_its_file(id);
    if j < m {
        lemma_profiles_in_dir(dir, files, m, j, id);
        let t = choose|t: int| 0 <= t < before.len() && before[t] == id;
        assert(now[t] == id);
    } else {
        assert(now[before.len() as int] == id);
    }
}

/// The images of a profile that becomes a page go, each under its own name, into the
/// directory of that page, and so does the directory itself: what a page names and
/// what is moved agree.
pub proof fn law_grouped_images_follow_their_move(
    source: (Seq<char>, u32),
    config_dir: Seq<char>,
    device: Seq<char>,
    rel: Seq<char>,
)
    requires
        config_dir.len() > 0,
        config_dir.last() != '/',
        path::is_plain(device),
        path::is_plain(source.0),
        path::is_plain(rel),
        ({
            let image = config_dir + "/images/"@ + device + "/"@ + source.0 + "/"@ + rel;
            text::trimmed(image) == image
        }),
        source.0 != "Default"@,
    ensures
        ({
            let page = text::decimal(source.1 as nat);
            let move_it = source_move(source, config_dir, device);
            let old = config_dir + "/images/"@ + device + "/"@ + source.0;
            let new = config_dir + "/images/"@ + device + "/"@ + "Default"@ + "/"@ + page;
            let r = grouped_route(source.0, page, config_dir, device);
            &&& move_it.from == old
            &&& move_it.to == new
            &&& !move_it.contents_only
            &&& r.old == old && r.new == new
            &&& !relocate::lies_in(old + "/"@ + rel, seq![new]) ==> relocate::moved_image(
                old + "/"@ + rel,
                r,
            ) == new + "/"@ + rel
        }),
{
    reveal_strlit("/");
    reveal_strlit("Default");
    let page = text::decimal(source.1 as nat);
    let old = config_dir + "/images/"@ + device + "/"@ + source.0;
    let new = config_dir + "/images/"@ + device + "/"@ + "Default"@ + "/"@ + page;
    lemma_is_plain_name("Default"@);
    text::lemma_decimal(source.1 as nat);
    assert forall|j: int| 0 <= j < page.len() implies #[trigger] page[j] != '/' && page[j]
        != '.' by {
        assert(text::is_digit(page[j]));
    }
    lemma_is_plain_name(page);
    relocate::law_image_directories_nest(config_dir, device, source.0, page);
    relocate::law_image_directories_nest(config_dir, device, "Default"@, page);
    let r = grouped_route(source.0, page, config_dir, device);
    assert(new.last() == page.last());
    assert(page.last() != '/');
    path::lemma_plain_joined(source.0, source.0);
    assert(old.last() == source.0.last());
    assert(old + "/"@ + rel =~= r.old + seq!['/'] + rel);
    assert(new + "/"@ + rel =~= r.new + seq!['/'] + rel);
    relocate::law_moved_image_keeps_its_name(r, rel);
    assert(r.kept == seq![new]);
}

proof fn lemma_is_plain_name(name: Seq<char>)
    requires
        name.len() > 0,
        name[0] != '.',
        forall|j: int| 0 <= j < name.len() ==> #[trigger] name[j] != '/',
    ensures
        path::is_plain(name),
{
    text::lemma_split_on_none(name, '/');
}

/// The single page of a profile becomes page 1, which is then selected; more than one
/// keep their ids and the selection.
pub proof fn law_normalized_ids(
    p: ProfileView,
    id: Seq<char>,
    config_dir: Seq<char>,
    device: Seq<char>,
)
    ensures
        ({
            let q = normalized_profile(p, id, config_dir, device);
            &&& q.id == p.id
            &&& p.pages.len() <= 1 ==> q.pages.len() == 1 && q.pages[0].id == "1"@
                && q.selected_page == "1"@
            &&& p.pages.len() > 1 ==> profiles::page_ids(q.pages) == profiles::page_ids(p.pages)
                && q.selected_page == p.selected_page
        }),
{
    let q = normalized_profile(p, id, config_dir, device);
    if p.pages.len() > 1 {
        assert(profiles::page_ids(q.pages) =~= profiles::page_ids(p.pages));
    }
}

/// The images of a profile go below its first page, but for those in the directories
/// that its pages name.
pub proof fn law_first_move_spares_pages(
    pages: Seq<PageView>,
    n: nat,
    name: Seq<char>,
)
    requires
        n <= pages.len(),
    ensures
        page_names(pages, n).contains(name) <==> name.len() > 0 && exists|k: int|
            0 <= k < n && (#[trigger] pages[k]).id == name,
    decreases n,
{
    let now = page_names(pages, n);
    if n > 0 {
        let m = (n - 1) as nat;
        law_first_move_spares_pages(pages, m, name);
        let before = page_names(pages, m);
        if now.contains(name) {
            let t = choose|t: int| 0 <= t < now.len() && now[t] == name;
            if t < before.len() {
                assert(before[t] == name);
                let k = choose|k: int| 0 <= k < m && (#[trigger] pages[k]).id == name;
                assert(pages[k].id == name);
            } else {
                assert(pages[m as int].id == name);
            }
        }
        if name.len() > 0 && exists|k: int| 0 <= k < n && (#[trigger] pages[k]).id == name {
            let k = choose|k: int| 0 <= k < n && (#[trigger] pages[k]).id == name;
            if k < m {
                let t = choose|t: int| 0 <= t < before.len() && before[t] == name;
                assert(now[t] == name);
            } else {
                assert(now[before.len() as int] == name);
            }
        }
    }
}

/// The first move of a profile empties its own directory into that of its page 1.
pub proof fn law_first_move_is_to_page_one(
    pages: Seq<PageView>,
    id: Seq<char>,
    config_dir: Seq<char>,
    device: Seq<char>,
)
    requires
        config_dir.len() > 0,
        config_dir.last() != '/',
        path::is_plain(device),
        path::is_plain(id),
    ensures
        ({
            let m = first_move(pages, id, config_dir, device);
            &&& m.from == config_dir + "/images/"@ + device + "/"@ + id
            &&& m.to == config_dir + "/images/"@ + device + "/"@ + id + "/"@ + "1"@
            &&& m.contents_only
            &&& m.except == page_names(pages, pages.len())
        }),
{
    reveal_strlit("1");
    lemma_is_plain_name("1"@);
    relocate::law_image_directories_nest(config_dir, device, id, "1"@);
}

} // verus!
