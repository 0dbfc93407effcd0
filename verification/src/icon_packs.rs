//! Icon packs: directories of icons with a manifest and an index.
use vstd::prelude::*;
use crate::path;
use crate::path::relative_to;
use crate::shared;
use crate::shared::join;
use crate::text;
use crate::text::{
    clone_texts, comes_before, concat2, contains, ends_with, same_text, starts_with, texts_contain,
    to_lowercase, trim,
};

verus! {

/// The manifest of an icon pack.
pub struct IconPackManifest {
    pub name: String,
    pub author: String,
    pub version: String,
}

/// The index of an icon pack.
pub struct IconPackIndex {
    pub icons: Vec<IconEntry>,
}

/// An icon of a pack.
pub struct IconEntry {
    /// The file: relative to the pack, or the path of a picture of the host.
    pub path: String,
    pub name: String,
    pub tags: Vec<String>,
}

/// An icon pack.
pub struct IconPackInfo {
    pub id: String,
    pub name: String,
    pub author: String,
    pub version: String,
    /// The directory that holds the manifest and the index.
    pub root: String,
    /// Whether it came with the host.
    pub builtin: bool,
}

/// The model of an `IconPackInfo`.
pub struct PackView {
    pub id: Seq<char>,
    pub name: Seq<char>,
    pub author: Seq<char>,
    pub version: Seq<char>,
    pub root: Seq<char>,
    pub builtin: bool,
}

impl View for IconPackInfo {
    type V = PackView;

    open spec fn view(&self) -> PackView {
        PackView {
            id: self.id@,
            name: self.name@,
            author: self.author@,
            version: self.version@,
            root: self.root@,
            builtin: self.builtin,
        }
    }
}

/// The models of packs.
pub open spec fn packs_view(s: Seq<IconPackInfo>) -> Seq<PackView> {
    s.map_values(|p: IconPackInfo| p@)
}

/// An icon that was found.
pub struct IconInfo {
    pub pack_id: String,
    pub path: String,
    pub name: String,
    pub tags: Vec<String>,
    /// The file of the icon.
    pub resolved_path: String,
}

/// The model of an `IconInfo`.
pub struct IconView {
    pub pack_id: Seq<char>,
    pub path: Seq<char>,
    pub name: Seq<char>,
    pub tags: Seq<Seq<char>>,
    pub resolved_path: Seq<char>,
}

impl View for IconInfo {
    type V = IconView;

    open spec fn view(&self) -> IconView {
        IconView {
            pack_id: self.pack_id@,
            path: self.path@,
            name: self.name@,
            tags: text::texts(self.tags@),
            resolved_path: self.resolved_path@,
        }
    }
}

/// The models of icons.
pub open spec fn icons_view(s: Seq<IconInfo>) -> Seq<IconView> {
    s.map_values(|i: IconInfo| i@)
}

// ---------------------------------------------------------------------------
// Directories
// ---------------------------------------------------------------------------

/// The directory of the packs that were installed.
pub fn config_icon_packs_dir(config_dir: &str) -> (r: String)
    ensures
        r@ == shared::joined(config_dir@, "icon_packs"@),
{
    join(config_dir, "icon_packs")
}

/// The directories of the packs that came with the host.
pub fn resource_icon_packs_dirs(resource_dir: &Option<String>) -> (r: Vec<String>)
    ensures
        text::texts(r@) == match *resource_dir {
            Some(d) => seq![
                shared::joined(d@, "icon_packs"@),
                shared::joined(shared::joined(d@, "packaging"@), "icon_packs"@),
            ],
            None => Seq::empty(),
        },
{
    let mut v: Vec<String> = Vec::new();
    match resource_dir {
        Some(d) => {
            let packaging = join(d, "packaging");
            v.push(join(d, "icon_packs"));
            v.push(join(&packaging, "icon_packs"));
            assert(text::texts(v@) =~= seq![
                shared::joined(d@, "icon_packs"@),
                shared::joined(shared::joined(d@, "packaging"@), "icon_packs"@),
            ]);
        },
        None => {
            assert(text::texts(v@) =~= Seq::empty());
        },
    }
    v
}

/// The name of a pack's directory.
pub open spec fn is_pack_name(name: Seq<char>) -> bool {
    ".sdiconpack"@.is_suffix_of(text::lowercased(name))
}

/// Whether a name is that of a pack's directory.
pub fn normalize_pack_dir_name(name: &str) -> (r: bool)
    ensures
        r == is_pack_name(name@),
{
    let l = to_lowercase(name);
    ends_with(&l, ".sdiconpack")
}

/// Why an id is not that of a pack.
#[derive(Clone, Copy, PartialEq, Eq, Structural, Debug)]
pub enum PackIdError {
    Empty,
    MissingSuffix,
}

/// Checks the id of a pack: it is not blank, and has the ending of a pack's
/// directory.
pub fn validate_pack_id(id: &str) -> (r: Result<(), PackIdError>)
    ensures
        r == if text::trimmed(id@).len() == 0 {
            Err::<(), PackIdError>(PackIdError::Empty)
        } else if !is_pack_name(id@) {
            Err::<(), PackIdError>(PackIdError::MissingSuffix)
        } else {
            Ok::<(), PackIdError>(())
        },
{
    let t = trim(id);
    if t.as_str().is_empty() {
        return Err(PackIdError::Empty);
    }
    if !normalize_pack_dir_name(id) {
        return Err(PackIdError::MissingSuffix);
    }
    Ok(())
}

// ---------------------------------------------------------------------------
// Listing packs
// ---------------------------------------------------------------------------

/// An entry of a directory of packs.
pub struct PackEntry {
    pub path: String,
    /// It is a directory, and no link to one.
    pub is_dir: bool,
    /// Its manifest, where it can be read.
    pub manifest: Option<IconPackManifest>,
}

/// The pack that an entry is.
pub open spec fn pack_of(e: PackEntry, builtin: bool) -> Option<PackView> {
    match (path::file_name_of(e.path@), e.manifest) {
        (Some(id), Some(m)) => if e.is_dir && is_pack_name(id) {
            Some(
                PackView {
                    id,
                    name: if text::trimmed(m.name@).len() == 0 {
                        id
                    } else {
                        m.name@
                    },
                    author: m.author@,
                    version: m.version@,
                    root: e.path@,
                    builtin,
                },
            )
        } else {
            None
        },
        _ => None,
    }
}

/// The model of a pack that there may be.
pub open spec fn opt_pack(p: Option<IconPackInfo>) -> Option<PackView> {
    match p {
        Some(x) => Some(x@),
        None => None,
    }
}

/// The pack that an entry is.
pub fn read_pack(e: &PackEntry, builtin: bool) -> (r: Option<IconPackInfo>)
    ensures
        opt_pack(r) == pack_of(*e, builtin),
{
    match path::file_name(&e.path) {
        Some(id) => match &e.manifest {
            Some(m) => {
                if !e.is_dir || !normalize_pack_dir_name(&id) {
                    return None;
                }
                let t = trim(&m.name);
                let name = if t.as_str().is_empty() {
                    id.clone()
                } else {
                    m.name.clone()
                };
                Some(
                    IconPackInfo {
                        id,
                        name,
                        author: m.author.clone(),
                        version: m.version.clone(),
                        root: e.path.clone(),
                        builtin,
                    },
                )
            },
            None => None,
        },
        None => None,
    }
}

/// The name that packs are ordered by.
pub open spec fn order_of(p: PackView) -> Seq<char> {
    text::lowercased(p.name)
}

/// The packs, which are in their order, with `p` in its place: behind those of
/// the same name.
pub open spec fn placed(s: Seq<PackView>, p: PackView) -> Seq<PackView>
    decreases s.len(),
{
    if s.len() == 0 || text::precedes(order_of(p), order_of(s[0])) {
        seq![p] + s
    } else {
        seq![s[0]] + placed(s.drop_first(), p)
    }
}

/// The packs with those of the first `n` entries in their places.
pub open spec fn with_packs(s: Seq<PackView>, entries: Seq<PackEntry>, builtin: bool, n: nat) -> Seq<
    PackView,
>
    decreases n,
{
    if n == 0 || n > entries.len() {
        s
    } else {
        let before = with_packs(s, entries, builtin, (n - 1) as nat);
        match pack_of(entries[n - 1], builtin) {
            Some(p) => placed(before, p),
            None => before,
        }
    }
}

/// All packs, in the order of their names without regard to case: first those
/// that were installed, then those that came with the host.
pub open spec fn all_packs(installed: Seq<PackEntry>, builtin: Seq<PackEntry>) -> Seq<PackView> {
    with_packs(
        with_packs(Seq::empty(), installed, false, installed.len()),
        builtin,
        true,
        builtin.len(),
    )
}

proof fn lemma_placed_at(s: Seq<PackView>, p: PackView, k: int)
    requires
        0 <= k <= s.len(),
        forall|j: int|
            0 <= j < k ==> !text::precedes(order_of(p), order_of(#[trigger] s[j])),
        k < s.len() ==> text::precedes(order_of(p), order_of(s[k])),
    ensures
        placed(s, p) == s.insert(k, p),
    decreases s.len(),
{
    if k == 0 {
        assert(placed(s, p) =~= s.insert(0, p));
    } else {
        let t = s.drop_first();
        assert(!text::precedes(order_of(p), order_of(s[0])));
        assert forall|j: int| 0 <= j < k - 1 implies !text::precedes(
            order_of(p),
            order_of(#[trigger] t[j]),
        ) by {
            assert(t[j] == s[j + 1]);
        }
        lemma_placed_at(t, p, k - 1);
        assert(placed(s, p) =~= s.insert(k, p));
    }
}

fn place(out: &mut Vec<IconPackInfo>, p: IconPackInfo)
    ensures
        packs_view(final(out)@) == placed(packs_view(old(out)@), p@),
{
    let ghost all = packs_view(out@);
    let name = to_lowercase(&p.name);
    let mut k: usize = 0;
    let mut more = true;
    while more && k < out.len()
        invariant
            k <= out@.len(),
            out@ == old(out)@,
            all == packs_view(out@),
            name@ == order_of(p@),
            forall|j: int|
                0 <= j < k ==> !text::precedes(order_of(p@), order_of(#[trigger] all[j])),
            !more ==> k < out@.len() && text::precedes(order_of(p@), order_of(all[k as int])),
        decreases out@.len() - k + (if more { 1int } else { 0int }),
    {
        assert(all[k as int] == out@[k as int]@);
        let other = to_lowercase(&out[k].name);
        if comes_before(&name, &other) {
            more = false;
        } else {
            k = k + 1;
        }
    }
    proof {
        lemma_placed_at(all, p@, k as int);
    }
    out.insert(k, p);
    assert(packs_view(out@) =~= all.insert(k as int, p@));
}

fn place_packs(out: &mut Vec<IconPackInfo>, entries: &Vec<PackEntry>, builtin: bool)
    ensures
        packs_view(final(out)@) == with_packs(
            packs_view(old(out)@),
            entries@,
            builtin,
            entries@.len(),
        ),
{
    let ghost start = packs_view(out@);
    let mut i: usize = 0;
    while i < entries.len()
        invariant
            i <= entries@.len(),
            packs_view(out@) == with_packs(start, entries@, builtin, i as nat),
        decreases entries@.len() - i,
    {
        match read_pack(&entries[i], builtin) {
            Some(p) => {
                place(out, p);
            },
            None => {},
        }
        i = i + 1;
    }
}

/// All packs, given the entries of their directories.
pub fn list_icon_packs(installed: &Vec<PackEntry>, builtin: &Vec<PackEntry>) -> (r: Vec<IconPackInfo>)
    ensures
        packs_view(r@) == all_packs(installed@, builtin@),
{
    let mut out: Vec<IconPackInfo> = Vec::new();
    assert(packs_view(out@) =~= Seq::empty());
    place_packs(&mut out, installed, false);
    place_packs(&mut out, builtin, true);
    out
}

/// The packs are in the order of their names.
pub open spec fn in_order(s: Seq<PackView>) -> bool {
    forall|i: int, j: int|
        0 <= i < j < s.len() ==> !text::precedes(
            order_of(#[trigger] s[j]),
            order_of(#[trigger] s[i]),
        )
}

proof fn lemma_placed_members(s: Seq<PackView>, p: PackView)
    ensures
        placed(s, p).len() == s.len() + 1,
        forall|i: int|
            0 <= i < placed(s, p).len() ==> #[trigger] placed(s, p)[i] == p || s.contains(
                placed(s, p)[i],
            ),
    decreases s.len(),
{
    if s.len() == 0 || text::precedes(order_of(p), order_of(s[0])) {
        assert forall|i: int| 0 <= i < placed(s, p).len() implies #[trigger] placed(s, p)[i] == p
            || s.contains(placed(s, p)[i]) by {
            if i > 0 {
                assert(placed(s, p)[i] == s[i - 1]);
            }
        }
    } else {
        let t = s.drop_first();
        lemma_placed_members(t, p);
        assert forall|i: int| 0 <= i < placed(s, p).len() implies #[trigger] placed(s, p)[i] == p
            || s.contains(placed(s, p)[i]) by {
            if i == 0 {
                assert(placed(s, p)[0] == s[0]);
            } else {
                assert(placed(s, p)[i] == placed(t, p)[i - 1]);
                if t.contains(placed(t, p)[i - 1]) {
                    let k = choose|k: int| 0 <= k < t.len() && t[k] == placed(t, p)[i - 1];
                    assert(s[k + 1] == t[k]);
                }
            }
        }
    }
}

proof fn lemma_placed_in_order(s: Seq<PackView>, p: PackView)
    requires
        in_order(s),
    ensures
        in_order(placed(s, p)),
    decreases s.len(),
{
    let r = placed(s, p);
    if s.len() == 0 || text::precedes(order_of(p), order_of(s[0])) {
        assert forall|i: int, j: int| 0 <= i < j < r.len() implies !text::precedes(
            order_of(#[trigger] r[j]),
            order_of(#[trigger] r[i]),
        ) by {
            assert(r[j] == s[j - 1]);
            if i > 0 {
                assert(r[i] == s[i - 1]);
            } else {
                text::lemma_precedes_total(order_of(p), order_of(s[j - 1]));
                if text::precedes(order_of(s[j - 1]), order_of(p)) {
                    text::lemma_precedes_transitive(
                        order_of(s[j - 1]),
                        order_of(p),
                        order_of(s[0]),
                    );
                    text::lemma_precedes_total(order_of(s[0]), order_of(s[0]));
                    if j - 1 > 0 {
                        assert(!text::precedes(order_of(s[j - 1]), order_of(s[0])));
                    }
                }
            }
        }
    } else {
        let t = s.drop_first();
        assert forall|i: int, j: int| 0 <= i < j < t.len() implies !text::precedes(
            order_of(#[trigger] t[j]),
            order_of(#[trigger] t[i]),
        ) by {
            assert(t[j] == s[j + 1] && t[i] == s[i + 1]);
        }
        lemma_placed_in_order(t, p);
        lemma_placed_members(t, p);
        let u = placed(t, p);
        assert forall|i: int, j: int| 0 <= i < j < r.len() implies !text::precedes(
            order_of(#[trigger] r[j]),
            order_of(#[trigger] r[i]),
        ) by {
            assert(r[j] == u[j - 1]);
            if i > 0 {
                assert(r[i] == u[i - 1]);
            } else {
                assert(r[0] == s[0]);
                if t.contains(u[j - 1]) {
                    let k = choose|k: int| 0 <= k < t.len() && t[k] == u[j - 1];
                    assert(s[k + 1] == t[k]);
                }
            }
        }
    }
}

proof fn lemma_with_packs_in_order(
    s: Seq<PackView>,
    entries: Seq<PackEntry>,
    builtin: bool,
    n: nat,
)
    requires
        in_order(s),
    ensures
        in_order(with_packs(s, entries, builtin, n)),
    decreases n,
{
    if 0 < n <= entries.len() {
        lemma_with_packs_in_order(s, entries, builtin, (n - 1) as nat);
        match pack_of(entries[n - 1], builtin) {
            Some(p) => {
                lemma_placed_in_order(with_packs(s, entries, builtin, (n - 1) as nat), p);
            },
            None => {},
        }
    }
}

/// Packs are listed in the order of their names without regard to case.
pub proof fn law_packs_in_order(installed: Seq<PackEntry>, builtin: Seq<PackEntry>)
    ensures
        in_order(all_packs(installed, builtin)),
{
    lemma_with_packs_in_order(Seq::empty(), installed, false, installed.len());
    lemma_with_packs_in_order(
        with_packs(Seq::empty(), installed, false, installed.len()),
        builtin,
        true,
        builtin.len(),
    );
}

/// The first pack, from number `from` on, with an id.
pub open spec fn first_pack(s: Seq<PackView>, id: Seq<char>, from: int) -> int
    decreases s.len() - from,
{
    if from < 0 || from >= s.len() || s[from].id == id {
        from
    } else {
        first_pack(s, id, from + 1)
    }
}

/// The first of the listed packs with an id.
pub fn get_pack_by_id<'a>(packs: &'a Vec<IconPackInfo>, pack_id: &str) -> (r: Option<
    &'a IconPackInfo,
>)
    ensures
        ({
            let k = first_pack(packs_view(packs@), pack_id@, 0);
            match r {
                Some(p) => 0 <= k < packs@.len() && *p == packs@[k] && p@.id == pack_id@,
                None => forall|i: int|
                    0 <= i < packs@.len() ==> (#[trigger] packs@[i])@.id != pack_id@,
            }
        }),
{
    let ghost all = packs_view(packs@);
    let mut k: usize = 0;
    while k < packs.len()
        invariant
            k <= packs@.len(),
            all == packs_view(packs@),
            first_pack(all, pack_id@, 0) == first_pack(all, pack_id@, k as int),
            forall|i: int| 0 <= i < k ==> (#[trigger] packs@[i])@.id != pack_id@,
        decreases packs@.len() - k,
    {
        assert(all[k as int] == packs@[k as int]@);
        if same_text(&packs[k].id, pack_id) {
            return Some(&packs[k]);
        }
        k = k + 1;
    }
    None
}

// ---------------------------------------------------------------------------
// Listing icons
// ---------------------------------------------------------------------------

/// What is found on disk of the file of an icon.
pub struct IconFacts {
    /// The real path of the pack, where it can be told.
    pub root: Option<String>,
    /// The real path of the icon below the pack, where it can be told.
    pub file: Option<String>,
    /// The real path is that of a file.
    pub is_file: bool,
}

/// An icon of the host.
pub open spec fn is_host_icon(p: Seq<char>) -> bool {
    "riverdeck/"@.is_prefix_of(p) || "opendeck/"@.is_prefix_of(p)
}

/// The file of an icon: for one of the host, below the configuration or the
/// resource directory; else a file below the real path of the pack.
pub open spec fn icon_file(
    entry_path: Seq<char>,
    config_dir: Seq<char>,
    resource_dir: Option<Seq<char>>,
    existing: Seq<Seq<char>>,
    facts: IconFacts,
) -> Option<Seq<char>> {
    let p = text::trimmed(entry_path);
    if p.len() == 0 {
        None
    } else if is_host_icon(p) {
        if existing.contains(shared::joined(config_dir, p)) {
            Some(shared::joined(config_dir, p))
        } else if resource_dir is Some && existing.contains(shared::joined(resource_dir->0, p)) {
            Some(shared::joined(resource_dir->0, p))
        } else {
            None
        }
    } else {
        match (facts.root, facts.file) {
            (Some(root), Some(file)) => if path::relative_path(file@, root@) is Some
                && facts.is_file {
                Some(file@)
            } else {
                None
            },
            _ => None,
        }
    }
}

/// The file of an icon, given what is found on disk.
pub fn resolve_icon_path(
    entry_path: &str,
    config_dir: &str,
    resource_dir: &Option<String>,
    existing: &Vec<String>,
    facts: &IconFacts,
) -> (r: Option<String>)
    ensures
        text::opt_text(r) == icon_file(
            entry_path@,
            config_dir@,
            text::opt_text(*resource_dir),
            text::texts(existing@),
            *facts,
        ),
{
    let p = trim(entry_path);
    if p.as_str().is_empty() {
        return None;
    }
    if starts_with(&p, "riverdeck/") || starts_with(&p, "opendeck/") {
        let in_config = join(config_dir, &p);
        if texts_contain(existing, &in_config) {
            return Some(in_config);
        }
        return match resource_dir {
            Some(dir) => {
                let in_resources = join(dir, &p);
                if texts_contain(existing, &in_resources) {
                    Some(in_resources)
                } else {
                    None
                }
            },
            None => None,
        };
    }
    match (&facts.root, &facts.file) {
        (Some(root), Some(file)) => if relative_to(file, root).is_some() && facts.is_file {
            Some(file.clone())
        } else {
            None
        },
        _ => None,
    }
}

/// The icons among the first `n` of an index whose files were found.
pub open spec fn found_icons(
    pack_id: Seq<char>,
    icons: Seq<IconEntry>,
    files: Seq<Option<String>>,
    n: nat,
) -> Seq<IconView>
    decreases n,
{
    if n == 0 || n > icons.len() {
        Seq::empty()
    } else {
        let rest = found_icons(pack_id, icons, files, (n - 1) as nat);
        match files[n - 1] {
            Some(file) => rest.push(
                IconView {
                    pack_id,
                    path: icons[n - 1].path@,
                    name: icons[n - 1].name@,
                    tags: text::texts(icons[n - 1].tags@),
                    resolved_path: file@,
                },
            ),
            None => rest,
        }
    }
}

/// The icons of a pack whose files were found, given the file of each.
pub fn list_icons_for_pack(
    pack: &IconPackInfo,
    index: &IconPackIndex,
    files: &Vec<Option<String>>,
) -> (r: Vec<IconInfo>)
    requires
        files@.len() == index.icons@.len(),
    ensures
        icons_view(r@) == found_icons(pack@.id, index.icons@, files@, index.icons@.len()),
{
    let mut out: Vec<IconInfo> = Vec::new();
    let mut i: usize = 0;
    assert(icons_view(out@) =~= Seq::empty());
    while i < index.icons.len()
        invariant
            i <= index.icons@.len(),
            files@.len() == index.icons@.len(),
            icons_view(out@) == found_icons(pack@.id, index.icons@, files@, i as nat),
        decreases index.icons@.len() - i,
    {
        match &files[i] {
            Some(file) => {
                let ghost before = out@;
                let icon = IconInfo {
                    pack_id: pack.id.clone(),
                    path: index.icons[i].path.clone(),
                    name: index.icons[i].name.clone(),
                    tags: clone_texts(&index.icons[i].tags),
                    resolved_path: file.clone(),
                };
                out.push(icon);
                assert(icons_view(out@) =~= icons_view(before).push(icon@));
            },
            None => {},
        }
        i = i + 1;
    }
    out
}

/// A tag holds the query.
pub open spec fn tag_matches(tags: Seq<Seq<char>>, q: Seq<char>) -> bool {
    exists|i: int|
        0 <= i < tags.len() && text::contains_text(text::lowercased(#[trigger] tags[i]), q)
}

/// The name or a tag of an icon holds the query, without regard to case.
pub open spec fn icon_matches(i: IconView, q: Seq<char>) -> bool {
    text::contains_text(text::lowercased(i.name), q) || tag_matches(i.tags, q)
}

/// A query as it is compared: without white space round it, and in lower case.
pub open spec fn query_text(query: Option<Seq<char>>) -> Seq<char> {
    text::lowercased(
        text::trimmed(
            match query {
                Some(q) => q,
                None => Seq::empty(),
            },
        ),
    )
}

/// The icons among the first `n` that match a query. An empty one matches all.
pub open spec fn matching_icons(s: Seq<IconView>, q: Seq<char>, n: nat) -> Seq<IconView>
    decreases n,
{
    if n == 0 || n > s.len() {
        Seq::empty()
    } else {
        let rest = matching_icons(s, q, (n - 1) as nat);
        if q.len() == 0 || icon_matches(s[n - 1], q) {
            rest.push(s[n - 1])
        } else {
            rest
        }
    }
}

fn any_tag(tags: &Vec<String>, q: &str) -> (r: bool)
    ensures
        r == tag_matches(text::texts(tags@), q@),
{
    let ghost all = text::texts(tags@);
    let mut i: usize = 0;
    while i < tags.len()
        invariant
            i <= tags@.len(),
            all == text::texts(tags@),
            forall|j: int|
                0 <= j < i ==> !text::contains_text(text::lowercased(#[trigger] all[j]), q@),
        decreases tags@.len() - i,
    {
        assert(all[i as int] == tags@[i as int]@);
        let l = to_lowercase(&tags[i]);
        if contains(&l, q) {
            return true;
        }
        i = i + 1;
    }
    false
}

/// The icons that match a query, in their order.
pub fn list_icons(icons: Vec<IconInfo>, query: &Option<String>) -> (r: Vec<IconInfo>)
    ensures
        icons_view(r@) == matching_icons(
            icons_view(icons@),
            query_text(text::opt_text(*query)),
            icons@.len(),
        ),
{
    let raw = match query {
        Some(q) => q.clone(),
        None => String::new(),
    };
    assert(query is None ==> raw@ =~= Seq::empty());
    let t = trim(&raw);
    let q = to_lowercase(&t);
    let ghost all = icons_view(icons@);
    let mut out: Vec<IconInfo> = Vec::new();
    let mut i: usize = 0;
    assert(icons_view(out@) =~= Seq::empty());
    while i < icons.len()
        invariant
            i <= icons@.len(),
            all == icons_view(icons@),
            icons_view(out@) == matching_icons(all, q@, i as nat),
        decreases icons@.len() - i,
    {
        assert(all[i as int] == icons@[i as int]@);
        let name = to_lowercase(&icons[i].name);
        if q.as_str().is_empty() || contains(&name, &q) || any_tag(&icons[i].tags, &q) {
            let ghost before = out@;
            let icon = IconInfo {
                pack_id: icons[i].pack_id.clone(),
                path: icons[i].path.clone(),
                name: icons[i].name.clone(),
                tags: clone_texts(&icons[i].tags),
                resolved_path: icons[i].resolved_path.clone(),
            };
            out.push(icon);
            assert(icons_view(out@) =~= icons_view(before).push(icon@));
        }
        i = i + 1;
    }
    out
}

/// No file of an icon lies outside of its pack, but for those of the host.
pub proof fn law_icons_stay_in_pack(
    entry_path: Seq<char>,
    config_dir: Seq<char>,
    resource_dir: Option<Seq<char>>,
    existing: Seq<Seq<char>>,
    facts: IconFacts,
)
    requires
        icon_file(entry_path, config_dir, resource_dir, existing, facts) is Some,
        !is_host_icon(text::trimmed(entry_path)),
    ensures
        facts.root is Some,
        path::relative_path(
            icon_file(entry_path, config_dir, resource_dir, existing, facts)->0,
            facts.root->0@,
        ) is Some,
{
}

// ---------------------------------------------------------------------------
// Installing
// ---------------------------------------------------------------------------

/// The id of a pack that is installed: the name of its directory in the archive,
/// or else the one that the caller gave, with the ending of a pack.
pub open spec fn installed_pack_id(
    in_archive: Option<Seq<char>>,
    fallback: Option<Seq<char>>,
) -> Option<Seq<char>> {
    match in_archive {
        Some(id) => Some(id),
        None => match fallback {
            Some(id) => if is_pack_name(id) {
                Some(id)
            } else {
                Some(id + ".sdIconPack"@)
            },
            None => None,
        },
    }
}

/// The id of a pack that is installed; `None` where nothing gives one.
pub fn pack_id_for_install(in_archive: &Option<String>, fallback_id: &Option<String>) -> (r: Option<
    String,
>)
    ensures
        text::opt_text(r) == installed_pack_id(
            text::opt_text(*in_archive),
            text::opt_text(*fallback_id),
        ),
{
    match in_archive {
        Some(id) => Some(id.clone()),
        None => match fallback_id {
            Some(id) => if normalize_pack_dir_name(id) {
                Some(id.clone())
            } else {
                Some(concat2(id, ".sdIconPack"))
            },
            None => None,
        },
    }
}

/// Why an archive that was unpacked is no pack.
#[derive(Clone, Copy, PartialEq, Eq, Structural, Debug)]
pub enum PackContentError {
    MissingManifest,
    MissingIndex,
}

/// Checks a pack that was unpacked before it is moved into place.
pub fn check_pack_contents(has_manifest: bool, has_index: bool) -> (r: Result<(), PackContentError>)
    ensures
        r == if !has_manifest {
            Err::<(), PackContentError>(PackContentError::MissingManifest)
        } else if !has_index {
            Err::<(), PackContentError>(PackContentError::MissingIndex)
        } else {
            Ok::<(), PackContentError>(())
        },
{
    if !has_manifest {
        Err(PackContentError::MissingManifest)
    } else if !has_index {
        Err(PackContentError::MissingIndex)
    } else {
        Ok(())
    }
}

/// The pack that a directory is has the name of the directory as its id, what its
/// manifest says as its author and version, and as its name what the manifest says or,
/// where that is blank, its id.
pub proof fn law_pack_is_what_its_manifest_says(e: PackEntry, builtin: bool)
    ensures
        pack_of(e, builtin) is Some <==> e.is_dir && e.manifest is Some && (path::file_name_of(
            e.path@,
        ) matches Some(id) && is_pack_name(id)),
        pack_of(e, builtin) matches Some(p) ==> {
            let m = e.manifest->0;
            &&& path::file_name_of(e.path@) == Some(p.id)
            &&& p.author == m.author@ && p.version == m.version@
            &&& p.root == e.path@ && p.builtin == builtin
            &&& text::trimmed(m.name@).len() > 0 ==> p.name == m.name@
            &&& text::trimmed(m.name@).len() == 0 ==> p.name == p.id
        },
{
}

proof fn lemma_placed_holds(s: Seq<PackView>, p: PackView, x: PackView)
    ensures
        placed(s, p).contains(x) <==> s.contains(x) || x == p,
        placed(s, p).len() == s.len() + 1,
    decreases s.len(),
{
    let r = placed(s, p);
    if s.len() == 0 || text::precedes(order_of(p), order_of(s[0])) {
        assert(r[0] == p);
        if s.contains(x) {
            let i = choose|i: int| 0 <= i < s.len() && s[i] == x;
            assert(r[i + 1] == x);
        }
        if r.contains(x) {
            let i = choose|i: int| 0 <= i < r.len() && r[i] == x;
            if i > 0 {
                assert(s[i - 1] == x);
            }
        }
    } else {
        let t = s.drop_first();
        let q = placed(t, p);
        lemma_placed_holds(t, p, x);
        assert(r[0] == s[0]);
        if s.contains(x) {
            let i = choose|i: int| 0 <= i < s.len() && s[i] == x;
            if i > 0 {
                assert(t[i - 1] == x);
            }
        }
        if q.contains(x) {
            let i = choose|i: int| 0 <= i < q.len() && q[i] == x;
            assert(r[i + 1] == x);
        }
        if r.contains(x) {
            let i = choose|i: int| 0 <= i < r.len() && r[i] == x;
            if i > 0 {
                assert(q[i - 1] == x);
            }
        }
        if t.contains(x) {
            let i = choose|i: int| 0 <= i < t.len() && t[i] == x;
            assert(s[i + 1] == x);
        }
    }
}

proof fn lemma_with_packs(
    s: Seq<PackView>,
    entries: Seq<PackEntry>,
    builtin: bool,
    n: nat,
    x: PackView,
)
    requires
        n <= entries.len(),
    ensures
        with_packs(s, entries, builtin, n).contains(x) <==> s.contains(x) || exists|k: int|
            0 <= k < n && pack_of(#[trigger] entries[k], builtin) == Some(x),
    decreases n,
{
    if n > 0 {
        let m = (n - 1) as nat;
        lemma_with_packs(s, entries, builtin, m, x);
        let before = with_packs(s, entries, builtin, m);
        if let Some(p) = pack_of(entries[m as int], builtin) {
            lemma_placed_holds(before, p, x);
        }
        if exists|k: int| 0 <= k < n && pack_of(#[trigger] entries[k], builtin) == Some(x) {
            let k = choose|k: int|
                0 <= k < n && pack_of(#[trigger] entries[k], builtin) == Some(x);
            if k < m {
                assert(exists|k: int|
                    0 <= k < m && pack_of(#[trigger] entries[k], builtin) == Some(x));
            }
        }
        if exists|k: int| 0 <= k < m && pack_of(#[trigger] entries[k], builtin) == Some(x) {
            let k = choose|k: int|
                0 <= k < m && pack_of(#[trigger] entries[k], builtin) == Some(x);
            assert(pack_of(entries[k], builtin) == Some(x));
        }
    }
}

/// Every pack is listed, be it installed or one that came with the host, and nothing
/// else is.
pub proof fn law_every_pack_is_listed(
    installed: Seq<PackEntry>,
    builtin: Seq<PackEntry>,
    p: PackView,
)
    ensures
        all_packs(installed, builtin).contains(p) <==> (exists|k: int|
            0 <= k < installed.len() && pack_of(#[trigger] installed[k], false) == Some(p)) || (
        exists|k: int|
            0 <= k < builtin.len() && pack_of(#[trigger] builtin[k], true) == Some(p)),
{
    let a = with_packs(Seq::empty(), installed, false, installed.len());
    lemma_with_packs(Seq::empty(), installed, false, installed.len(), p);
    lemma_with_packs(a, builtin, true, builtin.len(), p);
}

/// A pack is found by its id: the first that has it.
pub proof fn law_pack_is_found(s: Seq<PackView>, id: Seq<char>, from: int, k: int)
    requires
        0 <= from <= k <= s.len(),
        forall|j: int| from <= j < k ==> (#[trigger] s[j]).id != id,
        k < s.len() ==> s[k].id == id,
    ensures
        first_pack(s, id, from) == k,
    decreases s.len() - from,
{
    if from < k {
        assert(s[from].id != id);
        law_pack_is_found(s, id, from + 1, k);
    }
}

/// The icons of a pack are those of its index whose files were found, each with its
/// own path, name, tags and file.
pub proof fn law_found_icons_are_of_the_index(
    pack_id: Seq<char>,
    icons: Seq<IconEntry>,
    files: Seq<Option<String>>,
    n: nat,
    k: int,
)
    requires
        0 <= k < n <= icons.len(),
        n <= files.len(),
        files[k] is Some,
    ensures
        found_icons(pack_id, icons, files, n).contains(
            IconView {
                pack_id,
                path: icons[k].path@,
                name: icons[k].name@,
                tags: text::texts(icons[k].tags@),
                resolved_path: files[k]->0@,
            },
        ),
        found_icons(pack_id, icons, files, n).len() <= n,
    decreases n,
{
    let m = (n - 1) as nat;
    let now = found_icons(pack_id, icons, files, n);
    let before = found_icons(pack_id, icons, files, m);
    lemma_found_icons_len(pack_id, icons, files, n);
    let x = IconView {
        pack_id,
        path: icons[k].path@,
        name: icons[k].name@,
        tags: text::texts(icons[k].tags@),
        resolved_path: files[k]->0@,
    };
    if k < m {
        law_found_icons_are_of_the_index(pack_id, icons, files, m, k);
        let t = choose|t: int| 0 <= t < before.len() && before[t] == x;
        assert(now[t] == x);
    } else {
        assert(now[before.len() as int] == x);
    }
}

proof fn lemma_found_icons_len(
    pack_id: Seq<char>,
    icons: Seq<IconEntry>,
    files: Seq<Option<String>>,
    n: nat,
)
    ensures
        found_icons(pack_id, icons, files, n).len() <= n,
    decreases n,
{
    if n > 0 {
        lemma_found_icons_len(pack_id, icons, files, (n - 1) as nat);
    }
}

/// A search keeps, in their order, the icons whose name or one of whose tags holds
/// the query, whatever the case of their letters; an empty query keeps them all.
pub proof fn law_search_keeps_matches(s: Seq<IconView>, q: Seq<char>, n: nat)
    requires
        n <= s.len(),
    ensures
        q.len() == 0 ==> matching_icons(s, q, n) == s.take(n as int),
        q.len() > 0 ==> matching_icons(s, q, n) == s.take(n as int).filter(
            |i: IconView|
                text::contains_text(text::lowercased(i.name), q) || exists|k: int|
                    0 <= k < i.tags.len() && text::contains_text(
                        text::lowercased(#[trigger] i.tags[k]),
                        q,
                    ),
        ),
    decreases n,
{
    reveal(Seq::filter);
    if n > 0 {
        let m = (n - 1) as nat;
        law_search_keeps_matches(s, q, m);
        assert(s.take(n as int).drop_last() =~= s.take(m as int));
        assert(s.take(n as int).last() == s[m as int]);
        assert(s.take(n as int) =~= s.take(m as int).push(s[m as int]));
    } else {
        assert(matching_icons(s, q, n) =~= s.take(0));
    }
}

/// An installed pack has the id of its directory in the archive, and the given one,
/// with the ending of a pack, where the archive has none.
pub proof fn law_installed_pack_id(id: Seq<char>, fallback: Option<Seq<char>>)
    ensures
        installed_pack_id(Some(id), fallback) == Some(id),
        is_pack_name(id) ==> installed_pack_id(None, Some(id)) == Some(id),
        !is_pack_name(id) ==> installed_pack_id(None, Some(id)) == Some(id + ".sdIconPack"@),
        installed_pack_id(None, None) is None,
{
}

} // verus!
