//! Installing, listing and removing plugins.
//!
//! An archive is unpacked into a directory of its own, and the plugin is then
//! moved into place. A plugin that stood there before is set aside meanwhile, and
//! put back where the new one does not start.
use vstd::prelude::*;
use crate::catalogue;
use crate::catalogue::is_web_url;
use crate::marketplace;
use crate::marketplace::Link;
use crate::path;
use crate::path::file_name;
use crate::plugins;
use crate::plugins::{Categories, CategoryView};
use crate::shared;
use crate::shared::{convert_icon, join, Action, ActionView, Category};
use crate::text;
use crate::text::{
    clone_opt, concat2, concat3, contains, decimal_text, ends_with, owned, replace, same_text,
    texts_contain,
};

verus! {

// ---------------------------------------------------------------------------
// Downloading
// ---------------------------------------------------------------------------

/// Why nothing is downloaded.
#[derive(Clone, Copy, PartialEq, Eq, Structural, Debug)]
pub enum DownloadError {
    MissingUrl,
    UnsupportedScheme,
}

/// Checks the address of an archive.
pub fn check_url(url: &Option<String>) -> (r: Result<(), DownloadError>)
    ensures
        r == match *url {
            None => Err::<(), DownloadError>(DownloadError::MissingUrl),
            Some(u) => if catalogue::is_web(u@) {
                Ok::<(), DownloadError>(())
            } else {
                Err::<(), DownloadError>(DownloadError::UnsupportedScheme)
            },
        },
{
    match url {
        None => Err(DownloadError::MissingUrl),
        Some(u) => if is_web_url(u) {
            Ok(())
        } else {
            Err(DownloadError::UnsupportedScheme)
        },
    }
}

/// A host that answers browsers only.
pub open spec fn is_browser_host(host: Option<Seq<char>>) -> bool {
    match host {
        Some(h) => "mp-cdn.elgato.com"@.is_suffix_of(h) || "mp-gateway.elgato.com"@.is_suffix_of(
            h,
        ),
        None => false,
    }
}

/// Whether a link leads to a host that answers browsers only.
pub fn link_needs_browser_headers(link: &Link) -> (r: bool)
    ensures
        r == is_browser_host(link@.host),
{
    match &link.host {
        Some(h) => ends_with(h, "mp-cdn.elgato.com") || ends_with(h, "mp-gateway.elgato.com"),
        None => false,
    }
}

/// Whether an archive is asked for with the headers of a browser.
pub fn needs_browser_headers(url: &str) -> (r: bool)
    ensures
        r == match marketplace::parsed_url(url@) {
            Some(l) => is_browser_host(l.host),
            None => false,
        },
{
    match Link::parse(url) {
        Some(link) => link_needs_browser_headers(&link),
        None => false,
    }
}

/// Whether what was downloaded may be a zip archive: it begins as one does, or
/// is too short to tell.
pub fn may_be_zip(bytes: &[u8]) -> (r: bool)
    ensures
        r == (bytes@.len() < 2 || (bytes@[0] == 80 && bytes@[1] == 75)),
{
    bytes.len() < 2 || (bytes[0] == 80 && bytes[1] == 75)
}

/// The id of a plugin that is installed: the name of its directory in the
/// archive, or else the one that the caller gave, with the ending of a plugin.
pub fn plugin_id_for_install(in_archive: &Option<String>, fallback_id: &Option<String>) -> (r: Option<
    String,
>)
    ensures
        text::opt_text(r) == match *in_archive {
            Some(id) => Some(id@),
            None => match *fallback_id {
                Some(id) => Some(id@ + ".sdPlugin"@),
                None => None,
            },
        },
{
    match in_archive {
        Some(id) => Some(id.clone()),
        None => match fallback_id {
            Some(id) => Some(concat2(id, ".sdPlugin")),
            None => None,
        },
    }
}

// ---------------------------------------------------------------------------
// Finding the plugin in what was unpacked
// ---------------------------------------------------------------------------

/// What an entry of a directory is.
#[derive(Clone, Copy, PartialEq, Eq, Structural, Debug)]
pub enum EntryKind {
    Directory,
    Link,
    Other,
    /// It cannot be looked at.
    Unreadable,
}

/// An entry of a directory, with its own entries where it is one.
pub struct DirTree {
    pub name: String,
    pub kind: EntryKind,
    pub entries: Vec<DirTree>,
}

/// The way to the first directory of a name, among the entries from number
/// `from` on and at most `depth` levels down. Links are not followed, and an
/// entry that cannot be looked at ends the search of its directory.
pub open spec fn way_to(entries: Seq<DirTree>, name: Seq<char>, depth: nat, from: int) -> Option<
    Seq<Seq<char>>,
>
    decreases depth, entries.len() - from,
{
    if depth == 0 || from < 0 || from >= entries.len() {
        None
    } else {
        let e = entries[from];
        match e.kind {
            EntryKind::Unreadable => None,
            EntryKind::Directory => if e.name@ == name {
                Some(seq![e.name@])
            } else {
                match way_to(e.entries@, name, (depth - 1) as nat, 0) {
                    Some(rest) => Some(seq![e.name@] + rest),
                    None => way_to(entries, name, depth, from + 1),
                }
            },
            _ => way_to(entries, name, depth, from + 1),
        }
    }
}

/// The model of a way that there may be.
pub open spec fn opt_way(w: Option<Vec<String>>) -> Option<Seq<Seq<char>>> {
    match w {
        Some(v) => Some(text::texts(v@)),
        None => None,
    }
}

/// The way to the first directory of a name, at most `depth` levels down.
pub fn find_plugin_dir(entries: &Vec<DirTree>, name: &str, depth: usize) -> (r: Option<Vec<String>>)
    ensures
        opt_way(r) == way_to(entries@, name@, depth as nat, 0),
    decreases depth,
{
    if depth == 0 {
        return None;
    }
    let mut i: usize = 0;
    while i < entries.len()
        invariant
            i <= entries@.len(),
            depth > 0,
            way_to(entries@, name@, depth as nat, 0) == way_to(
                entries@,
                name@,
                depth as nat,
                i as int,
            ),
        decreases entries@.len() - i,
    {
        let e = &entries[i];
        match e.kind {
            EntryKind::Unreadable => {
                return None;
            },
            EntryKind::Directory => {
                let mut way: Vec<String> = Vec::new();
                way.push(e.name.clone());
                assert(text::texts(way@) =~= seq![e.name@]);
                if same_text(&e.name, name) {
                    return Some(way);
                }
                match find_plugin_dir(&e.entries, name, depth - 1) {
                    Some(mut rest) => {
                        let ghost tail = text::texts(rest@);
                        let ghost head = text::texts(way@);
                        way.append(&mut rest);
                        assert(text::texts(way@) =~= head + tail);
                        return Some(way);
                    },
                    None => {},
                }
            },
            _ => {},
        }
        i = i + 1;
    }
    None
}

/// The directory that was found has the name that was looked for.
pub proof fn law_found_dir_has_name(
    entries: Seq<DirTree>,
    name: Seq<char>,
    depth: nat,
    from: int,
)
    ensures
        way_to(entries, name, depth, from) matches Some(w) ==> 0 < w.len() <= depth && w.last()
            == name,
    decreases depth, entries.len() - from,
{
    if depth > 0 && 0 <= from < entries.len() {
        law_found_dir_has_name(entries, name, depth, from + 1);
        law_found_dir_has_name(entries[from].entries@, name, (depth - 1) as nat, 0);
        match way_to(entries[from].entries@, name, (depth - 1) as nat, 0) {
            Some(rest) => {
                assert((seq![entries[from].name@] + rest).last() == rest.last());
            },
            None => {},
        }
    }
}

// ---------------------------------------------------------------------------
// The steps of an installation
// ---------------------------------------------------------------------------

/// The directories that an installation works with.
pub struct InstallPaths {
    /// Where plugins are.
    pub parent: String,
    /// Where the plugin goes.
    pub actual: String,
    pub temp_root: String,
    /// Where the archive is unpacked.
    pub extract_root: String,
    /// Where the plugin goes that stood there before.
    pub backup: String,
    /// Where a plugin goes that did not start.
    pub bad: String,
}

/// The model of an `InstallPaths`.
pub struct PathsView {
    pub parent: Seq<char>,
    pub actual: Seq<char>,
    pub temp_root: Seq<char>,
    pub extract_root: Seq<char>,
    pub backup: Seq<char>,
    pub bad: Seq<char>,
}

impl View for InstallPaths {
    type V = PathsView;

    open spec fn view(&self) -> PathsView {
        PathsView {
            parent: self.parent@,
            actual: self.actual@,
            temp_root: self.temp_root@,
            extract_root: self.extract_root@,
            backup: self.backup@,
            bad: self.bad@,
        }
    }
}

/// The name of a directory for one installation by one process.
pub open spec fn temp_name(prefix: Seq<char>, id: Seq<char>, pid: u32) -> Seq<char> {
    prefix + text::replace_char(id, '/', "_"@) + "_"@ + text::decimal(pid as nat)
}

fn make_temp_name(prefix: &str, id: &str, pid: u32) -> (r: String)
    ensures
        r@ == temp_name(prefix@, id@, pid),
{
    let flat = replace(id, '/', "_");
    let number = decimal_text(pid as u64);
    let head = concat3(prefix, &flat, "_");
    let s = concat2(&head, &number);
    assert(s@ =~= temp_name(prefix@, id@, pid));
    s
}

/// The directories that the installation of `id` below `kind` works with. The
/// names of those for a time begin with `tag`.
pub open spec fn paths_for(
    config_dir: Seq<char>,
    kind: Seq<char>,
    tag: Seq<char>,
    id: Seq<char>,
    pid: u32,
) -> PathsView {
    let temp = shared::joined(config_dir, "temp"@);
    PathsView {
        parent: shared::joined(config_dir, kind),
        actual: shared::joined(shared::joined(config_dir, kind), id),
        temp_root: temp,
        extract_root: shared::joined(temp, temp_name("extract_"@ + tag, id, pid)),
        backup: shared::joined(temp, temp_name("backup_"@ + tag, id, pid)),
        bad: shared::joined(temp, temp_name("bad_"@ + tag, id, pid)),
    }
}

/// The directories that an installation works with: below `plugins` with no tag
/// for a plugin, below `icon_packs` with the tag `iconpack_` for an icon pack.
pub fn install_paths(config_dir: &str, kind: &str, tag: &str, id: &str, pid: u32) -> (r: InstallPaths)
    ensures
        r@ == paths_for(config_dir@, kind@, tag@, id@, pid),
{
    let parent = join(config_dir, kind);
    let temp_root = join(config_dir, "temp");
    let extract = concat2("extract_", tag);
    let backup = concat2("backup_", tag);
    let bad = concat2("bad_", tag);
    let extract = make_temp_name(&extract, id, pid);
    let backup = make_temp_name(&backup, id, pid);
    let bad = make_temp_name(&bad, id, pid);
    InstallPaths {
        actual: join(&parent, id),
        parent,
        extract_root: join(&temp_root, &extract),
        backup: join(&temp_root, &backup),
        bad: join(&temp_root, &bad),
        temp_root,
    }
}

/// A step of an installation.
pub enum FileStep {
    /// Makes a directory. The installation fails where this does.
    Create(String),
    /// Removes a directory, if it is there.
    Remove(String),
    /// Moves a directory. The installation fails where this does.
    Rename { from: String, to: String },
    /// Moves a directory, if that can be done.
    TryRename { from: String, to: String },
    /// Moves a directory, or else removes it.
    RenameOrRemove { from: String, to: String },
    /// Starts the plugin in a directory.
    Initialise(String),
}

/// The model of a `FileStep`.
pub enum StepView {
    Create(Seq<char>),
    Remove(Seq<char>),
    Rename { from: Seq<char>, to: Seq<char> },
    TryRename { from: Seq<char>, to: Seq<char> },
    RenameOrRemove { from: Seq<char>, to: Seq<char> },
    Initialise(Seq<char>),
}

impl View for FileStep {
    type V = StepView;

    open spec fn view(&self) -> StepView {
        match self {
            FileStep::Create(p) => StepView::Create(p@),
            FileStep::Remove(p) => StepView::Remove(p@),
            FileStep::Rename { from, to } => StepView::Rename { from: from@, to: to@ },
            FileStep::TryRename { from, to } => StepView::TryRename { from: from@, to: to@ },
            FileStep::RenameOrRemove { from, to } => StepView::RenameOrRemove {
                from: from@,
                to: to@,
            },
            FileStep::Initialise(p) => StepView::Initialise(p@),
        }
    }
}

/// The models of steps.
pub open spec fn steps_view(s: Seq<FileStep>) -> Seq<StepView> {
    s.map_values(|x: FileStep| x@)
}

/// The steps before the archive is unpacked.
pub open spec fn preparation(p: PathsView) -> Seq<StepView> {
    seq![
        StepView::Create(p.temp_root),
        StepView::Remove(p.extract_root),
        StepView::Create(p.extract_root),
    ]
}

/// The steps before the archive is unpacked.
pub fn prepare_steps(p: &InstallPaths) -> (r: Vec<FileStep>)
    ensures
        steps_view(r@) == preparation(p@),
{
    let mut v: Vec<FileStep> = Vec::new();
    v.push(FileStep::Create(p.temp_root.clone()));
    v.push(FileStep::Remove(p.extract_root.clone()));
    v.push(FileStep::Create(p.extract_root.clone()));
    assert(steps_view(v@) =~= preparation(p@));
    v
}

/// The steps that set aside what stands where the new directory goes. `replaces`
/// tells whether something does.
pub open spec fn setting_aside(p: PathsView, replaces: bool) -> Seq<StepView> {
    if replaces {
        seq![StepView::Remove(p.backup), StepView::Rename { from: p.actual, to: p.backup }]
    } else {
        seq![StepView::Remove(p.backup)]
    }
}

/// The steps that set aside what stands where the new directory goes.
pub fn set_aside_steps(p: &InstallPaths, replaces: bool) -> (r: Vec<FileStep>)
    ensures
        steps_view(r@) == setting_aside(p@, replaces),
{
    let mut v: Vec<FileStep> = Vec::new();
    v.push(FileStep::Remove(p.backup.clone()));
    if replaces {
        v.push(FileStep::Rename { from: p.actual.clone(), to: p.backup.clone() });
    }
    assert(steps_view(v@) =~= setting_aside(p@, replaces));
    v
}

/// The steps that move what was found in the archive into place.
pub open spec fn placement(p: PathsView, found: Seq<char>) -> Seq<StepView> {
    seq![StepView::Create(p.parent), StepView::Rename { from: found, to: p.actual }]
}

/// The steps that move what was found into place.
pub fn place_steps(p: &InstallPaths, found: &str) -> (r: Vec<FileStep>)
    ensures
        steps_view(r@) == placement(p@, found@),
{
    let mut v: Vec<FileStep> = Vec::new();
    v.push(FileStep::Create(p.parent.clone()));
    v.push(FileStep::Rename { from: owned(found), to: p.actual.clone() });
    assert(steps_view(v@) =~= placement(p@, found@));
    v
}

/// The steps that put back what was set aside, where the new directory could not
/// be moved into place.
pub open spec fn restoration(p: PathsView, has_backup: bool) -> Seq<StepView> {
    if has_backup {
        seq![
            StepView::Remove(p.actual),
            StepView::TryRename { from: p.backup, to: p.actual },
            StepView::Remove(p.extract_root),
        ]
    } else {
        seq![StepView::Remove(p.actual), StepView::Remove(p.extract_root)]
    }
}

/// The steps that put back what was set aside.
pub fn restore_steps(p: &InstallPaths, has_backup: bool) -> (r: Vec<FileStep>)
    ensures
        steps_view(r@) == restoration(p@, has_backup),
{
    let mut v: Vec<FileStep> = Vec::new();
    v.push(FileStep::Remove(p.actual.clone()));
    if has_backup {
        v.push(FileStep::TryRename { from: p.backup.clone(), to: p.actual.clone() });
    }
    v.push(FileStep::Remove(p.extract_root.clone()));
    assert(steps_view(v@) =~= restoration(p@, has_backup));
    v
}

/// The steps where the new plugin did not start: it is kept aside or removed,
/// and the one before it is put back and started again.
pub open spec fn rollback(p: PathsView, keep: bool, has_backup: bool) -> Seq<StepView> {
    let away = if keep {
        seq![
            StepView::Remove(p.bad),
            StepView::RenameOrRemove { from: p.actual, to: p.bad },
        ]
    } else {
        seq![StepView::Remove(p.actual)]
    };
    let back = if has_backup {
        seq![
            StepView::TryRename { from: p.backup, to: p.actual },
            StepView::Initialise(p.actual),
        ]
    } else {
        Seq::empty()
    };
    away + back + seq![StepView::Remove(p.extract_root)]
}

/// The steps where the new plugin did not start.
pub fn rollback_steps(p: &InstallPaths, keep: bool, has_backup: bool) -> (r: Vec<FileStep>)
    ensures
        steps_view(r@) == rollback(p@, keep, has_backup),
{
    let mut v: Vec<FileStep> = Vec::new();
    if keep {
        v.push(FileStep::Remove(p.bad.clone()));
        v.push(FileStep::RenameOrRemove { from: p.actual.clone(), to: p.bad.clone() });
    } else {
        v.push(FileStep::Remove(p.actual.clone()));
    }
    if has_backup {
        v.push(FileStep::TryRename { from: p.backup.clone(), to: p.actual.clone() });
        v.push(FileStep::Initialise(p.actual.clone()));
    }
    v.push(FileStep::Remove(p.extract_root.clone()));
    assert(steps_view(v@) =~= rollback(p@, keep, has_backup));
    v
}

/// The steps after the new plugin has started.
pub open spec fn completion(p: PathsView) -> Seq<StepView> {
    seq![StepView::Remove(p.backup), StepView::Remove(p.extract_root)]
}

/// The steps after the new plugin has started.
pub fn finish_steps(p: &InstallPaths) -> (r: Vec<FileStep>)
    ensures
        steps_view(r@) == completion(p@),
{
    let mut v: Vec<FileStep> = Vec::new();
    v.push(FileStep::Remove(p.backup.clone()));
    v.push(FileStep::Remove(p.extract_root.clone()));
    assert(steps_view(v@) =~= completion(p@));
    v
}

/// A plugin that did not start is kept for a look at it: its manifest could not be
/// read, or it is not for this platform.
pub open spec fn is_kept(error: Seq<char>) -> bool {
    text::contains_text(error, "unsupported on platform"@) || (text::contains_text(
        error,
        "manifest"@,
    ) && (text::contains_text(error, "encoding"@) || text::contains_text(error, "ELGATO"@)
        || text::contains_text(error, "binary format"@)))
}

/// Whether a plugin that did not start is kept for a look at it.
pub fn keeps_failed_plugin(error: &str) -> (r: bool)
    ensures
        r == is_kept(error@),
{
    contains(error, "unsupported on platform") || (contains(error, "manifest") && (contains(
        error,
        "encoding",
    ) || contains(error, "ELGATO") || contains(error, "binary format")))
}

// ---------------------------------------------------------------------------
// Plugins that are copied into place
// ---------------------------------------------------------------------------

/// A step in which a plugin is copied into place.
pub enum CopyStep {
    /// Makes a directory. The rest is not done where this fails.
    Create(String),
    /// Removes a directory, if it is there.
    Remove(String),
    /// Moves a directory. The rest is not done where this fails.
    Rename { from: String, to: String },
    /// Copies a directory. The rest is not done where this fails.
    Copy { from: String, to: String },
    /// Copies a directory. Where this fails and `old` is there, `old` is moved to
    /// `to` again.
    CopyOrRestore { from: String, to: String, old: String },
}

/// The model of a `CopyStep`.
pub enum CopyView {
    Create(Seq<char>),
    Remove(Seq<char>),
    Rename { from: Seq<char>, to: Seq<char> },
    Copy { from: Seq<char>, to: Seq<char> },
    CopyOrRestore { from: Seq<char>, to: Seq<char>, old: Seq<char> },
}

impl View for CopyStep {
    type V = CopyView;

    open spec fn view(&self) -> CopyView {
        match self {
            CopyStep::Create(p) => CopyView::Create(p@),
            CopyStep::Remove(p) => CopyView::Remove(p@),
            CopyStep::Rename { from, to } => CopyView::Rename { from: from@, to: to@ },
            CopyStep::Copy { from, to } => CopyView::Copy { from: from@, to: to@ },
            CopyStep::CopyOrRestore { from, to, old } => CopyView::CopyOrRestore {
                from: from@,
                to: to@,
                old: old@,
            },
        }
    }
}

/// The models of steps.
pub open spec fn copies_view(s: Seq<CopyStep>) -> Seq<CopyView> {
    s.map_values(|x: CopyStep| x@)
}

/// The steps in which a plugin that came with the host replaces an older one.
pub open spec fn upgrade_copies(source: Seq<char>, existing: Seq<char>, exists: bool) -> Seq<
    CopyView,
> {
    let old = path::with_extension_of(existing, "old"@);
    let aside = if exists {
        seq![CopyView::Rename { from: existing, to: old }]
    } else {
        Seq::empty()
    };
    aside + seq![
        CopyView::CopyOrRestore { from: source, to: existing, old },
        CopyView::Remove(old),
    ]
}

/// The steps in which a plugin that came with the host replaces an older one;
/// `exists` tells whether there is one.
pub fn upgrade_steps(source: &str, existing: &str, exists: bool) -> (r: Vec<CopyStep>)
    requires
        path::file_name_of(existing@) matches Some(name) ==> name.is_suffix_of(existing@),
    ensures
        copies_view(r@) == upgrade_copies(source@, existing@, exists),
{
    let old = path::with_extension(existing, "old");
    let mut v: Vec<CopyStep> = Vec::new();
    if exists {
        v.push(CopyStep::Rename { from: owned(existing), to: old.clone() });
    }
    v.push(
        CopyStep::CopyOrRestore { from: owned(source), to: owned(existing), old: old.clone() },
    );
    v.push(CopyStep::Remove(old));
    assert(copies_view(v@) =~= upgrade_copies(source@, existing@, exists));
    v
}

/// The steps in which a plugin of the workspace is installed.
pub open spec fn workspace_copies(
    source: Seq<char>,
    parent: Seq<char>,
    id: Seq<char>,
    exists: bool,
) -> Seq<CopyView> {
    let to = shared::joined(parent, id);
    let old = path::with_extension_of(to, "old"@);
    let aside = if exists {
        seq![CopyView::Remove(old), CopyView::Rename { from: to, to: old }]
    } else {
        Seq::empty()
    };
    seq![CopyView::Create(parent)] + aside + seq![CopyView::Copy { from: source, to }]
}

/// The steps in which a plugin of the workspace is installed; `exists` tells
/// whether it is installed already.
pub fn install_from_workspace(source: &str, parent: &str, id: &str, exists: bool) -> (r: Vec<
    CopyStep,
>)
    requires
        path::file_name_of(shared::joined(parent@, id@)) matches Some(name) ==> name.is_suffix_of(
            shared::joined(parent@, id@),
        ),
    ensures
        copies_view(r@) == workspace_copies(source@, parent@, id@, exists),
{
    let to = join(parent, id);
    let old = path::with_extension(&to, "old");
    let mut v: Vec<CopyStep> = Vec::new();
    v.push(CopyStep::Create(owned(parent)));
    if exists {
        v.push(CopyStep::Remove(old.clone()));
        v.push(CopyStep::Rename { from: to.clone(), to: old });
    }
    v.push(CopyStep::Copy { from: owned(source), to });
    assert(copies_view(v@) =~= workspace_copies(source@, parent@, id@, exists));
    v
}

// ---------------------------------------------------------------------------
// Listing
// ---------------------------------------------------------------------------

/// A plugin that is installed.
pub struct PluginInfo {
    pub id: String,
    pub name: String,
    pub author: String,
    pub icon: String,
    pub version: String,
    pub has_settings_interface: bool,
    /// Whether it came with the host.
    pub builtin: bool,
    /// Whether it has connected.
    pub registered: bool,
}

/// The model of a `PluginInfo`.
pub struct InfoView {
    pub id: Seq<char>,
    pub name: Seq<char>,
    pub author: Seq<char>,
    pub icon: Seq<char>,
    pub version: Seq<char>,
    pub has_settings_interface: bool,
    pub builtin: bool,
    pub registered: bool,
}

impl View for PluginInfo {
    type V = InfoView;

    open spec fn view(&self) -> InfoView {
        InfoView {
            id: self.id@,
            name: self.name@,
            author: self.author@,
            icon: self.icon@,
            version: self.version@,
            has_settings_interface: self.has_settings_interface,
            builtin: self.builtin,
            registered: self.registered,
        }
    }
}

/// The models of plugins.
pub open spec fn infos_view(s: Seq<PluginInfo>) -> Seq<InfoView> {
    s.map_values(|i: PluginInfo| i@)
}

/// What the manifest of a plugin says of it.
pub struct ManifestSummary {
    pub name: String,
    pub author: String,
    pub icon: String,
    pub version: String,
    pub has_settings_interface: Option<bool>,
}

/// An entry of the directory of plugins.
pub struct PluginEntry {
    /// Where the entry is, or where it leads to as a link.
    pub path: String,
    /// It does not lead out of the directory of plugins.
    pub inside: bool,
    pub is_dir: bool,
    /// Its manifest, where it can be read.
    pub manifest: Option<ManifestSummary>,
    /// Those variants of its icon that exist.
    pub icons: Vec<String>,
}

/// The plugin that an entry is.
pub open spec fn info_of(e: PluginEntry, builtins: Seq<Seq<char>>, registered: Seq<Seq<char>>) -> Option<
    InfoView,
> {
    match e.manifest {
        Some(m) => if e.inside && e.is_dir {
            let id = path::file_name_of(e.path@)->0;
            Some(
                InfoView {
                    id,
                    name: m.name@,
                    author: m.author@,
                    icon: shared::icon_file(
                        shared::joined(e.path@, m.icon@),
                        text::texts(e.icons@),
                    ),
                    version: m.version@,
                    has_settings_interface: m.has_settings_interface == Some(true),
                    builtin: builtins.contains(id),
                    registered: registered.contains(id),
                },
            )
        } else {
            None
        },
        None => None,
    }
}

/// The plugins among the first `n` entries.
pub open spec fn installed_plugins(
    entries: Seq<PluginEntry>,
    builtins: Seq<Seq<char>>,
    registered: Seq<Seq<char>>,
    n: nat,
) -> Seq<InfoView>
    decreases n,
{
    if n == 0 || n > entries.len() {
        Seq::empty()
    } else {
        let rest = installed_plugins(entries, builtins, registered, (n - 1) as nat);
        match info_of(entries[n - 1], builtins, registered) {
            Some(i) => rest.push(i),
            None => rest,
        }
    }
}

/// The plugins that are installed, given the entries of their directory, the ids
/// of those that came with the host, and of those that have connected.
pub fn list_plugins(entries: &Vec<PluginEntry>, builtins: &Vec<String>, registered: &Vec<String>) -> (r:
    Vec<PluginInfo>)
    requires
        forall|i: int|
            0 <= i < entries@.len() && (#[trigger] entries@[i]).is_dir ==> path::file_name_of(
                entries@[i].path@,
            ) is Some,
    ensures
        infos_view(r@) == installed_plugins(
            entries@,
            text::texts(builtins@),
            text::texts(registered@),
            entries@.len(),
        ),
{
    let mut out: Vec<PluginInfo> = Vec::new();
    let mut i: usize = 0;
    assert(infos_view(out@) =~= Seq::empty());
    while i < entries.len()
        invariant
            i <= entries@.len(),
            forall|k: int|
                0 <= k < entries@.len() && (#[trigger] entries@[k]).is_dir ==> path::file_name_of(
                    entries@[k].path@,
                ) is Some,
            infos_view(out@) == installed_plugins(
                entries@,
                text::texts(builtins@),
                text::texts(registered@),
                i as nat,
            ),
        decreases entries@.len() - i,
    {
        let e = &entries[i];
        match (&e.manifest, file_name(&e.path)) {
            (Some(m), Some(id)) => {
                if e.inside && e.is_dir {
                    let icon_path = join(&e.path, &m.icon);
                    let settings = match m.has_settings_interface {
                        Some(b) => b,
                        None => false,
                    };
                    let ghost before = out@;
                    let info = PluginInfo {
                        name: m.name.clone(),
                        author: m.author.clone(),
                        icon: convert_icon(&icon_path, &e.icons),
                        version: m.version.clone(),
                        has_settings_interface: settings,
                        builtin: texts_contain(builtins, &id),
                        registered: texts_contain(registered, &id),
                        id,
                    };
                    out.push(info);
                    assert(infos_view(out@) =~= infos_view(before).push(info@));
                }
            },
            _ => {},
        }
        i = i + 1;
    }
    out
}

// ---------------------------------------------------------------------------
// Removing
// ---------------------------------------------------------------------------

/// The actions among the first `n` that are not of a plugin.
pub open spec fn without_plugin(s: Seq<ActionView>, plugin: Seq<char>, n: nat) -> Seq<ActionView>
    decreases n,
{
    if n == 0 || n > s.len() {
        Seq::empty()
    } else {
        let rest = without_plugin(s, plugin, (n - 1) as nat);
        if s[n - 1].plugin != plugin {
            rest.push(s[n - 1])
        } else {
            rest
        }
    }
}

/// The categories among the first `n` without the actions of a plugin. Those
/// that have none left go.
pub open spec fn categories_without(
    s: Seq<(Seq<char>, CategoryView)>,
    plugin: Seq<char>,
    n: nat,
) -> Seq<(Seq<char>, CategoryView)>
    decreases n,
{
    if n == 0 || n > s.len() {
        Seq::empty()
    } else {
        let rest = categories_without(s, plugin, (n - 1) as nat);
        let left = without_plugin(s[n - 1].1.actions, plugin, s[n - 1].1.actions.len());
        if left.len() > 0 {
            rest.push((s[n - 1].0, CategoryView { actions: left, ..s[n - 1].1 }))
        } else {
            rest
        }
    }
}

fn retain_actions(actions: &Vec<Action>, plugin: &str) -> (r: Vec<Action>)
    ensures
        shared::actions_view(r@) == without_plugin(
            shared::actions_view(actions@),
            plugin@,
            actions@.len(),
        ),
{
    let ghost all = shared::actions_view(actions@);
    let mut out: Vec<Action> = Vec::new();
    let mut i: usize = 0;
    assert(shared::actions_view(out@) =~= Seq::empty());
    while i < actions.len()
        invariant
            i <= actions@.len(),
            all == shared::actions_view(actions@),
            shared::actions_view(out@) == without_plugin(all, plugin@, i as nat),
        decreases actions@.len() - i,
    {
        assert(all[i as int] == actions@[i as int]@);
        if !same_text(&actions[i].plugin, plugin) {
            let ghost before = out@;
            let a = actions[i].copy();
            out.push(a);
            assert(shared::actions_view(out@) =~= shared::actions_view(before).push(a@));
        }
        i = i + 1;
    }
    out
}

/// Takes the actions of a plugin that is removed out of the categories.
pub fn remove_plugin(categories: &mut Categories, id: &str)
    ensures
        final(categories)@ == categories_without(old(categories)@, id@, old(categories)@.len()),
{
    let ghost all = categories@;
    let mut out: Vec<(String, Category)> = Vec::new();
    let mut k: usize = 0;
    let ghost view_of = |c: (String, Category)| (c.0@, plugins::category_view(c.1));
    assert(out@.map_values(view_of) =~= Seq::empty());
    while k < categories.list.len()
        invariant
            k <= categories.list@.len(),
            all == categories@,
            all == categories.list@.map_values(view_of),
            view_of == (|c: (String, Category)| (c.0@, plugins::category_view(c.1))),
            out@.map_values(view_of) == categories_without(all, id@, k as nat),
        decreases categories.list@.len() - k,
    {
        assert(all[k as int] == view_of(categories.list@[k as int]));
        let c = &categories.list[k];
        let left = retain_actions(&c.1.actions, id);
        assert(shared::actions_view(left@).len() == left@.len());
        if left.len() > 0 {
            let ghost before = out@;
            let entry = (c.0.clone(), Category { icon: clone_opt(&c.1.icon), actions: left });
            out.push(entry);
            assert(out@.map_values(view_of) =~= before.map_values(view_of).push(view_of(entry)));
        }
        k = k + 1;
    }
    categories.list = out;
    assert(categories@ =~= out@.map_values(view_of));
}

/// The files of a plugin that go with it: its directory, its log and its global
/// settings.
pub fn plugin_files(config_dir: &str, log_dir: &str, id: &str) -> (r: (String, String, String))
    ensures
        r.0@ == shared::joined(shared::joined(config_dir@, "plugins"@), id@),
        r.1@ == shared::joined(shared::joined(log_dir@, "plugins"@), id@ + ".log"@),
        r.2@ == shared::joined(shared::joined(config_dir@, "settings"@), id@ + ".json"@),
{
    let dir = join(config_dir, "plugins");
    let logs = join(log_dir, "plugins");
    let settings = join(config_dir, "settings");
    let log_name = concat2(id, ".log");
    let settings_name = concat2(id, ".json");
    (join(&dir, id), join(&logs, &log_name), join(&settings, &settings_name))
}

proof fn lemma_without_plugin(s: Seq<ActionView>, plugin: Seq<char>, n: nat)
    ensures
        forall|i: int|
            0 <= i < without_plugin(s, plugin, n).len() ==> (#[trigger] without_plugin(
                s,
                plugin,
                n,
            )[i]).plugin != plugin,
    decreases n,
{
    if 0 < n <= s.len() {
        lemma_without_plugin(s, plugin, (n - 1) as nat);
        let rest = without_plugin(s, plugin, (n - 1) as nat);
        let all = without_plugin(s, plugin, n);
        assert forall|i: int| 0 <= i < all.len() implies (#[trigger] all[i]).plugin != plugin by {
            if i < rest.len() {
                assert(all[i] == rest[i]);
            }
        }
    }
}

/// After a plugin was removed no action of it is listed, and no category is
/// empty.
pub proof fn law_removed_plugin_is_gone(
    s: Seq<(Seq<char>, CategoryView)>,
    plugin: Seq<char>,
    n: nat,
)
    ensures
        forall|k: int|
            0 <= k < categories_without(s, plugin, n).len() ==> {
                let a = (#[trigger] categories_without(s, plugin, n)[k]).1.actions;
                a.len() > 0 && forall|i: int|
                    0 <= i < a.len() ==> (#[trigger] a[i]).plugin != plugin
            },
    decreases n,
{
    if 0 < n <= s.len() {
        law_removed_plugin_is_gone(s, plugin, (n - 1) as nat);
        lemma_without_plugin(s[n - 1].1.actions, plugin, s[n - 1].1.actions.len());
        let rest = categories_without(s, plugin, (n - 1) as nat);
        let all = categories_without(s, plugin, n);
        assert forall|k: int| 0 <= k < all.len() implies {
            let a = (#[trigger] all[k]).1.actions;
            a.len() > 0 && forall|i: int| 0 <= i < a.len() ==> (#[trigger] a[i]).plugin != plugin
        } by {
            if k < rest.len() {
                assert(all[k] == rest[k]);
            }
        }
    }
}

/// An entry of the plugins directory is a plugin exactly where it is a directory inside
/// it with a manifest, and is listed with what the manifest says.
pub proof fn law_listed_plugin_is_what_its_manifest_says(
    e: PluginEntry,
    builtins: Seq<Seq<char>>,
    registered: Seq<Seq<char>>,
)
    ensures
        info_of(e, builtins, registered) is Some <==> e.manifest is Some && e.inside && e.is_dir,
        info_of(e, builtins, registered) matches Some(i) ==> {
            let m = e.manifest->0;
            &&& i.name == m.name@ && i.author == m.author@ && i.version == m.version@
            &&& i.id == path::file_name_of(e.path@)->0
            &&& i.builtin <==> builtins.contains(i.id)
            &&& i.registered <==> registered.contains(i.id)
            &&& i.has_settings_interface <==> m.has_settings_interface == Some(true)
            &&& i.icon == shared::icon_file(
                shared::joined(e.path@, m.icon@),
                text::texts(e.icons@),
            )
        },
{
}

/// Every plugin is listed, and nothing else is.
pub proof fn law_every_plugin_is_listed(
    entries: Seq<PluginEntry>,
    builtins: Seq<Seq<char>>,
    registered: Seq<Seq<char>>,
    n: nat,
    i: InfoView,
)
    requires
        n <= entries.len(),
    ensures
        installed_plugins(entries, builtins, registered, n).contains(i) <==> exists|k: int|
            0 <= k < n && info_of(#[trigger] entries[k], builtins, registered) == Some(i),
    decreases n,
{
    let now = installed_plugins(entries, builtins, registered, n);
    if n > 0 {
        let m = (n - 1) as nat;
        law_every_plugin_is_listed(entries, builtins, registered, m, i);
        let before = installed_plugins(entries, builtins, registered, m);
        if now.contains(i) {
            let t = choose|t: int| 0 <= t < now.len() && now[t] == i;
            if t < before.len() {
                assert(before[t] == i);
                let k = choose|k: int|
                    0 <= k < m && info_of(#[trigger] entries[k], builtins, registered) == Some(i);
                assert(info_of(entries[k], builtins, registered) == Some(i));
            } else {
                assert(info_of(entries[m as int], builtins, registered) == Some(i));
            }
        }
        if exists|k: int|
            0 <= k < n && info_of(#[trigger] entries[k], builtins, registered) == Some(i) {
            let k = choose|k: int|
                0 <= k < n && info_of(#[trigger] entries[k], builtins, registered) == Some(i);
            if k < m {
                let t = choose|t: int| 0 <= t < before.len() && before[t] == i;
                assert(now[t] == i);
            } else {
                assert(now[before.len() as int] == i);
            }
        }
    }
}

/// Removing a plugin leaves the actions of the others, in their order.
pub proof fn law_actions_of_others_stay(s: Seq<ActionView>, plugin: Seq<char>, n: nat)
    requires
        n <= s.len(),
    ensures
        without_plugin(s, plugin, n) == s.take(n as int).filter(
            |a: ActionView| a.plugin != plugin,
        ),
    decreases n,
{
    reveal(Seq::filter);
    if n > 0 {
        let m = (n - 1) as nat;
        law_actions_of_others_stay(s, plugin, m);
        assert(s.take(n as int).drop_last() =~= s.take(m as int));
        assert(s.take(n as int).last() == s[m as int]);
    }
}

/// A category with an action of another plugin stays when a plugin is removed, with
/// its name, its icon and the actions of the others.
pub proof fn law_categories_of_others_stay(
    s: Seq<(Seq<char>, CategoryView)>,
    plugin: Seq<char>,
    n: nat,
    k: int,
    j: int,
)
    requires
        0 <= k < n <= s.len(),
        0 <= j < s[k].1.actions.len(),
        s[k].1.actions[j].plugin != plugin,
    ensures
        exists|t: int|
            0 <= t < categories_without(s, plugin, n).len() && (#[trigger] categories_without(
                s,
                plugin,
                n,
            )[t]).0 == s[k].0 && categories_without(s, plugin, n)[t].1.icon == s[k].1.icon
                && categories_without(s, plugin, n)[t].1.actions == s[k].1.actions.filter(
                |a: ActionView| a.plugin != plugin,
            ),
    decreases n,
{
    let m = (n - 1) as nat;
    let now = categories_without(s, plugin, n);
    let before = categories_without(s, plugin, m);
    if k < m {
        law_categories_of_others_stay(s, plugin, m, k, j);
        let t = choose|t: int|
            0 <= t < before.len() && (#[trigger] before[t]).0 == s[k].0 && before[t].1.icon
                == s[k].1.icon && before[t].1.actions == s[k].1.actions.filter(
                |a: ActionView| a.plugin != plugin,
            );
        assert(now[t] == before[t]);
    } else {
        let actions = s[k].1.actions;
        let others = |a: ActionView| a.plugin != plugin;
        law_actions_of_others_stay(actions, plugin, actions.len());
        assert(actions.take(actions.len() as int) =~= actions);
        let left = without_plugin(actions, plugin, actions.len());
        assert(left == actions.filter(others));
        broadcast use vstd::seq_lib::group_filter_ensures;

        assert(actions.filter(others).contains(actions[j]));
        assert(left.len() > 0);
        assert(now[before.len() as int].1.actions == left);
    }
}

/// A bundled plugin that replaces an older one: the older one is set aside first, where
/// there is one, the new one is copied to its place, and what was set aside is removed
/// last.
pub proof fn law_upgrade_sets_aside_first(source: Seq<char>, existing: Seq<char>)
    ensures
        ({
            let old = path::with_extension_of(existing, "old"@);
            let steps = upgrade_copies(source, existing, true);
            let fresh = upgrade_copies(source, existing, false);
            &&& steps.len() == 3
            &&& steps[0] == CopyView::Rename { from: existing, to: old }
            &&& steps[1] == CopyView::CopyOrRestore { from: source, to: existing, old }
            &&& steps[2] == CopyView::Remove(old)
            &&& fresh.len() == 2
            &&& fresh == steps.skip(1)
        }),
{
    assert(upgrade_copies(source, existing, false) =~= upgrade_copies(
        source,
        existing,
        true,
    ).skip(1));
}

/// A plugin of the workspace is copied below the plugins directory last, after what
/// stood there was set aside.
pub proof fn law_workspace_plugin_is_copied(
    source: Seq<char>,
    parent: Seq<char>,
    id: Seq<char>,
    exists: bool,
)
    ensures
        ({
            let to = shared::joined(parent, id);
            let steps = workspace_copies(source, parent, id, exists);
            &&& steps[0] == CopyView::Create(parent)
            &&& steps.last() == CopyView::Copy { from: source, to }
            &&& exists ==> steps.len() == 4 && steps[2] == CopyView::Rename {
                from: to,
                to: path::with_extension_of(to, "old"@),
            } && steps[1] == CopyView::Remove(path::with_extension_of(to, "old"@))
            &&& !exists ==> steps.len() == 2
        }),
{
}

/// The first directory of the wanted name is found where only files stand before it.
pub proof fn law_directory_is_found(
    entries: Seq<DirTree>,
    name: Seq<char>,
    depth: nat,
    from: int,
    k: int,
)
    requires
        0 <= from <= k < entries.len(),
        depth > 0,
        entries[k].kind is Directory,
        entries[k].name@ == name,
        forall|j: int|
            from <= j < k ==> !((#[trigger] entries[j]).kind is Directory) && !(entries[j].kind
                is Unreadable),
    ensures
        way_to(entries, name, depth, from) == Some(seq![name]),
    decreases k - from,
{
    if from < k {
        assert(!(entries[from].kind is Directory));
        law_directory_is_found(entries, name, depth, from + 1, k);
    }
}

/// What is installed comes to its own directory below its kind's, and everything that
/// is there for a time lies in the directory for such.
pub proof fn law_install_directories(
    config_dir: Seq<char>,
    kind: Seq<char>,
    tag: Seq<char>,
    id: Seq<char>,
    pid: u32,
)
    requires
        config_dir.len() > 0,
        config_dir.last() != '/',
        path::is_plain(kind),
        path::is_plain(id),
    ensures
        ({
            let p = paths_for(config_dir, kind, tag, id, pid);
            &&& p.parent == config_dir + seq!['/'] + kind
            &&& p.actual == config_dir + seq!['/'] + kind + seq!['/'] + id
            &&& p.temp_root == config_dir + seq!['/'] + "temp"@
            &&& p.extract_root == p.temp_root + seq!['/'] + temp_name("extract_"@ + tag, id, pid)
            &&& p.backup == p.temp_root + seq!['/'] + temp_name("backup_"@ + tag, id, pid)
            &&& p.bad == p.temp_root + seq!['/'] + temp_name("bad_"@ + tag, id, pid)
        }),
{
    reveal_strlit("temp");
    reveal_strlit("extract_");
    reveal_strlit("backup_");
    reveal_strlit("bad_");
    text::lemma_split_on_none("temp"@, '/');
    assert(path::is_plain("temp"@));
    path::law_joined_path_is_relative(config_dir, kind);
    path::law_joined_path_is_relative(config_dir, "temp"@);
    path::lemma_plain_joined(kind, id);
    let dir = config_dir + seq!['/'] + kind;
    assert(dir.last() == kind.last());
    path::law_joined_path_is_relative(dir, id);
    let temp = config_dir + seq!['/'] + "temp"@;
    assert(temp.last() == 'p');
    assert(temp_name("extract_"@ + tag, id, pid)[0] == 'e');
    assert(temp_name("backup_"@ + tag, id, pid)[0] == 'b');
    assert(temp_name("bad_"@ + tag, id, pid)[0] == 'b');
}

/// A download from the marketplace's own hosts is left to a browser, and no other is.
pub proof fn law_browser_hosts(host: Seq<char>, sub: Seq<char>)
    ensures
        is_browser_host(Some(sub + "mp-cdn.elgato.com"@)),
        is_browser_host(Some(sub + "mp-gateway.elgato.com"@)),
        !is_browser_host(None),
        is_browser_host(Some(host)) ==> "mp-cdn.elgato.com"@.is_suffix_of(host)
            || "mp-gateway.elgato.com"@.is_suffix_of(host),
{
    let a = sub + "mp-cdn.elgato.com"@;
    let b = sub + "mp-gateway.elgato.com"@;
    let m = "mp-cdn.elgato.com"@.len();
    let n = "mp-gateway.elgato.com"@.len();
    assert(a.subrange(a.len() - m, a.len() as int) =~= "mp-cdn.elgato.com"@);
    assert(b.subrange(b.len() - n, b.len() as int) =~= "mp-gateway.elgato.com"@);
}

/// A plugin that did not start is kept for a look at it where it is for another platform
/// or its manifest is in a form that cannot be read.
pub proof fn law_kept_for_a_look(a: Seq<char>, b: Seq<char>, c: Seq<char>)
    ensures
        is_kept(a + "unsupported on platform"@ + b),
        is_kept(a + "manifest"@ + b + "encoding"@ + c),
        is_kept(a + "manifest"@ + b + "ELGATO"@ + c),
        is_kept(a + "manifest"@ + b + "binary format"@ + c),
{
    text::law_contained_text(a, "unsupported on platform"@, b, a);
    lemma_holds_both(a, "manifest"@, b, "encoding"@, c);
    lemma_holds_both(a, "manifest"@, b, "ELGATO"@, c);
    lemma_holds_both(a, "manifest"@, b, "binary format"@, c);
}

proof fn lemma_holds_both(
    a: Seq<char>,
    first: Seq<char>,
    b: Seq<char>,
    second: Seq<char>,
    c: Seq<char>,
)
    ensures
        text::contains_text(a + first + b + second + c, first),
        text::contains_text(a + first + b + second + c, second),
{
    let s = a + first + b + second + c;
    text::law_contained_text(a, first, b + second + c, a);
    assert(s =~= a + first + (b + second + c));
    text::law_contained_text(a + first + b, second, c, a);
}

} // verus!
