//! Plugin manifests, and manifests made up from the files of a plugin whose own
//! manifest cannot be read.
use vstd::prelude::*;
use crate::json;
use crate::json::{get_str, parse_json, Json, JsonView};
use crate::picture;
use crate::picture::read_file;
use crate::shared;
use crate::shared::{Action, ActionState, ActionView, StateView};
use crate::text;
use crate::text::{
    chars_of, concat2, concat3, contains, contains_char, ends_with, owned, replace, same_text,
    split, starts_with, strip_suffix, text_of_range, texts_contain, to_lowercase,
};

verus! {

/// An operating system that a plugin supports.
pub struct OS {
    pub platform: String,
}

/// The manifest of a plugin.
pub struct PluginManifest {
    pub name: String,
    pub author: String,
    pub version: String,
    pub icon: String,
    pub category: String,
    pub category_icon: Option<String>,
    pub actions: Vec<Action>,
    pub os: Vec<OS>,
    pub code_path: Option<String>,
    /// The code path of each target triple.
    pub code_paths: Option<Vec<(String, String)>>,
    pub code_path_windows: Option<String>,
    pub code_path_macos: Option<String>,
    pub code_path_linux: Option<String>,
    pub property_inspector_path: Option<String>,
    pub device_namespace: Option<String>,
    /// The applications to watch on each platform.
    pub applications_to_monitor: Option<Vec<(String, Vec<String>)>>,
    pub has_settings_interface: Option<bool>,
}

/// The platforms of supported operating systems.
pub open spec fn platforms(os: Seq<OS>) -> Seq<Seq<char>> {
    os.map_values(|o: OS| o.platform@)
}

// ---------------------------------------------------------------------------
// What is known of the files of a plugin
// ---------------------------------------------------------------------------

/// The platform that the application runs on.
#[derive(Clone, Copy, PartialEq, Eq, Structural, Debug)]
pub enum Platform {
    Linux,
    MacOs,
    Windows,
}

/// The files of a plugin.
pub struct Bundle {
    /// The name of the plugin's directory.
    pub plugin_id: Option<String>,
    /// The English localization, where there is one.
    pub localization: Option<Json>,
    /// The names in the directory, in the order in which they are listed.
    pub root_names: Vec<String>,
    /// The files that exist, relative to the directory.
    pub files: Vec<String>,
    /// Those of the files that are pictures which stand in for others.
    pub placeholders: Vec<String>,
    /// What the `file` program says of a file without extension, where it says
    /// anything.
    pub kinds: Vec<(String, String)>,
}

/// The model of a `Bundle`.
pub struct BundleView {
    pub plugin_id: Option<Seq<char>>,
    pub localization: JsonView,
    pub root_names: Seq<Seq<char>>,
    pub files: Seq<Seq<char>>,
    pub placeholders: Seq<Seq<char>>,
    pub kinds: Seq<(Seq<char>, Seq<char>)>,
}

impl View for Bundle {
    type V = BundleView;

    open spec fn view(&self) -> BundleView {
        BundleView {
            plugin_id: text::opt_text(self.plugin_id),
            localization: match self.localization {
                Some(j) => j@,
                None => JsonView::Object(Seq::empty()),
            },
            root_names: text::texts(self.root_names@),
            files: text::texts(self.files@),
            placeholders: text::texts(self.placeholders@),
            kinds: self.kinds@.map_values(|k: (String, String)| (k.0@, k.1@)),
        }
    }
}

/// A picture that stands in for one that a plugin draws itself: a PNG of less than
/// 300 bytes with a single channel.
pub open spec fn stands_in(name: Seq<char>, bytes: Seq<u8>) -> bool {
    ".png"@.is_suffix_of(name) && bytes.len() < 300 && picture::png_channels(bytes) == Some(1u8)
}

/// Whether a file is a picture that stands in for one that a plugin draws itself.
pub fn is_placeholder(name: &str, bytes: &[u8]) -> (r: bool)
    ensures
        r == (".png"@.is_suffix_of(name@) && bytes@.len() < 300 && picture::png_channels(bytes@)
            == Some(1u8)),
{
    if !ends_with(name, ".png") || bytes.len() >= 300 {
        return false;
    }
    match read_file(bytes, "png") {
        Some(p) => p.channels == 1,
        None => false,
    }
}

/// A file of a plugin, by its path in the directory of the plugin.
pub struct BundleFile {
    pub path: String,
    pub bytes: Vec<u8>,
}

/// The models of files.
pub open spec fn files_view(s: Seq<BundleFile>) -> Seq<(Seq<char>, Seq<u8>)> {
    s.map_values(|f: BundleFile| (f.path@, f.bytes@))
}

/// The paths of the pictures among the first `n` files that stand in for others.
pub open spec fn placeholder_paths(s: Seq<(Seq<char>, Seq<u8>)>, n: nat) -> Seq<Seq<char>>
    decreases n,
{
    if n == 0 || n > s.len() {
        Seq::empty()
    } else {
        let before = placeholder_paths(s, (n - 1) as nat);
        if stands_in(s[n - 1].0, s[n - 1].1) {
            before.push(s[n - 1].0)
        } else {
            before
        }
    }
}

/// The paths of the pictures that stand in for others.
pub fn find_placeholders(files: &Vec<BundleFile>) -> (r: Vec<String>)
    ensures
        text::texts(r@) == placeholder_paths(files_view(files@), files@.len()),
{
    let ghost all = files_view(files@);
    let mut out: Vec<String> = Vec::new();
    let mut i: usize = 0;
    assert(text::texts(out@) =~= Seq::<Seq<char>>::empty());
    while i < files.len()
        invariant
            i <= files@.len(),
            all == files_view(files@),
            text::texts(out@) == placeholder_paths(all, i as nat),
        decreases files@.len() - i,
    {
        assert(all[i as int] == (files@[i as int].path@, files@[i as int].bytes@));
        if is_placeholder(&files[i].path, &files[i].bytes) {
            let ghost before = out@;
            out.push(files[i].path.clone());
            assert(text::texts(out@) =~= text::texts(before).push(all[i as int].0));
        }
        i = i + 1;
    }
    out
}

/// What was read of a plugin whose manifest is protected.
pub struct BundleContents {
    /// The name of the plugin's directory.
    pub plugin_id: Option<String>,
    /// The bytes of the English localization, where there is one.
    pub localization: Option<Vec<u8>>,
    /// The names in the directory, in the order in which they are listed.
    pub root_names: Vec<String>,
    /// The files that exist, relative to the directory.
    pub files: Vec<String>,
    /// The bytes of those of the files that are PNG pictures.
    pub pictures: Vec<BundleFile>,
    /// What the `file` program says of a file without extension, where it says
    /// anything.
    pub kinds: Vec<(String, String)>,
}

/// The files of a plugin as they were read; `None` where the localization is not
/// JSON.
pub open spec fn bundle_of(c: BundleContents) -> Option<BundleView> {
    let localization = match c.localization {
        Some(bytes) => json::parsed_json(bytes@),
        None => Some(JsonView::Object(Seq::empty())),
    };
    match localization {
        Some(j) => Some(
            BundleView {
                plugin_id: text::opt_text(c.plugin_id),
                localization: j,
                root_names: text::texts(c.root_names@),
                files: text::texts(c.files@),
                placeholders: placeholder_paths(files_view(c.pictures@), c.pictures@.len()),
                kinds: c.kinds@.map_values(|k: (String, String)| (k.0@, k.1@)),
            },
        ),
        None => None,
    }
}

/// Takes up what was read of a plugin; `None` where its localization is not JSON.
pub fn read_bundle(c: BundleContents) -> (r: Option<Bundle>)
    ensures
        (match r {
            Some(b) => Some(b@),
            None => None,
        }) == bundle_of(c),
{
    let placeholders = find_placeholders(&c.pictures);
    let localization = match &c.localization {
        Some(bytes) => match parse_json(bytes) {
            Some(j) => Some(j),
            None => {
                return None;
            },
        },
        None => None,
    };
    Some(
        Bundle {
            plugin_id: c.plugin_id,
            localization,
            root_names: c.root_names,
            files: c.files,
            placeholders,
            kinds: c.kinds,
        },
    )
}

/// What the `file` program says of a file, in lower case; empty where it says
/// nothing.
pub open spec fn kind_of(kinds: Seq<(Seq<char>, Seq<char>)>, file: Seq<char>) -> Seq<char>
    decreases kinds.len(),
{
    if kinds.len() == 0 {
        text::lowercased(Seq::empty())
    } else if kinds[0].0 == file {
        text::lowercased(kinds[0].1)
    } else {
        kind_of(kinds.drop_first(), file)
    }
}

fn find_kind(kinds: &Vec<(String, String)>, file: &str) -> (r: String)
    ensures
        r@ == kind_of(kinds@.map_values(|k: (String, String)| (k.0@, k.1@)), file@),
{
    let ghost all = kinds@.map_values(|k: (String, String)| (k.0@, k.1@));
    let mut i: usize = 0;
    assert(all.skip(0) =~= all);
    while i < kinds.len()
        invariant
            i <= kinds@.len(),
            all == kinds@.map_values(|k: (String, String)| (k.0@, k.1@)),
            kind_of(all, file@) == kind_of(all.skip(i as int), file@),
        decreases kinds@.len() - i,
    {
        assert(all.skip(i as int)[0] == (kinds@[i as int].0@, kinds@[i as int].1@));
        assert(all.skip(i as int).drop_first() =~= all.skip(i + 1));
        if same_text(&kinds[i].0, file) {
            return to_lowercase(&kinds[i].1);
        }
        i = i + 1;
    }
    assert(all.skip(i as int).len() == 0);
    let none = String::new();
    to_lowercase(&none)
}

/// The first of `candidates` that is among `files`.
pub open spec fn first_existing(candidates: Seq<Seq<char>>, files: Seq<Seq<char>>) -> Option<
    Seq<char>,
>
    decreases candidates.len(),
{
    if candidates.len() == 0 {
        None
    } else if files.contains(candidates[0]) {
        Some(candidates[0])
    } else {
        first_existing(candidates.drop_first(), files)
    }
}

/// The first of `candidates` that is among `files` and no placeholder.
pub open spec fn first_usable(
    candidates: Seq<Seq<char>>,
    files: Seq<Seq<char>>,
    placeholders: Seq<Seq<char>>,
) -> Option<Seq<char>>
    decreases candidates.len(),
{
    if candidates.len() == 0 {
        None
    } else if files.contains(candidates[0]) && !placeholders.contains(candidates[0]) {
        Some(candidates[0])
    } else {
        first_usable(candidates.drop_first(), files, placeholders)
    }
}

fn find_existing(candidates: &Vec<String>, files: &Vec<String>) -> (r: Option<String>)
    ensures
        text::opt_text(r) == first_existing(text::texts(candidates@), text::texts(files@)),
{
    let ghost all = text::texts(candidates@);
    let mut i: usize = 0;
    assert(all.skip(0) =~= all);
    while i < candidates.len()
        invariant
            i <= candidates@.len(),
            all == text::texts(candidates@),
            first_existing(all, text::texts(files@)) == first_existing(
                all.skip(i as int),
                text::texts(files@),
            ),
        decreases candidates@.len() - i,
    {
        assert(all.skip(i as int)[0] == candidates@[i as int]@);
        assert(all.skip(i as int).drop_first() =~= all.skip(i + 1));
        if texts_contain(files, &candidates[i]) {
            return Some(candidates[i].clone());
        }
        i = i + 1;
    }
    assert(all.skip(i as int).len() == 0);
    None
}

fn find_usable(candidates: &Vec<String>, files: &Vec<String>, placeholders: &Vec<String>) -> (r:
    Option<String>)
    ensures
        text::opt_text(r) == first_usable(
            text::texts(candidates@),
            text::texts(files@),
            text::texts(placeholders@),
        ),
{
    let ghost all = text::texts(candidates@);
    let mut i: usize = 0;
    assert(all.skip(0) =~= all);
    while i < candidates.len()
        invariant
            i <= candidates@.len(),
            all == text::texts(candidates@),
            first_usable(all, text::texts(files@), text::texts(placeholders@)) == first_usable(
                all.skip(i as int),
                text::texts(files@),
                text::texts(placeholders@),
            ),
        decreases candidates@.len() - i,
    {
        assert(all.skip(i as int)[0] == candidates@[i as int]@);
        assert(all.skip(i as int).drop_first() =~= all.skip(i + 1));
        if texts_contain(files, &candidates[i]) && !texts_contain(placeholders, &candidates[i]) {
            return Some(candidates[i].clone());
        }
        i = i + 1;
    }
    assert(all.skip(i as int).len() == 0);
    None
}

// ---------------------------------------------------------------------------
// The name
// ---------------------------------------------------------------------------

/// What `char::to_uppercase` gives.
pub uninterp spec fn uppercased(c: char) -> Seq<char>;

/// `char::to_uppercase`: the upper-case equivalent of a character by Unicode's
/// mapping, a function of the character alone. On ASCII it raises the letters
/// `a` to `z` and keeps the rest.
#[verifier::external_body]
fn to_uppercase(c: char) -> (r: Vec<char>)
    ensures
        r@ == uppercased(c),
        'a' <= c <= 'z' ==> r@ == seq![(c as u32 - 32) as char],
        (c as u32) < 128 && !('a' <= c <= 'z') ==> r@ == seq![c],
{
    c.to_uppercase().collect()
}

/// `s` with its first character in upper case.
pub open spec fn capitalized(s: Seq<char>) -> Seq<char> {
    if s.len() == 0 {
        s
    } else {
        uppercased(s[0]) + s.drop_first()
    }
}

/// The words put together with spaces, each with its first character in upper
/// case.
pub open spec fn title_of(words: Seq<Seq<char>>) -> Seq<char>
    decreases words.len(),
{
    if words.len() == 0 {
        Seq::empty()
    } else if words.len() == 1 {
        capitalized(words[0])
    } else {
        title_of(words.drop_last()) + seq![' '] + capitalized(words.last())
    }
}

/// The name that a plugin id suggests: the last part of the id, its words
/// capitalised.
pub open spec fn name_from_id(id: Seq<char>) -> Seq<char> {
    let base = if ".sdPlugin"@.is_suffix_of(id) {
        id.take(id.len() - ".sdPlugin"@.len())
    } else {
        id
    };
    title_of(text::split_on(text::split_on(base, '.').last(), '-'))
}

fn capitalize(s: &str) -> (r: String)
    ensures
        r@ == capitalized(s@),
{
    let v = chars_of(s);
    if v.len() == 0 {
        return String::new();
    }
    let upper = to_uppercase(v[0]);
    let mut out = text::text_of(&upper);
    let rest = text_of_range(&v, 1, v.len());
    assert(rest@ =~= s@.drop_first());
    out.append(&rest);
    out
}

/// The name that a plugin id suggests.
pub fn infer_name(id: &str) -> (r: String)
    ensures
        r@ == name_from_id(id@),
{
    let base = match strip_suffix(id, ".sdPlugin") {
        Some(b) => b,
        None => owned(id),
    };
    let parts = split(&base, '.');
    let last = parts[parts.len() - 1].clone();
    assert(text::texts(parts@).last() == last@);
    let words = split(&last, '-');
    let ghost all = text::texts(words@);
    assert(all.len() == words@.len());
    let mut out = capitalize(&words[0]);
    let mut i: usize = 1;
    assert(all.take(1)[0] == words@[0]@);
    while i < words.len()
        invariant
            1 <= i <= words@.len(),
            all == text::texts(words@),
            out@ == title_of(all.take(i as int)),
        decreases words@.len() - i,
    {
        let word = capitalize(&words[i]);
        let ghost before = out@;
        out.push(' ');
        out.append(&word);
        assert(out@ =~= before + seq![' '] + word@);
        i = i + 1;
        assert(all.take(i as int).drop_last() =~= all.take(i - 1));
        assert(all.take(i as int).last() == words@[i - 1]@);
    }
    assert(all.take(i as int) =~= all);
    out
}

/// The name of a plugin: `Name` of its localization, or `PluginName` where
/// there is no `Name`; else what its id suggests.
pub open spec fn bundle_name(b: BundleView) -> Seq<char> {
    let field = match json::field_of(b.localization, "Name"@) {
        Some(v) => Some(v),
        None => json::field_of(b.localization, "PluginName"@),
    };
    let id = match b.plugin_id {
        Some(id) => id,
        None => "unknown"@,
    };
    match field {
        Some(v) => match json::json_text(v) {
            Some(s) => s,
            None => name_from_id(id),
        },
        None => name_from_id(id),
    }
}

fn name_of_bundle(b: &Bundle) -> (r: String)
    ensures
        r@ == bundle_name(b@),
{
    let id = match &b.plugin_id {
        Some(id) => id.clone(),
        None => owned("unknown"),
    };
    match &b.localization {
        Some(l) => {
            let field = match l.get("Name") {
                Some(v) => Some(v),
                None => l.get("PluginName"),
            };
            match field {
                Some(v) => match v.as_str() {
                    Some(s) => s.clone(),
                    None => infer_name(&id),
                },
                None => infer_name(&id),
            }
        },
        None => infer_name(&id),
    }
}

// ---------------------------------------------------------------------------
// The code path
// ---------------------------------------------------------------------------

/// The entry points that are looked for, in order.
pub open spec fn entry_points() -> Seq<Seq<char>> {
    seq![
        "bin/plugin.js"@,
        "plugin.js"@,
        "bin/plugin.cjs"@,
        "plugin.cjs"@,
        "bin/plugin.exe"@,
        "plugin.exe"@,
        "bin/index.js"@,
        "index.js"@,
        "plugin.html"@,
    ]
}

/// A name of a native executable of the vendor.
pub open spec fn is_vendor_executable(name: Seq<char>) -> bool {
    "ESD"@.is_prefix_of(name) && (".exe"@.is_suffix_of(name) || !name.contains('.'))
}

/// The native executables among the first `n` names.
pub open spec fn vendor_executables(names: Seq<Seq<char>>, n: nat) -> Seq<Seq<char>>
    decreases n,
{
    if n == 0 || n > names.len() {
        Seq::empty()
    } else {
        let before = vendor_executables(names, (n - 1) as nat);
        if is_vendor_executable(names[n - 1]) {
            before.push(names[n - 1])
        } else {
            before
        }
    }
}

/// The first of `exes` that ends in `.exe`.
pub open spec fn first_windows_executable(exes: Seq<Seq<char>>) -> Option<Seq<char>>
    decreases exes.len(),
{
    if exes.len() == 0 {
        None
    } else if ".exe"@.is_suffix_of(exes[0]) {
        Some(exes[0])
    } else {
        first_windows_executable(exes.drop_first())
    }
}

/// The first of `exes` without `.exe` whose kind names a format.
pub open spec fn first_native_executable(
    exes: Seq<Seq<char>>,
    kinds: Seq<(Seq<char>, Seq<char>)>,
    format: Seq<char>,
) -> Option<Seq<char>>
    decreases exes.len(),
{
    if exes.len() == 0 {
        None
    } else if !".exe"@.is_suffix_of(exes[0]) && text::contains_text(
        kind_of(kinds, exes[0]),
        format,
    ) {
        Some(exes[0])
    } else {
        first_native_executable(exes.drop_first(), kinds, format)
    }
}

/// The executable for a platform: the first in the format of the platform, else
/// the first with `.exe`.
pub open spec fn chosen_executable(
    exes: Seq<Seq<char>>,
    kinds: Seq<(Seq<char>, Seq<char>)>,
    platform: Platform,
) -> Option<Seq<char>> {
    let native = match platform {
        Platform::Linux => first_native_executable(exes, kinds, "elf"@),
        Platform::MacOs => first_native_executable(exes, kinds, "mach-o"@),
        Platform::Windows => None,
    };
    if native is Some {
        native
    } else {
        first_windows_executable(exes)
    }
}

/// The code path of a plugin: an entry point that exists, or else a native
/// executable.
pub open spec fn bundle_code_path(b: BundleView, platform: Platform) -> Option<Seq<char>> {
    match first_existing(entry_points(), b.files) {
        Some(p) => Some(p),
        None => chosen_executable(
            vendor_executables(b.root_names, b.root_names.len()),
            b.kinds,
            platform,
        ),
    }
}

fn find_windows_executable(exes: &Vec<String>) -> (r: Option<String>)
    ensures
        text::opt_text(r) == first_windows_executable(text::texts(exes@)),
{
    let ghost all = text::texts(exes@);
    let mut i: usize = 0;
    assert(all.skip(0) =~= all);
    while i < exes.len()
        invariant
            i <= exes@.len(),
            all == text::texts(exes@),
            first_windows_executable(all) == first_windows_executable(all.skip(i as int)),
        decreases exes@.len() - i,
    {
        assert(all.skip(i as int)[0] == exes@[i as int]@);
        assert(all.skip(i as int).drop_first() =~= all.skip(i + 1));
        if ends_with(&exes[i], ".exe") {
            return Some(exes[i].clone());
        }
        i = i + 1;
    }
    assert(all.skip(i as int).len() == 0);
    None
}

fn find_native_executable(exes: &Vec<String>, b: &Bundle, format: &str) -> (r: Option<String>)
    ensures
        text::opt_text(r) == first_native_executable(text::texts(exes@), b@.kinds, format@),
{
    let ghost all = text::texts(exes@);
    let mut i: usize = 0;
    assert(all.skip(0) =~= all);
    while i < exes.len()
        invariant
            i <= exes@.len(),
            all == text::texts(exes@),
            first_native_executable(all, b@.kinds, format@) == first_native_executable(
                all.skip(i as int),
                b@.kinds,
                format@,
            ),
        decreases exes@.len() - i,
    {
        assert(all.skip(i as int)[0] == exes@[i as int]@);
        assert(all.skip(i as int).drop_first() =~= all.skip(i + 1));
        if !ends_with(&exes[i], ".exe") {
            let kind = find_kind(&b.kinds, &exes[i]);
            if contains(&kind, format) {
                return Some(exes[i].clone());
            }
        }
        i = i + 1;
    }
    assert(all.skip(i as int).len() == 0);
    None
}

fn code_path_of_bundle(b: &Bundle, platform: Platform) -> (r: Option<String>)
    ensures
        text::opt_text(r) == bundle_code_path(b@, platform),
{
    let mut entries: Vec<String> = Vec::new();
    entries.push(owned("bin/plugin.js"));
    entries.push(owned("plugin.js"));
    entries.push(owned("bin/plugin.cjs"));
    entries.push(owned("plugin.cjs"));
    entries.push(owned("bin/plugin.exe"));
    entries.push(owned("plugin.exe"));
    entries.push(owned("bin/index.js"));
    entries.push(owned("index.js"));
    entries.push(owned("plugin.html"));
    assert(text::texts(entries@) =~= entry_points());
    let entry = find_existing(&entries, &b.files);
    if entry.is_some() {
        return entry;
    }
    let ghost names = text::texts(b.root_names@);
    let mut exes: Vec<String> = Vec::new();
    let mut i: usize = 0;
    assert(text::texts(exes@) =~= Seq::<Seq<char>>::empty());
    while i < b.root_names.len()
        invariant
            i <= b.root_names@.len(),
            names == text::texts(b.root_names@),
            text::texts(exes@) == vendor_executables(names, i as nat),
        decreases b.root_names@.len() - i,
    {
        assert(names[i as int] == b.root_names@[i as int]@);
        let name = &b.root_names[i];
        if starts_with(name, "ESD") && (ends_with(name, ".exe") || !contains_char(name, '.')) {
            let ghost before = exes@;
            exes.push(name.clone());
            assert(text::texts(exes@) =~= text::texts(before).push(names[i as int]));
        }
        i = i + 1;
    }
    let native = match platform {
        Platform::Linux => find_native_executable(&exes, b, "elf"),
        Platform::MacOs => find_native_executable(&exes, b, "mach-o"),
        Platform::Windows => None,
    };
    if native.is_some() {
        native
    } else {
        find_windows_executable(&exes)
    }
}

/// The platforms that a plugin runs on, and its code path on Windows, macOS and
/// Linux.
pub struct SupportView {
    pub platforms: Seq<Seq<char>>,
    pub windows: Option<Seq<char>>,
    pub macos: Option<Seq<char>>,
    pub linux: Option<Seq<char>>,
}

/// A script runs everywhere, a Windows executable on Windows. An executable
/// without extension runs where its format says, by default on Windows.
pub open spec fn support_of(
    code_path: Option<Seq<char>>,
    kinds: Seq<(Seq<char>, Seq<char>)>,
) -> SupportView {
    let windows = SupportView {
        platforms: seq!["windows"@],
        windows: code_path,
        macos: None,
        linux: None,
    };
    match code_path {
        None => SupportView { platforms: Seq::empty(), windows: None, macos: None, linux: None },
        Some(cp) => if ".js"@.is_suffix_of(cp) || ".cjs"@.is_suffix_of(cp) || ".mjs"@.is_suffix_of(
            cp,
        ) || ".html"@.is_suffix_of(cp) {
            SupportView {
                platforms: seq!["windows"@, "mac"@, "linux"@],
                windows: code_path,
                macos: code_path,
                linux: code_path,
            }
        } else if ".exe"@.is_suffix_of(cp) {
            windows
        } else if text::contains_text(kind_of(kinds, cp), "mach-o"@) {
            SupportView { platforms: seq!["mac"@], windows: None, macos: code_path, linux: None }
        } else if text::contains_text(kind_of(kinds, cp), "elf"@) {
            SupportView { platforms: seq!["linux"@], windows: None, macos: None, linux: code_path }
        } else {
            windows
        },
    }
}

struct Support {
    os: Vec<OS>,
    windows: Option<String>,
    macos: Option<String>,
    linux: Option<String>,
}

fn one_os(platform: &str) -> (r: Vec<OS>)
    ensures
        platforms(r@) == seq![platform@],
{
    let mut os: Vec<OS> = Vec::new();
    os.push(OS { platform: owned(platform) });
    assert(platforms(os@) =~= seq![platform@]);
    os
}

fn support(code_path: &Option<String>, kinds: &Vec<(String, String)>) -> (r: Support)
    ensures
        ({
            let s = support_of(
                text::opt_text(*code_path),
                kinds@.map_values(|k: (String, String)| (k.0@, k.1@)),
            );
            &&& platforms(r.os@) == s.platforms
            &&& text::opt_text(r.windows) == s.windows
            &&& text::opt_text(r.macos) == s.macos
            &&& text::opt_text(r.linux) == s.linux
        }),
{
    match code_path {
        None => {
            let os: Vec<OS> = Vec::new();
            assert(platforms(os@) =~= Seq::empty());
            Support { os, windows: None, macos: None, linux: None }
        },
        Some(cp) => {
            if ends_with(cp, ".js") || ends_with(cp, ".cjs") || ends_with(cp, ".mjs") || ends_with(
                cp,
                ".html",
            ) {
                let mut os: Vec<OS> = Vec::new();
                os.push(OS { platform: owned("windows") });
                os.push(OS { platform: owned("mac") });
                os.push(OS { platform: owned("linux") });
                assert(platforms(os@) =~= seq!["windows"@, "mac"@, "linux"@]);
                return Support {
                    os,
                    windows: Some(cp.clone()),
                    macos: Some(cp.clone()),
                    linux: Some(cp.clone()),
                };
            }
            if ends_with(cp, ".exe") {
                return Support {
                    os: one_os("windows"),
                    windows: Some(cp.clone()),
                    macos: None,
                    linux: None,
                };
            }
            let kind = find_kind(kinds, cp);
            if contains(&kind, "mach-o") {
                Support { os: one_os("mac"), windows: None, macos: Some(cp.clone()), linux: None }
            } else if contains(&kind, "elf") {
                Support { os: one_os("linux"), windows: None, macos: None, linux: Some(cp.clone()) }
            } else {
                Support { os: one_os("windows"), windows: Some(cp.clone()), macos: None, linux: None }
            }
        },
    }
}

// ---------------------------------------------------------------------------
// The actions
// ---------------------------------------------------------------------------

/// The names under which the files of an action may be kept: the last part of
/// its uuid, with `auto-` before it or the part before it, and its name.
pub open spec fn slugs_of(uuid: Seq<char>, name: Seq<char>) -> Seq<Seq<char>> {
    let p = text::split_on(uuid, '.');
    let last = p.last();
    let before = p[p.len() - 2];
    seq![last] + (if p.len() >= 2 && before == "auto-detection"@ {
        seq!["auto-"@ + last]
    } else {
        Seq::empty()
    }) + seq!["auto-"@ + last] + (if p.len() >= 2 {
        seq![before + "-"@ + last]
    } else {
        Seq::empty()
    }) + seq![slug_of_name(name)]
}

/// A name in lower case with dashes for spaces and slashes.
pub open spec fn slug_of_name(name: Seq<char>) -> Seq<char> {
    text::replace_char(
        text::replace_char(text::lowercased(name), ' ', "-"@),
        '/',
        "-"@,
    )
}

fn slugs(uuid: &str, name: &str) -> (r: Vec<String>)
    ensures
        text::texts(r@) == slugs_of(uuid@, name@),
{
    let p = split(uuid, '.');
    let ghost parts = text::split_on(uuid@, '.');
    let n: usize = p.len();
    assert(parts.len() == n);
    assert(parts.last() == p@[n - 1]@);
    let mut out: Vec<String> = Vec::new();
    out.push(p[n - 1].clone());
    assert(text::texts(out@) =~= seq![parts.last()]);
    let auto = concat2("auto-", &p[n - 1]);
    if n >= 2 {
        assert(parts[n - 2] == p@[n - 2]@);
        if same_text(&p[n - 2], "auto-detection") {
            out.push(auto.clone());
        }
    }
    out.push(auto);
    if n >= 2 {
        out.push(concat3(&p[n - 2], "-", &p[n - 1]));
    }
    let lower = to_lowercase(name);
    let spaced = replace(&lower, ' ', "-");
    out.push(replace(&spaced, '/', "-"));
    assert(text::texts(out@) =~= slugs_of(uuid@, name@));
    out
}

/// The file `name` in the image directory of `slug`.
pub open spec fn action_file(slug: Seq<char>, name: Seq<char>) -> Seq<char> {
    "imgs/actions/"@ + slug + name
}

/// The file with the ending `name` among the images of actions.
pub open spec fn flat_file(slug: Seq<char>, name: Seq<char>) -> Seq<char> {
    "images/actions/"@ + slug + name
}

/// Where the icon of an action is looked for: among the images in PNG and JPEG,
/// and then among those in SVG.
pub open spec fn icon_candidates(slug: Seq<char>) -> Seq<Seq<char>> {
    seq![
        action_file(slug, "/action.png"@),
        action_file(slug, "/action@2x.png"@),
        action_file(slug, "/key.png"@),
        action_file(slug, "/key@2x.png"@),
        action_file(slug, "/action.jpg"@),
        action_file(slug, "/key.jpg"@),
        flat_file(slug, ".png"@),
        flat_file(slug, "_0.png"@),
        action_file(slug, "/action.svg"@),
        action_file(slug, "/key.svg"@),
        flat_file(slug, ".svg"@),
        flat_file(slug, "_0.svg"@),
    ]
}

/// Where the image of the state of an action is looked for, in the same order of
/// kinds.
pub open spec fn state_candidates(slug: Seq<char>) -> Seq<Seq<char>> {
    seq![
        action_file(slug, "/key.png"@),
        action_file(slug, "/key@2x.png"@),
        action_file(slug, "/action.png"@),
        action_file(slug, "/action@2x.png"@),
        action_file(slug, "/key.jpg"@),
        action_file(slug, "/action.jpg"@),
        flat_file(slug, ".png"@),
        flat_file(slug, "_0.png"@),
        action_file(slug, "/key.svg"@),
        action_file(slug, "/action.svg"@),
        flat_file(slug, ".svg"@),
        flat_file(slug, "_0.svg"@),
    ]
}

/// What stands in for a missing icon.
pub open spec fn icon_fallbacks(slug: Seq<char>) -> Seq<Seq<char>> {
    seq![action_file(slug, "/category.png"@), action_file(slug, "/category@2x.png"@)]
}

/// What stands in for a missing image of a state.
pub open spec fn state_fallbacks(slug: Seq<char>) -> Seq<Seq<char>> {
    seq![
        action_file(slug, "/category.png"@),
        action_file(slug, "/category@2x.png"@),
        "images/category.png"@,
        "images/category@2x.png"@,
    ]
}

/// Where the property inspector of an action is looked for.
pub open spec fn inspector_candidates(slug: Seq<char>) -> Seq<Seq<char>> {
    seq![
        "pi/application/"@ + slug + "/inspector.html"@,
        "pi/device/"@ + slug + "/inspector.html"@,
        "pi/"@ + slug + "/inspector.html"@,
    ]
}

/// What is looked for.
#[derive(Clone, Copy, PartialEq, Eq, Structural, Debug)]
pub enum Wanted {
    Icon,
    StateImage,
    Inspector,
}

/// What is found under one slug.
pub open spec fn found_under(b: BundleView, slug: Seq<char>, wanted: Wanted) -> Option<Seq<char>> {
    match wanted {
        Wanted::Icon => match first_usable(icon_candidates(slug), b.files, b.placeholders) {
            Some(p) => Some(p),
            None => first_existing(icon_fallbacks(slug), b.files),
        },
        Wanted::StateImage => match first_usable(state_candidates(slug), b.files, b.placeholders) {
            Some(p) => Some(p),
            None => first_existing(state_fallbacks(slug), b.files),
        },
        Wanted::Inspector => first_existing(inspector_candidates(slug), b.files),
    }
}

/// What is found under the first slug under which anything is.
pub open spec fn found_for(b: BundleView, slugs: Seq<Seq<char>>, wanted: Wanted) -> Option<
    Seq<char>,
>
    decreases slugs.len(),
{
    if slugs.len() == 0 {
        None
    } else {
        match found_under(b, slugs[0], wanted) {
            Some(p) => Some(p),
            None => found_for(b, slugs.drop_first(), wanted),
        }
    }
}

fn candidates(slug: &str, wanted: Wanted) -> (r: Vec<String>)
    ensures
        text::texts(r@) == match wanted {
            Wanted::Icon => icon_candidates(slug@),
            Wanted::StateImage => state_candidates(slug@),
            Wanted::Inspector => inspector_candidates(slug@),
        },
{
    let mut v: Vec<String> = Vec::new();
    match wanted {
        Wanted::Icon => {
            v.push(concat3("imgs/actions/", slug, "/action.png"));
            v.push(concat3("imgs/actions/", slug, "/action@2x.png"));
            v.push(concat3("imgs/actions/", slug, "/key.png"));
            v.push(concat3("imgs/actions/", slug, "/key@2x.png"));
            v.push(concat3("imgs/actions/", slug, "/action.jpg"));
            v.push(concat3("imgs/actions/", slug, "/key.jpg"));
            v.push(concat3("images/actions/", slug, ".png"));
            v.push(concat3("images/actions/", slug, "_0.png"));
            v.push(concat3("imgs/actions/", slug, "/action.svg"));
            v.push(concat3("imgs/actions/", slug, "/key.svg"));
            v.push(concat3("images/actions/", slug, ".svg"));
            v.push(concat3("images/actions/", slug, "_0.svg"));
            assert(text::texts(v@) =~= icon_candidates(slug@));
        },
        Wanted::StateImage => {
            v.push(concat3("imgs/actions/", slug, "/key.png"));
            v.push(concat3("imgs/actions/", slug, "/key@2x.png"));
            v.push(concat3("imgs/actions/", slug, "/action.png"));
            v.push(concat3("imgs/actions/", slug, "/action@2x.png"));
            v.push(concat3("imgs/actions/", slug, "/key.jpg"));
            v.push(concat3("imgs/actions/", slug, "/action.jpg"));
            v.push(concat3("images/actions/", slug, ".png"));
            v.push(concat3("images/actions/", slug, "_0.png"));
            v.push(concat3("imgs/actions/", slug, "/key.svg"));
            v.push(concat3("imgs/actions/", slug, "/action.svg"));
            v.push(concat3("images/actions/", slug, ".svg"));
            v.push(concat3("images/actions/", slug, "_0.svg"));
            assert(text::texts(v@) =~= state_candidates(slug@));
        },
        Wanted::Inspector => {
            v.push(concat3("pi/application/", slug, "/inspector.html"));
            v.push(concat3("pi/device/", slug, "/inspector.html"));
            v.push(concat3("pi/", slug, "/inspector.html"));
            assert(text::texts(v@) =~= inspector_candidates(slug@));
        },
    }
    v
}

fn find_under(b: &Bundle, slug: &str, wanted: Wanted) -> (r: Option<String>)
    ensures
        text::opt_text(r) == found_under(b@, slug@, wanted),
{
    let c = candidates(slug, wanted);
    match wanted {
        Wanted::Inspector => find_existing(&c, &b.files),
        _ => {
            let found = find_usable(&c, &b.files, &b.placeholders);
            if found.is_some() {
                return found;
            }
            let mut v: Vec<String> = Vec::new();
            v.push(concat3("imgs/actions/", slug, "/category.png"));
            v.push(concat3("imgs/actions/", slug, "/category@2x.png"));
            match wanted {
                Wanted::StateImage => {
                    v.push(owned("images/category.png"));
                    v.push(owned("images/category@2x.png"));
                    assert(text::texts(v@) =~= state_fallbacks(slug@));
                },
                _ => {
                    assert(text::texts(v@) =~= icon_fallbacks(slug@));
                },
            }
            find_existing(&v, &b.files)
        },
    }
}

fn find_for(b: &Bundle, slugs: &Vec<String>, wanted: Wanted) -> (r: Option<String>)
    ensures
        text::opt_text(r) == found_for(b@, text::texts(slugs@), wanted),
{
    let ghost all = text::texts(slugs@);
    let mut i: usize = 0;
    assert(all.skip(0) =~= all);
    while i < slugs.len()
        invariant
            i <= slugs@.len(),
            all == text::texts(slugs@),
            found_for(b@, all, wanted) == found_for(b@, all.skip(i as int), wanted),
        decreases slugs@.len() - i,
    {
        assert(all.skip(i as int)[0] == slugs@[i as int]@);
        assert(all.skip(i as int).drop_first() =~= all.skip(i + 1));
        let found = find_under(b, &slugs[i], wanted);
        if found.is_some() {
            return found;
        }
        i = i + 1;
    }
    assert(all.skip(i as int).len() == 0);
    None
}

/// An image that was found; else the blank image where there is one; else none.
pub open spec fn or_blank(b: BundleView, found: Option<Seq<char>>) -> Seq<char> {
    match found {
        Some(p) => p,
        None => if b.files.contains("blank.png"@) {
            "blank.png"@
        } else {
            Seq::empty()
        },
    }
}

/// The action that a field of the localization describes.
pub open spec fn bundle_action(b: BundleView, uuid: Seq<char>, value: JsonView) -> ActionView {
    let name = match json::text_field(value, "Name"@) {
        Some(s) => s,
        None => uuid,
    };
    let slugs = slugs_of(uuid, name);
    ActionView {
        name,
        uuid,
        plugin: Seq::empty(),
        tooltip: match json::text_field(value, "Tooltip"@) {
            Some(s) => s,
            None => Seq::empty(),
        },
        icon: or_blank(b, found_for(b, slugs, Wanted::Icon)),
        disable_automatic_states: false,
        visible_in_action_list: true,
        supported_in_multi_actions: true,
        property_inspector: match found_for(b, slugs, Wanted::Inspector) {
            Some(p) => p,
            None => Seq::empty(),
        },
        controllers: if json::field_of(value, "Encoder"@) is Some {
            seq!["Keypad"@, "Encoder"@]
        } else {
            seq!["Keypad"@]
        },
        states: seq![
            (StateView {
                image: or_blank(b, found_for(b, slugs, Wanted::StateImage)),
                ..shared::default_state()
            }),
        ],
    }
}

/// The key of a field of the localization names an action.
pub open spec fn names_action(key: Seq<char>) -> bool {
    &&& key != "Description"@
    &&& key != "Localization"@
    &&& key != "Name"@
    &&& key != "PluginName"@
    &&& key.contains('.')
}

/// The actions among the first `n` fields of the localization.
pub open spec fn bundle_actions(
    b: BundleView,
    fields: Seq<(Seq<char>, JsonView)>,
    n: nat,
) -> Seq<ActionView>
    decreases n,
{
    if n == 0 || n > fields.len() {
        Seq::empty()
    } else {
        let before = bundle_actions(b, fields, (n - 1) as nat);
        if names_action(fields[n - 1].0) {
            before.push(bundle_action(b, fields[n - 1].0, fields[n - 1].1))
        } else {
            before
        }
    }
}

fn blank_or(b: &Bundle, found: Option<String>) -> (r: String)
    ensures
        r@ == or_blank(b@, text::opt_text(found)),
{
    match found {
        Some(p) => p,
        None => if texts_contain(&b.files, "blank.png") {
            owned("blank.png")
        } else {
            String::new()
        },
    }
}

fn action_of_bundle(b: &Bundle, uuid: &str, value: &Json) -> (r: Action)
    ensures
        r@ == bundle_action(b@, uuid@, value@),
{
    let name = match get_str(value, "Name") {
        Some(s) => s,
        None => owned(uuid),
    };
    let tooltip = match get_str(value, "Tooltip") {
        Some(s) => s,
        None => String::new(),
    };
    let mut controllers: Vec<String> = Vec::new();
    controllers.push(owned("Keypad"));
    if value.get("Encoder").is_some() {
        controllers.push(owned("Encoder"));
    }
    let all = slugs(uuid, &name);
    let icon = blank_or(b, find_for(b, &all, Wanted::Icon));
    let image = blank_or(b, find_for(b, &all, Wanted::StateImage));
    let property_inspector = match find_for(b, &all, Wanted::Inspector) {
        Some(p) => p,
        None => String::new(),
    };
    let mut state = ActionState::default();
    state.image = image;
    let mut states: Vec<ActionState> = Vec::new();
    states.push(state);
    let r = Action {
        name,
        uuid: owned(uuid),
        plugin: String::new(),
        tooltip,
        icon,
        disable_automatic_states: false,
        visible_in_action_list: true,
        supported_in_multi_actions: true,
        property_inspector,
        controllers,
        states,
    };
    assert(r@.controllers =~= bundle_action(b@, uuid@, value@).controllers);
    assert(r@.states =~= bundle_action(b@, uuid@, value@).states);
    r
}

fn actions_of_bundle(b: &Bundle, fields: &Vec<(String, Json)>) -> (r: Vec<Action>)
    ensures
        shared::actions_view(r@) == bundle_actions(
            b@,
            json::fields_view(fields@),
            fields@.len(),
        ),
{
    let ghost all = json::fields_view(fields@);
    let mut out: Vec<Action> = Vec::new();
    let mut i: usize = 0;
    assert(shared::actions_view(out@) =~= Seq::<ActionView>::empty());
    while i < fields.len()
        invariant
            i <= fields@.len(),
            all == json::fields_view(fields@),
            shared::actions_view(out@) == bundle_actions(b@, all, i as nat),
        decreases fields@.len() - i,
    {
        assert(all[i as int] == (fields@[i as int].0@, fields@[i as int].1@));
        let key = &fields[i].0;
        if !same_text(key, "Description") && !same_text(key, "Localization") && !same_text(
            key,
            "Name",
        ) && !same_text(key, "PluginName") && contains_char(key, '.') {
            let ghost before = out@;
            let action = action_of_bundle(b, key, &fields[i].1);
            out.push(action);
            assert(shared::actions_view(out@) =~= shared::actions_view(before).push(action@));
        }
        i = i + 1;
    }
    out
}

/// The icons of a plugin, in the order in which they are looked for.
pub open spec fn plugin_icons() -> Seq<Seq<char>> {
    seq!["imgs/plugin/marketplace.png"@, "images/plugin.png"@, "icon.png"@]
}

/// The icons of the category of a plugin, in the order in which they are looked
/// for.
pub open spec fn category_icons() -> Seq<Seq<char>> {
    seq!["imgs/plugin/category-icon.svg"@, "images/category.svg"@]
}

/// The fields of a localization.
pub open spec fn localized_fields(j: JsonView) -> Seq<(Seq<char>, JsonView)> {
    match j {
        JsonView::Object(o) => o,
        _ => Seq::empty(),
    }
}

/// Makes up the manifest of a plugin from its files.
pub fn synthesize_manifest_from_bundle(b: &Bundle, platform: Platform) -> (r: PluginManifest)
    ensures
        r.name@ == bundle_name(b@),
        r.author@ == "Elgato"@,
        r.version@ == "1.0.0"@,
        r.category@ == "Audio"@,
        r.icon@ == match first_existing(plugin_icons(), b@.files) {
            Some(p) => p,
            None => Seq::empty(),
        },
        text::opt_text(r.category_icon) == first_existing(category_icons(), b@.files),
        ({
            let fields = localized_fields(b@.localization);
            shared::actions_view(r.actions@) == bundle_actions(b@, fields, fields.len())
        }),
        text::opt_text(r.code_path) == bundle_code_path(b@, platform),
        ({
            let s = support_of(bundle_code_path(b@, platform), b@.kinds);
            &&& platforms(r.os@) == s.platforms
            &&& text::opt_text(r.code_path_windows) == s.windows
            &&& text::opt_text(r.code_path_macos) == s.macos
            &&& text::opt_text(r.code_path_linux) == s.linux
        }),
        r.code_paths is None,
        r.property_inspector_path is None,
        r.device_namespace is None,
        r.applications_to_monitor is None,
        r.has_settings_interface is None,
{
    broadcast use json::lemma_json_view;

    let name = name_of_bundle(b);
    let code_path = code_path_of_bundle(b, platform);
    let mut icons: Vec<String> = Vec::new();
    icons.push(owned("imgs/plugin/marketplace.png"));
    icons.push(owned("images/plugin.png"));
    icons.push(owned("icon.png"));
    assert(text::texts(icons@) =~= plugin_icons());
    let icon = match find_existing(&icons, &b.files) {
        Some(p) => p,
        None => String::new(),
    };
    let mut categories: Vec<String> = Vec::new();
    categories.push(owned("imgs/plugin/category-icon.svg"));
    categories.push(owned("images/category.svg"));
    assert(text::texts(categories@) =~= category_icons());
    let category_icon = find_existing(&categories, &b.files);
    let actions = match &b.localization {
        Some(Json::Object(fields)) => actions_of_bundle(b, fields),
        _ => {
            let none: Vec<Action> = Vec::new();
            assert(shared::actions_view(none@) =~= Seq::empty());
            none
        },
    };
    let s = support(&code_path, &b.kinds);
    PluginManifest {
        name,
        author: owned("Elgato"),
        version: owned("1.0.0"),
        icon,
        category: owned("Audio"),
        category_icon,
        actions,
        os: s.os,
        code_path,
        code_paths: None,
        code_path_windows: s.windows,
        code_path_macos: s.macos,
        code_path_linux: s.linux,
        property_inspector_path: None,
        device_namespace: None,
        applications_to_monitor: None,
        has_settings_interface: None,
    }
}

/// Every file that a made-up manifest names exists.
pub proof fn law_found_files_exist(b: BundleView, slugs: Seq<Seq<char>>, wanted: Wanted)
    ensures
        found_for(b, slugs, wanted) matches Some(p) ==> b.files.contains(p),
    decreases slugs.len(),
{
    if slugs.len() > 0 {
        law_found_files_exist(b, slugs.drop_first(), wanted);
        let slug = slugs[0];
        lemma_first_usable_exists(icon_candidates(slug), b.files, b.placeholders);
        lemma_first_usable_exists(state_candidates(slug), b.files, b.placeholders);
        lemma_first_existing_exists(icon_fallbacks(slug), b.files);
        lemma_first_existing_exists(state_fallbacks(slug), b.files);
        lemma_first_existing_exists(inspector_candidates(slug), b.files);
    }
}

proof fn lemma_first_existing_exists(c: Seq<Seq<char>>, files: Seq<Seq<char>>)
    ensures
        first_existing(c, files) matches Some(p) ==> files.contains(p),
    decreases c.len(),
{
    if c.len() > 0 {
        lemma_first_existing_exists(c.drop_first(), files);
    }
}

proof fn lemma_first_usable_exists(
    c: Seq<Seq<char>>,
    files: Seq<Seq<char>>,
    placeholders: Seq<Seq<char>>,
)
    ensures
        first_usable(c, files, placeholders) matches Some(p) ==> files.contains(p)
            && !placeholders.contains(p),
    decreases c.len(),
{
    if c.len() > 0 {
        lemma_first_usable_exists(c.drop_first(), files, placeholders);
    }
}

/// The first of the candidates that exists is taken, and none where none does.
pub proof fn law_first_existing_is_taken(
    candidates: Seq<Seq<char>>,
    files: Seq<Seq<char>>,
    k: int,
)
    requires
        0 <= k <= candidates.len(),
        forall|j: int| 0 <= j < k ==> !files.contains(#[trigger] candidates[j]),
        k < candidates.len() ==> files.contains(candidates[k]),
    ensures
        k < candidates.len() ==> first_existing(candidates, files) == Some(candidates[k]),
        k == candidates.len() ==> first_existing(candidates, files) is None,
    decreases candidates.len(),
{
    if k > 0 {
        let rest = candidates.drop_first();
        assert(!files.contains(candidates[0]));
        assert forall|j: int| 0 <= j < k - 1 implies !files.contains(#[trigger] rest[j]) by {
            assert(rest[j] == candidates[j + 1]);
        }
        law_first_existing_is_taken(rest, files, k - 1);
    }
}

/// The first of the candidates that exists and does not stand in for another picture is
/// taken.
pub proof fn law_placeholders_are_passed_over(
    candidates: Seq<Seq<char>>,
    files: Seq<Seq<char>>,
    placeholders: Seq<Seq<char>>,
    k: int,
)
    requires
        0 <= k <= candidates.len(),
        forall|j: int|
            0 <= j < k ==> !files.contains(#[trigger] candidates[j]) || placeholders.contains(
                candidates[j],
            ),
        k < candidates.len() ==> files.contains(candidates[k]) && !placeholders.contains(
            candidates[k],
        ),
    ensures
        k < candidates.len() ==> first_usable(candidates, files, placeholders) == Some(
            candidates[k],
        ),
        k == candidates.len() ==> first_usable(candidates, files, placeholders) is None,
    decreases candidates.len(),
{
    if k > 0 {
        let rest = candidates.drop_first();
        assert(!files.contains(candidates[0]) || placeholders.contains(candidates[0]));
        assert forall|j: int| 0 <= j < k - 1 implies !files.contains(#[trigger] rest[j])
            || placeholders.contains(rest[j]) by {
            assert(rest[j] == candidates[j + 1]);
        }
        law_placeholders_are_passed_over(rest, files, placeholders, k - 1);
    }
}

/// The code of a plugin is its script below `bin` wherever there is one, on every
/// platform; a plugin with none of the known entry points has the executable of the
/// platform.
pub proof fn law_script_is_the_code(b: BundleView, platform: Platform)
    ensures
        b.files.contains("bin/plugin.js"@) ==> bundle_code_path(b, platform) == Some(
            "bin/plugin.js"@,
        ),
        !b.files.contains("bin/plugin.js"@) && b.files.contains("plugin.js"@) ==> bundle_code_path(
            b,
            platform,
        ) == Some("plugin.js"@),
        (forall|k: int| 0 <= k < 9 ==> !b.files.contains(#[trigger] entry_points()[k]))
            ==> bundle_code_path(b, platform) == chosen_executable(
            vendor_executables(b.root_names, b.root_names.len()),
            b.kinds,
            platform,
        ),
{
    let e = entry_points();
    assert(e[0] == "bin/plugin.js"@ && e[1] == "plugin.js"@);
    if b.files.contains("bin/plugin.js"@) {
        law_first_existing_is_taken(e, b.files, 0);
    } else if b.files.contains("plugin.js"@) {
        law_first_existing_is_taken(e, b.files, 1);
    }
    if forall|k: int| 0 <= k < 9 ==> !b.files.contains(#[trigger] entry_points()[k]) {
        law_first_existing_is_taken(e, b.files, 9);
    }
}

/// The executables that are looked at are those of the vendor, in their order.
pub proof fn law_vendor_executables(names: Seq<Seq<char>>, n: nat)
    requires
        n <= names.len(),
    ensures
        vendor_executables(names, n) == names.take(n as int).filter(
            |name: Seq<char>|
                "ESD"@.is_prefix_of(name) && (".exe"@.is_suffix_of(name) || !name.contains('.')),
        ),
    decreases n,
{
    reveal(Seq::filter);
    if n > 0 {
        let m = (n - 1) as nat;
        law_vendor_executables(names, m);
        assert(names.take(n as int).drop_last() =~= names.take(m as int));
        assert(names.take(n as int).last() == names[m as int]);
    }
}

/// On Linux an executable for Linux is taken before one for Windows, and on macOS one
/// for macOS; on Windows only one for Windows is.
pub proof fn law_executable_of_the_platform(
    exes: Seq<Seq<char>>,
    kinds: Seq<(Seq<char>, Seq<char>)>,
    platform: Platform,
)
    ensures
        chosen_executable(exes, kinds, platform) matches Some(e) ==> exes.contains(e) && (
        ".exe"@.is_suffix_of(e) || (platform == Platform::Linux && text::contains_text(
            kind_of(kinds, e),
            "elf"@,
        )) || (platform == Platform::MacOs && text::contains_text(kind_of(kinds, e), "mach-o"@))),
        platform == Platform::Linux && first_native_executable(exes, kinds, "elf"@) is Some
            ==> !".exe"@.is_suffix_of(chosen_executable(exes, kinds, platform)->0),
        platform == Platform::MacOs && first_native_executable(exes, kinds, "mach-o"@) is Some
            ==> !".exe"@.is_suffix_of(chosen_executable(exes, kinds, platform)->0),
{
    lemma_native_executable(exes, kinds, "elf"@);
    lemma_native_executable(exes, kinds, "mach-o"@);
    lemma_windows_executable(exes);
}

proof fn lemma_native_executable(
    exes: Seq<Seq<char>>,
    kinds: Seq<(Seq<char>, Seq<char>)>,
    format: Seq<char>,
)
    ensures
        first_native_executable(exes, kinds, format) matches Some(e) ==> exes.contains(e)
            && !".exe"@.is_suffix_of(e) && text::contains_text(kind_of(kinds, e), format),
    decreases exes.len(),
{
    if exes.len() > 0 {
        let rest = exes.drop_first();
        lemma_native_executable(rest, kinds, format);
        if !".exe"@.is_suffix_of(exes[0]) && text::contains_text(kind_of(kinds, exes[0]), format) {
            assert(exes.contains(exes[0]));
        } else if let Some(e) = first_native_executable(rest, kinds, format) {
            let j = choose|j: int| 0 <= j < rest.len() && rest[j] == e;
            assert(exes[j + 1] == e);
        }
    }
}

proof fn lemma_windows_executable(exes: Seq<Seq<char>>)
    ensures
        first_windows_executable(exes) matches Some(e) ==> exes.contains(e) && ".exe"@.is_suffix_of(
            e,
        ),
    decreases exes.len(),
{
    if exes.len() > 0 {
        let rest = exes.drop_first();
        lemma_windows_executable(rest);
        if ".exe"@.is_suffix_of(exes[0]) {
            assert(exes.contains(exes[0]));
        } else if let Some(e) = first_windows_executable(rest) {
            let j = choose|j: int| 0 <= j < rest.len() && rest[j] == e;
            assert(exes[j + 1] == e);
        }
    }
}

/// A script is the code on all platforms, a Windows program on Windows alone, and
/// another executable where its format says; a plugin without code is for none.
pub proof fn law_support_follows_the_code(
    cp: Seq<char>,
    kinds: Seq<(Seq<char>, Seq<char>)>,
)
    ensures
        ({
            let s = support_of(Some(cp), kinds);
            let script = ".js"@.is_suffix_of(cp) || ".cjs"@.is_suffix_of(cp) || ".mjs"@.is_suffix_of(
                cp,
            ) || ".html"@.is_suffix_of(cp);
            let exe = ".exe"@.is_suffix_of(cp);
            let mac = text::contains_text(kind_of(kinds, cp), "mach-o"@);
            let linux = text::contains_text(kind_of(kinds, cp), "elf"@);
            &&& script ==> s.platforms == seq!["windows"@, "mac"@, "linux"@] && s.windows == Some(
                cp,
            ) && s.macos == Some(cp) && s.linux == Some(cp)
            &&& !script && exe ==> s.platforms == seq!["windows"@] && s.windows == Some(cp)
                && s.macos is None && s.linux is None
            &&& !script && !exe && mac ==> s.platforms == seq!["mac"@] && s.macos == Some(cp)
                && s.windows is None && s.linux is None
            &&& !script && !exe && !mac && linux ==> s.platforms == seq!["linux"@] && s.linux
                == Some(cp) && s.windows is None && s.macos is None
        }),
        support_of(None, kinds).platforms.len() == 0,
{
}

/// A plugin is called by its localized name wherever it has one, `Name` before
/// `PluginName`, and by what its id suggests otherwise.
pub proof fn law_localized_name_first(b: BundleView, name: Seq<char>, id: Seq<char>)
    ensures
        json::field_of(b.localization, "Name"@) == Some(JsonView::Text(name)) ==> bundle_name(b)
            == name,
        json::field_of(b.localization, "Name"@) is None && json::field_of(
            b.localization,
            "PluginName"@,
        ) == Some(JsonView::Text(name)) ==> bundle_name(b) == name,
        json::field_of(b.localization, "Name"@) is None && json::field_of(
            b.localization,
            "PluginName"@,
        ) is None && b.plugin_id == Some(id) ==> bundle_name(b) == name_from_id(id),
{
}

/// Each field of the localization that names an action gives one action, with its key
/// as uuid, its name and its tooltip; the other fields give none.
pub proof fn law_localized_actions(
    b: BundleView,
    fields: Seq<(Seq<char>, JsonView)>,
    n: nat,
    a: ActionView,
)
    requires
        n <= fields.len(),
    ensures
        bundle_actions(b, fields, n).contains(a) <==> exists|k: int|
            0 <= k < n && names_action((#[trigger] fields[k]).0) && a == bundle_action(
                b,
                fields[k].0,
                fields[k].1,
            ),
    decreases n,
{
    let now = bundle_actions(b, fields, n);
    if n > 0 {
        let m = (n - 1) as nat;
        law_localized_actions(b, fields, m, a);
        let before = bundle_actions(b, fields, m);
        if now.contains(a) {
            let t = choose|t: int| 0 <= t < now.len() && now[t] == a;
            if t < before.len() {
                assert(before[t] == a);
                let k = choose|k: int|
                    0 <= k < m && names_action((#[trigger] fields[k]).0) && a == bundle_action(
                        b,
                        fields[k].0,
                        fields[k].1,
                    );
                assert(names_action(fields[k].0));
            } else {
                assert(names_action(fields[m as int].0));
            }
        }
        if exists|k: int|
            0 <= k < n && names_action((#[trigger] fields[k]).0) && a == bundle_action(
                b,
                fields[k].0,
                fields[k].1,
            ) {
            let k = choose|k: int|
                0 <= k < n && names_action((#[trigger] fields[k]).0) && a == bundle_action(
                    b,
                    fields[k].0,
                    fields[k].1,
                );
            if k < m {
                let t = choose|t: int| 0 <= t < before.len() && before[t] == a;
                assert(now[t] == a);
            } else {
                assert(now[before.len() as int] == a);
            }
        }
    }
}

/// An action of the localization has its key as uuid, the name and tooltip that the
/// field gives, a place on keys, and one on dials where the field says so.
pub proof fn law_localized_action_is_described(b: BundleView, uuid: Seq<char>, value: JsonView)
    ensures
        ({
            let a = bundle_action(b, uuid, value);
            &&& a.uuid == uuid
            &&& json::text_field(value, "Name"@) matches Some(n) ==> a.name == n
            &&& json::text_field(value, "Name"@) is None ==> a.name == uuid
            &&& json::text_field(value, "Tooltip"@) matches Some(t) ==> a.tooltip == t
            &&& a.controllers.contains("Keypad"@)
            &&& a.controllers.contains("Encoder"@) <==> json::field_of(value, "Encoder"@) is Some
            &&& a.states.len() == 1
            &&& a.visible_in_action_list && a.supported_in_multi_actions
                && !a.disable_automatic_states
            &&& a.icon.len() > 0 ==> b.files.contains(a.icon)
            &&& a.states[0].image.len() > 0 ==> b.files.contains(a.states[0].image)
            &&& a.property_inspector.len() > 0 ==> b.files.contains(a.property_inspector)
        }),
{
    reveal_strlit("Keypad");
    reveal_strlit("Encoder");
    let a = bundle_action(b, uuid, value);
    let slugs = slugs_of(uuid, a.name);
    law_found_files_exist(b, slugs, Wanted::Icon);
    law_found_files_exist(b, slugs, Wanted::StateImage);
    law_found_files_exist(b, slugs, Wanted::Inspector);
    assert(a.controllers[0] == "Keypad"@);
    assert("Keypad"@.len() != "Encoder"@.len());
    if json::field_of(value, "Encoder"@) is Some {
        assert(a.controllers[1] == "Encoder"@);
    }
}

/// The files of an action are looked for under the last part of its uuid first, and
/// under its name last.
pub proof fn law_slugs_of_an_action(uuid: Seq<char>, name: Seq<char>)
    ensures
        slugs_of(uuid, name).len() >= 3,
        slugs_of(uuid, name)[0] == text::split_on(uuid, '.').last(),
        slugs_of(uuid, name).last() == slug_of_name(name),
{
}

/// What is found for an action is found under the first name under which anything is.
pub proof fn law_first_slug_wins(b: BundleView, slugs: Seq<Seq<char>>, wanted: Wanted, k: int)
    requires
        0 <= k <= slugs.len(),
        forall|j: int| 0 <= j < k ==> found_under(b, #[trigger] slugs[j], wanted) is None,
        k < slugs.len() ==> found_under(b, slugs[k], wanted) is Some,
    ensures
        k < slugs.len() ==> found_for(b, slugs, wanted) == found_under(b, slugs[k], wanted),
        k == slugs.len() ==> found_for(b, slugs, wanted) is None,
    decreases slugs.len(),
{
    if k > 0 {
        let rest = slugs.drop_first();
        assert(found_under(b, slugs[0], wanted) is None);
        assert forall|j: int| 0 <= j < k - 1 implies found_under(
            b,
            #[trigger] rest[j],
            wanted,
        ) is None by {
            assert(rest[j] == slugs[j + 1]);
        }
        law_first_slug_wins(b, rest, wanted, k - 1);
    }
}

/// The pictures that stand in for others are the small PNGs of one channel, each of
/// them and no other file.
pub proof fn law_placeholders_are_small(
    s: Seq<(Seq<char>, Seq<u8>)>,
    n: nat,
    k: int,
)
    requires
        0 <= k < n <= s.len(),
        ".png"@.is_suffix_of(s[k].0),
        s[k].1.len() < 300,
        picture::png_channels(s[k].1) == Some(1u8),
    ensures
        placeholder_paths(s, n).contains(s[k].0),
    decreases n,
{
    let m = (n - 1) as nat;
    let now = placeholder_paths(s, n);
    let before = placeholder_paths(s, m);
    if k < m {
        law_placeholders_are_small(s, m, k);
        let t = choose|t: int| 0 <= t < before.len() && before[t] == s[k].0;
        assert(now[t] == s[k].0);
    } else {
        assert(now[before.len() as int] == s[k].0);
    }
}

/// Pictures made of pixels are looked for before drawn ones, below the directory of the
/// action and among the images of actions.
#[verifier::rlimit(50)]
pub proof fn law_candidates_name_the_action(slug: Seq<char>)
    ensures
        icon_candidates(slug)[0] == "imgs/actions/"@ + slug + "/action.png"@,
        state_candidates(slug)[0] == "imgs/actions/"@ + slug + "/key.png"@,
        forall|k: int|
            0 <= k < icon_candidates(slug).len() ==> (k >= 8 <==> ".svg"@.is_suffix_of(
                #[trigger] icon_candidates(slug)[k],
            )),
        forall|k: int|
            0 <= k < state_candidates(slug).len() ==> (k >= 8 <==> ".svg"@.is_suffix_of(
                #[trigger] state_candidates(slug)[k],
            )),
        forall|k: int|
            0 <= k < icon_candidates(slug).len() ==> state_candidates(slug).contains(
                #[trigger] icon_candidates(slug)[k],
            ),
        inspector_candidates(slug).len() == 3,
        inspector_candidates(slug).last() == "pi/"@ + slug + "/inspector.html"@,
{
    reveal_strlit(".svg");
    reveal_strlit("/action.png");
    reveal_strlit("/action@2x.png");
    reveal_strlit("/key.png");
    reveal_strlit("/key@2x.png");
    reveal_strlit("/action.jpg");
    reveal_strlit("/key.jpg");
    reveal_strlit(".png");
    reveal_strlit("_0.png");
    reveal_strlit("/action.svg");
    reveal_strlit("/key.svg");
    reveal_strlit("_0.svg");
    let a = icon_candidates(slug);
    let b = state_candidates(slug);
    assert forall|k: int| 0 <= k < a.len() implies (k >= 8 <==> ".svg"@.is_suffix_of(
        #[trigger] a[k],
    )) by {
        let e = a[k];
        let n = e.len() as int;
        if k >= 8 {
            assert(e.subrange(n - 4, n) =~= ".svg"@);
        } else {
            assert(e.subrange(n - 4, n)[3] == e[n - 1]);
            assert(e[n - 1] == 'g');
            assert(e.subrange(n - 4, n)[1] == e[n - 3]);
            assert(e[n - 3] == 'p' || e[n - 3] == 'j');
        }
    }
    assert forall|k: int| 0 <= k < b.len() implies (k >= 8 <==> ".svg"@.is_suffix_of(
        #[trigger] b[k],
    )) by {
        let e = b[k];
        let n = e.len() as int;
        if k >= 8 {
            assert(e.subrange(n - 4, n) =~= ".svg"@);
        } else {
            assert(e.subrange(n - 4, n)[3] == e[n - 1]);
            assert(e[n - 1] == 'g');
            assert(e.subrange(n - 4, n)[1] == e[n - 3]);
            assert(e[n - 3] == 'p' || e[n - 3] == 'j');
        }
    }
    assert(b[2] == a[0] && b[3] == a[1] && b[0] == a[2] && b[1] == a[3] && b[5] == a[4] && b[4]
        == a[5] && b[6] == a[6] && b[7] == a[7] && b[9] == a[8] && b[8] == a[9] && b[10] == a[10]
        && b[11] == a[11]);
}

/// An image that was found is used, and the blank one only in place of one that was not,
/// where it exists.
pub proof fn law_blank_image_stands_in(b: BundleView, found: Seq<char>)
    ensures
        or_blank(b, Some(found)) == found,
        b.files.contains("blank.png"@) ==> or_blank(b, None) == "blank.png"@,
        !b.files.contains("blank.png"@) ==> or_blank(b, None).len() == 0,
{
}

/// The name that an id suggests is its last part, with the first letter of each of its
/// words in upper case; the ending of a plugin does not count.
#[verifier::rlimit(50)]
pub proof fn law_name_of_an_id(head: Seq<char>, word: Seq<char>, next: Seq<char>)
    requires
        !word.contains('.'),
        !word.contains('-'),
        !next.contains('.'),
        !next.contains('-'),
    ensures
        name_from_id(head + seq!['.'] + word + ".sdPlugin"@) == capitalized(word),
        name_from_id(head + seq!['.'] + word + seq!['-'] + next + ".sdPlugin"@) == capitalized(word)
            + seq![' '] + capitalized(next),
{
    reveal_strlit(".sdPlugin");
    let e = ".sdPlugin"@;
    let a = head + seq!['.'] + word;
    let s = a + e;
    assert(s.subrange(s.len() - e.len(), s.len() as int) =~= e);
    assert(s.take(s.len() - e.len()) =~= a);
    lemma_last_piece(head, '.', word);
    text::lemma_split_on_none(word, '-');
    let pair = word + seq!['-'] + next;
    assert(!pair.contains('.')) by {
        assert forall|j: int| 0 <= j < pair.len() implies #[trigger] pair[j] != '.' by {
            if j < word.len() {
                assert(pair[j] == word[j]);
            } else if j > word.len() {
                assert(pair[j] == next[j - word.len() - 1]);
            }
        }
    }
    let b = head + seq!['.'] + pair;
    let t = b + e;
    assert(t =~= head + seq!['.'] + word + seq!['-'] + next + e);
    assert(t.subrange(t.len() - e.len(), t.len() as int) =~= e);
    assert(t.take(t.len() - e.len()) =~= b);
    lemma_last_piece(head, '.', pair);
    text::lemma_split_on_head(word, '-', next);
    text::lemma_split_on_none(next, '-');
    let w = seq![word] + seq![next];
    assert(w.drop_last() =~= seq![word]);
    assert(w.last() == next);
    reveal_with_fuel(title_of, 2);
}

proof fn lemma_last_piece(head: Seq<char>, c: char, word: Seq<char>)
    requires
        !word.contains(c),
    ensures
        text::split_on(head + seq![c] + word, c).last() == word,
    decreases head.len(),
{
    text::lemma_index_of_char(head, c);
    text::lemma_split_on_none(word, c);
    let k = text::index_of_char(head, c);
    if k < head.len() {
        let first = head.take(k);
        let rest = head.skip(k + 1);
        assert(!first.contains(c)) by {
            assert forall|j: int| 0 <= j < first.len() implies #[trigger] first[j] != c by {
                assert(first[j] == head[j]);
            }
        }
        assert(head + seq![c] + word =~= first + seq![c] + (rest + seq![c] + word));
        text::lemma_split_on_head(first, c, rest + seq![c] + word);
        lemma_last_piece(rest, c, word);
        text::lemma_split_on_step(rest + seq![c] + word, c);
        let q = text::split_on(rest + seq![c] + word, c);
        assert((seq![first] + q).last() == q.last());
    } else {
        assert(!head.contains(c)) by {
            assert forall|j: int| 0 <= j < head.len() implies #[trigger] head[j] != c by {}
        }
        text::lemma_split_on_head(head, c, word);
        assert((seq![head] + seq![word]).last() == word);
    }
}

/// The name of an action leads to a directory with a dash in place of each space and of
/// each slash.
pub proof fn law_slug_has_dashes(name: Seq<char>, a: Seq<char>, b: Seq<char>)
    requires
        text::lowercased(name) == name,
        !a.contains(' '),
        !a.contains('/'),
        !b.contains(' '),
        !b.contains('/'),
    ensures
        name == a + seq![' '] + b ==> slug_of_name(name) == a + "-"@ + b,
        name == a + seq!['/'] + b ==> slug_of_name(name) == a + "-"@ + b,
{
    reveal_strlit("-");
    let d = "-"@;
    text::law_replaced_characters(a, ' ', d, seq![' '] + b);
    text::law_replaced_characters(seq![' '], ' ', d, b);
    text::law_replaced_characters(b, ' ', d, Seq::empty());
    text::law_replaced_characters(a, '/', d, seq!['/'] + b);
    text::law_replaced_characters(seq!['/'], '/', d, b);
    text::law_replaced_characters(b, '/', d, Seq::empty());
    assert(a + seq![' '] + b =~= a + (seq![' '] + b));
    assert(a + seq!['/'] + b =~= a + (seq!['/'] + b));
    let whole = a + d + b;
    assert(a + (d + b) =~= whole);
    assert(!whole.contains('/')) by {
        assert forall|j: int| 0 <= j < whole.len() implies #[trigger] whole[j] != '/' by {
            if j < a.len() {
                assert(whole[j] == a[j]);
            } else if j > a.len() {
                assert(whole[j] == b[j - a.len() - 1]);
            }
        }
    }
    text::law_replaced_characters(whole, '/', d, Seq::empty());
    let other = a + seq!['/'] + b;
    assert(!other.contains(' ')) by {
        assert forall|j: int| 0 <= j < other.len() implies #[trigger] other[j] != ' ' by {
            if j < a.len() {
                assert(other[j] == a[j]);
            } else if j > a.len() {
                assert(other[j] == b[j - a.len() - 1]);
            }
        }
    }
    text::law_replaced_characters(other, ' ', d, Seq::empty());
}

} // verus!
