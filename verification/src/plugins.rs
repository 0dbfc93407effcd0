//! Launching plugins: what their manifests become, where their actions are
//! listed, and how their code is run.
use vstd::prelude::*;
use crate::manifest;
use crate::manifest::{Platform, PluginManifest, OS};
use crate::marketplace;
use crate::path;
use crate::path::{is_safe_relative_path, relative_to};
use crate::shared;
use crate::shared::{
    convert_icon, join, Action, ActionState, ActionView, Category, StateView,
};
use crate::text;
use crate::text::{
    chars_of, clone_opt, clone_texts, concat2, concat3, decimal_text, ends_with, owned, replace,
    same_text, text_of_range, to_lowercase, trim, trim_start_char,
};

verus! {

// ---------------------------------------------------------------------------
// Manifests
// ---------------------------------------------------------------------------

/// The font that stands in for a font family; `None` where the family stays.
pub open spec fn font_for(family: Seq<char>) -> Option<Seq<char>> {
    let f = text::trimmed(text::lowercased(family));
    if f == "arial"@ {
        Some("Liberation Sans"@)
    } else if f == "arial black"@ {
        Some("Archivo Black"@)
    } else if f == "comic sans ms"@ {
        Some("Comic Neue"@)
    } else if f == "courier"@ || f == "courier new"@ {
        Some("Courier Prime"@)
    } else if f == "georgia"@ {
        Some("Tinos"@)
    } else if f == "impact"@ {
        Some("Anton"@)
    } else if f == "microsoft sans serif"@ || f == "times new roman"@ {
        Some("Liberation Serif"@)
    } else if f == "tahoma"@ || f == "verdana"@ {
        Some("Open Sans"@)
    } else if f == "trebuchet ms"@ {
        Some("Fira Sans"@)
    } else {
        None
    }
}

/// The font that stands in for a font family.
pub fn substitute_font(family: &str) -> (r: Option<String>)
    ensures
        text::opt_text(r) == font_for(family@),
{
    let l = to_lowercase(family);
    let f = trim(&l);
    if same_text(&f, "arial") {
        Some(owned("Liberation Sans"))
    } else if same_text(&f, "arial black") {
        Some(owned("Archivo Black"))
    } else if same_text(&f, "comic sans ms") {
        Some(owned("Comic Neue"))
    } else if same_text(&f, "courier") || same_text(&f, "courier new") {
        Some(owned("Courier Prime"))
    } else if same_text(&f, "georgia") {
        Some(owned("Tinos"))
    } else if same_text(&f, "impact") {
        Some(owned("Anton"))
    } else if same_text(&f, "microsoft sans serif") || same_text(&f, "times new roman") {
        Some(owned("Liberation Serif"))
    } else if same_text(&f, "tahoma") || same_text(&f, "verdana") {
        Some(owned("Open Sans"))
    } else if same_text(&f, "trebuchet ms") {
        Some(owned("Fira Sans"))
    } else {
        None
    }
}

/// A state of an action of a plugin in `dir`: its image is a file, that of the
/// action where it has none of its own, and its font is one that is there.
pub open spec fn prepared_state(
    s: StateView,
    icon: Seq<char>,
    dir: Seq<char>,
    existing: Seq<Seq<char>>,
) -> StateView {
    StateView {
        image: if s.image == "actionDefaultImage"@ {
            icon
        } else {
            shared::icon_file(shared::joined(dir, s.image), existing)
        },
        family: match font_for(s.family) {
            Some(f) => f,
            None => s.family,
        },
        ..s
    }
}

/// The property inspector of an action: its own, or that of the plugin where it
/// has none; none where the path leads out of the plugin.
pub open spec fn prepared_inspector(
    own: Seq<char>,
    common: Option<Seq<char>>,
    dir: Seq<char>,
) -> Seq<char> {
    if own.len() > 0 {
        if path::stays_below(own) {
            shared::joined(dir, own)
        } else {
            Seq::empty()
        }
    } else {
        match common {
            Some(p) => if path::stays_below(p) {
                shared::joined(dir, p)
            } else {
                own
            },
            None => own,
        }
    }
}

/// An action of the plugin `uuid` in `dir`, with its files.
pub open spec fn prepared_action(
    a: ActionView,
    uuid: Seq<char>,
    dir: Seq<char>,
    inspector: Option<Seq<char>>,
    existing: Seq<Seq<char>>,
) -> ActionView {
    let icon = shared::icon_file(shared::joined(dir, a.icon), existing);
    ActionView {
        plugin: uuid,
        icon,
        property_inspector: prepared_inspector(a.property_inspector, inspector, dir),
        states: a.states.map_values(|s: StateView| prepared_state(s, icon, dir, existing)),
        ..a
    }
}

/// The category of a plugin.
pub open spec fn branded_category(category: Seq<char>, product: Seq<char>) -> Seq<char> {
    if text::trimmed(category) == "OpenDeck"@ {
        product
    } else {
        category
    }
}

/// The name of a plugin.
pub open spec fn branded_name(name: Seq<char>) -> Seq<char> {
    if text::trimmed(name) == "OpenDeck Starter Pack"@ {
        "RiverDeck Starter Pack"@
    } else {
        name
    }
}

fn prepare_state(state: &ActionState, icon: &str, dir: &str, existing: &Vec<String>) -> (r:
    ActionState)
    ensures
        r@ == prepared_state(state@, icon@, dir@, text::texts(existing@)),
{
    let mut r = state.copy();
    if same_text(&state.image, "actionDefaultImage") {
        r.image = owned(icon);
    } else {
        let p = join(dir, &state.image);
        r.image = convert_icon(&p, existing);
    }
    match substitute_font(&state.family) {
        Some(f) => {
            r.family = f;
        },
        None => {},
    }
    r
}

fn prepare_inspector(own: &str, common: &Option<String>, dir: &str) -> (r: String)
    ensures
        r@ == prepared_inspector(own@, text::opt_text(*common), dir@),
{
    if !own.is_empty() {
        if is_safe_relative_path(own) {
            return join(dir, own);
        }
        return String::new();
    }
    match common {
        Some(p) => if is_safe_relative_path(p) {
            join(dir, p)
        } else {
            owned(own)
        },
        None => owned(own),
    }
}

fn prepare_action(
    action: &Action,
    uuid: &str,
    dir: &str,
    inspector: &Option<String>,
    existing: &Vec<String>,
) -> (r: Action)
    ensures
        r@ == prepared_action(
            action@,
            uuid@,
            dir@,
            text::opt_text(*inspector),
            text::texts(existing@),
        ),
{
    let p = join(dir, &action.icon);
    let icon = convert_icon(&p, existing);
    let mut states: Vec<ActionState> = Vec::new();
    let mut i: usize = 0;
    while i < action.states.len()
        invariant
            i <= action.states@.len(),
            states@.len() == i,
            forall|k: int|
                0 <= k < i ==> (#[trigger] states@[k])@ == prepared_state(
                    action.states@[k]@,
                    icon@,
                    dir@,
                    text::texts(existing@),
                ),
        decreases action.states@.len() - i,
    {
        states.push(prepare_state(&action.states[i], &icon, dir, existing));
        i = i + 1;
    }
    let mut r = action.copy();
    r.plugin = owned(uuid);
    r.property_inspector = prepare_inspector(&action.property_inspector, inspector, dir);
    r.icon = icon;
    r.states = states;
    assert(r@.states =~= action@.states.map_values(
        |s: StateView| prepared_state(s, icon@, dir@, text::texts(existing@)),
    ));
    r
}

/// The actions of a plugin in `dir`, with their files named.
pub open spec fn prepared_actions(
    m: PluginManifest,
    uuid: Seq<char>,
    dir: Seq<char>,
    existing: Seq<Seq<char>>,
) -> Seq<ActionView> {
    Seq::new(
        m.actions@.len(),
        |k: int|
            prepared_action(
                m.actions@[k]@,
                uuid,
                dir,
                text::opt_text(m.property_inspector_path),
                existing,
            ),
    )
}

/// The icon of the category of a plugin in `dir`.
pub open spec fn prepared_icon(
    m: PluginManifest,
    dir: Seq<char>,
    existing: Seq<Seq<char>>,
) -> Option<Seq<char>> {
    match m.category_icon {
        Some(icon) => Some(shared::icon_file(shared::joined(dir, icon@), existing)),
        None => None,
    }
}

/// Names the files of a plugin in `dir` in its manifest, and gives legacy names
/// their present ones. `existing` are the icon files that exist.
pub fn prepare_manifest(
    manifest: PluginManifest,
    uuid: &str,
    dir: &str,
    product_name: &str,
    existing: &Vec<String>,
) -> (r: PluginManifest)
    ensures
        r.category@ == branded_category(manifest.category@, product_name@),
        r.name@ == branded_name(manifest.name@),
        text::opt_text(r.category_icon) == prepared_icon(
            manifest,
            dir@,
            text::texts(existing@),
        ),
        shared::actions_view(r.actions@) == prepared_actions(
            manifest,
            uuid@,
            dir@,
            text::texts(existing@),
        ),
        r.author == manifest.author,
        r.version == manifest.version,
        r.icon == manifest.icon,
        r.os == manifest.os,
        r.code_path == manifest.code_path,
        r.code_paths == manifest.code_paths,
        r.code_path_windows == manifest.code_path_windows,
        r.code_path_macos == manifest.code_path_macos,
        r.code_path_linux == manifest.code_path_linux,
        r.property_inspector_path == manifest.property_inspector_path,
        r.device_namespace == manifest.device_namespace,
        r.applications_to_monitor == manifest.applications_to_monitor,
        r.has_settings_interface == manifest.has_settings_interface,
{
    let mut r = manifest;
    let ghost before = r.actions@;
    if same_text(&trim(&r.category), "OpenDeck") {
        r.category = owned(product_name);
    }
    if same_text(&trim(&r.name), "OpenDeck Starter Pack") {
        r.name = owned("RiverDeck Starter Pack");
    }
    let category_icon = match &r.category_icon {
        Some(icon) => {
            let p = join(dir, icon);
            Some(convert_icon(&p, existing))
        },
        None => None,
    };
    r.category_icon = category_icon;
    let mut actions: Vec<Action> = Vec::new();
    let mut i: usize = 0;
    while i < r.actions.len()
        invariant
            i <= r.actions@.len(),
            before == r.actions@,
            actions@.len() == i,
            forall|k: int|
                0 <= k < i ==> (#[trigger] actions@[k])@ == prepared_action(
                    before[k]@,
                    uuid@,
                    dir@,
                    text::opt_text(r.property_inspector_path),
                    text::texts(existing@),
                ),
        decreases r.actions@.len() - i,
    {
        actions.push(
            prepare_action(&r.actions[i], uuid, dir, &r.property_inspector_path, existing),
        );
        i = i + 1;
    }
    r.actions = actions;
    assert(shared::actions_view(r.actions@) =~= prepared_actions(
        manifest,
        uuid@,
        dir@,
        text::texts(existing@),
    ));
    r
}

// ---------------------------------------------------------------------------
// Categories
// ---------------------------------------------------------------------------

/// The categories of actions. No two have the same name.
pub struct Categories {
    pub list: Vec<(String, Category)>,
}

/// The model of a category: its icon and its actions.
pub struct CategoryView {
    pub icon: Option<Seq<char>>,
    pub actions: Seq<ActionView>,
}

impl View for Categories {
    type V = Seq<(Seq<char>, CategoryView)>;

    open spec fn view(&self) -> Seq<(Seq<char>, CategoryView)> {
        self.list@.map_values(|c: (String, Category)| (c.0@, category_view(c.1)))
    }
}

/// The model of a category.
pub open spec fn category_view(c: Category) -> CategoryView {
    CategoryView { icon: text::opt_text(c.icon), actions: shared::actions_view(c.actions@) }
}

/// The names of categories.
pub open spec fn category_names(s: Seq<(Seq<char>, CategoryView)>) -> Seq<Seq<char>> {
    s.map_values(|c: (Seq<char>, CategoryView)| c.0)
}

/// The uuids of actions.
pub open spec fn uuids(s: Seq<ActionView>) -> Seq<Seq<char>> {
    s.map_values(|a: ActionView| a.uuid)
}

/// The actions with `a` behind the others, in place of the first with the same
/// uuid.
pub open spec fn with_action(s: Seq<ActionView>, a: ActionView) -> Seq<ActionView> {
    if uuids(s).contains(a.uuid) {
        s.remove(text::first_index(uuids(s), a.uuid)).push(a)
    } else {
        s.push(a)
    }
}

/// The actions with the first `n` of `more` added.
pub open spec fn with_actions(s: Seq<ActionView>, more: Seq<ActionView>, n: nat) -> Seq<ActionView>
    decreases n,
{
    if n == 0 || n > more.len() {
        s
    } else {
        with_action(with_actions(s, more, (n - 1) as nat), more[n - 1])
    }
}

/// The categories after the actions of a plugin were listed: in the category of
/// the plugin where there is one, in a new one where there is none and the
/// plugin has actions.
pub open spec fn listed(
    s: Seq<(Seq<char>, CategoryView)>,
    name: Seq<char>,
    icon: Option<Seq<char>>,
    actions: Seq<ActionView>,
) -> Seq<(Seq<char>, CategoryView)> {
    let names = category_names(s);
    if names.contains(name) {
        let k = text::first_index(names, name);
        s.update(
            k,
            (
                s[k].0,
                CategoryView {
                    actions: with_actions(s[k].1.actions, actions, actions.len()),
                    ..s[k].1
                },
            ),
        )
    } else if actions.len() > 0 {
        s.push((name, CategoryView { icon, actions }))
    } else {
        s
    }
}

fn find_uuid(actions: &Vec<Action>, uuid: &str) -> (r: usize)
    ensures
        r == text::first_index(uuids(shared::actions_view(actions@)), uuid@),
        r <= actions@.len(),
        r < actions@.len() <==> uuids(shared::actions_view(actions@)).contains(uuid@),
{
    let ghost ids = uuids(shared::actions_view(actions@));
    let mut i: usize = 0;
    proof {
        text::lemma_first_index(ids, uuid@);
    }
    while i < actions.len()
        invariant
            i <= actions@.len(),
            ids == uuids(shared::actions_view(actions@)),
            forall|j: int| 0 <= j < i ==> ids[j] != uuid@,
        decreases actions@.len() - i,
    {
        assert(ids[i as int] == actions@[i as int].uuid@);
        if same_text(&actions[i].uuid, uuid) {
            proof {
                text::lemma_first_index_is(ids, uuid@, i as int);
            }
            return i;
        }
        i = i + 1;
    }
    proof {
        text::lemma_first_index_is(ids, uuid@, i as int);
    }
    i
}

fn put_action(actions: &mut Vec<Action>, action: Action)
    ensures
        shared::actions_view(final(actions)@) == with_action(
            shared::actions_view(old(actions)@),
            action@,
        ),
{
    let ghost before = shared::actions_view(actions@);
    let k = find_uuid(actions, &action.uuid);
    if k < actions.len() {
        let _ = actions.remove(k);
        assert(shared::actions_view(actions@) =~= before.remove(k as int));
    }
    let ghost middle = shared::actions_view(actions@);
    actions.push(action);
    assert(shared::actions_view(actions@) =~= middle.push(action@));
}

fn put_actions(actions: &mut Vec<Action>, more: &Vec<Action>)
    ensures
        shared::actions_view(final(actions)@) == with_actions(
            shared::actions_view(old(actions)@),
            shared::actions_view(more@),
            more@.len(),
        ),
{
    let ghost start = shared::actions_view(actions@);
    let ghost all = shared::actions_view(more@);
    let mut i: usize = 0;
    while i < more.len()
        invariant
            i <= more@.len(),
            all == shared::actions_view(more@),
            shared::actions_view(actions@) == with_actions(start, all, i as nat),
        decreases more@.len() - i,
    {
        assert(all[i as int] == more@[i as int]@);
        put_action(actions, more[i].copy());
        i = i + 1;
    }
}

impl Categories {
    fn position(&self, name: &str) -> (r: usize)
        ensures
            r == text::first_index(category_names(self@), name@),
            r <= self.list@.len(),
            r < self.list@.len() <==> category_names(self@).contains(name@),
            r < self.list@.len() ==> self.list@[r as int].0@ == name@,
    {
        let ghost names = category_names(self@);
        let mut i: usize = 0;
        proof {
            text::lemma_first_index(names, name@);
        }
        while i < self.list.len()
            invariant
                i <= self.list@.len(),
                names == category_names(self@),
                forall|j: int| 0 <= j < i ==> names[j] != name@,
            decreases self.list@.len() - i,
        {
            assert(names[i as int] == self.list@[i as int].0@);
            if same_text(&self.list[i].0, name) {
                proof {
                    text::lemma_first_index_is(names, name@, i as int);
                }
                return i;
            }
            i = i + 1;
        }
        proof {
            text::lemma_first_index_is(names, name@, i as int);
        }
        i
    }

    /// Lists the actions of a plugin under a category.
    pub fn list_actions(&mut self, name: &str, icon: &Option<String>, actions: &Vec<Action>)
        ensures
            final(self)@ == listed(
                old(self)@,
                name@,
                text::opt_text(*icon),
                shared::actions_view(actions@),
            ),
    {
        let k = self.position(name);
        let ghost before = self@;
        if k < self.list.len() {
            put_actions(&mut self.list[k].1.actions, actions);
            assert(self@ =~= listed(
                before,
                name@,
                text::opt_text(*icon),
                shared::actions_view(actions@),
            ));
        } else if actions.len() > 0 {
            let mut copy: Vec<Action> = Vec::new();
            let mut i: usize = 0;
            while i < actions.len()
                invariant
                    i <= actions@.len(),
                    copy@.len() == i,
                    forall|j: int| 0 <= j < i ==> (#[trigger] copy@[j])@ == actions@[j]@,
                decreases actions@.len() - i,
            {
                copy.push(actions[i].copy());
                i = i + 1;
            }
            assert(shared::actions_view(copy@) =~= shared::actions_view(actions@));
            self.list.push((owned(name), Category { icon: clone_opt(icon), actions: copy }));
            assert(self@ =~= before.push(
                (
                    name@,
                    CategoryView {
                        icon: text::opt_text(*icon),
                        actions: shared::actions_view(actions@),
                    },
                ),
            ));
        } else {
            assert(shared::actions_view(actions@).len() == 0);
        }
    }

    /// Moves the actions of the legacy category `OpenDeck` behind those of the
    /// product's category.
    pub fn merge_legacy_category(&mut self, product_name: &str)
        requires
            product_name@ != "OpenDeck"@,
        ensures
            final(self)@ == without_legacy(old(self)@, product_name@),
    {
        let k = self.position("OpenDeck");
        if k >= self.list.len() {
            return;
        }
        let ghost before = self@;
        let (_, legacy) = self.list.remove(k);
        let ghost rest = before.remove(k as int);
        assert(self@ =~= rest);
        assert(shared::actions_view(legacy.actions@) == before[k as int].1.actions);
        let t = self.position(product_name);
        let mut actions = legacy.actions;
        if t < self.list.len() {
            let ghost x = shared::actions_view(self.list@[t as int].1.actions@);
            let ghost y = shared::actions_view(actions@);
            self.list[t].1.actions.append(&mut actions);
            assert(shared::actions_view(self.list@[t as int].1.actions@) =~= x + y);
            assert(self@ =~= without_legacy(before, product_name@));
        } else {
            self.list.push((owned(product_name), Category { icon: None, actions }));
            assert(self@ =~= without_legacy(before, product_name@));
        }
    }
}

/// The categories with the actions of the legacy one behind those of the
/// product's.
pub open spec fn without_legacy(
    s: Seq<(Seq<char>, CategoryView)>,
    product: Seq<char>,
) -> Seq<(Seq<char>, CategoryView)> {
    let names = category_names(s);
    if !names.contains("OpenDeck"@) {
        s
    } else {
        let k = text::first_index(names, "OpenDeck"@);
        let rest = s.remove(k);
        let moved = s[k].1.actions;
        if category_names(rest).contains(product) {
            let t = text::first_index(category_names(rest), product);
            rest.update(
                t,
                (
                    rest[t].0,
                    CategoryView { actions: rest[t].1.actions + moved, ..rest[t].1 },
                ),
            )
        } else {
            rest.push((product, CategoryView { icon: None, actions: moved }))
        }
    }
}

/// The last of the listed actions of a plugin is in its category.
pub proof fn law_listed_action_is_there(
    s: Seq<(Seq<char>, CategoryView)>,
    name: Seq<char>,
    icon: Option<Seq<char>>,
    actions: Seq<ActionView>,
)
    requires
        actions.len() > 0,
    ensures
        ({
            let l = listed(s, name, icon, actions);
            let k = text::first_index(category_names(l), name);
            category_names(l).contains(name) && l[k].1.actions.last() == actions.last()
        }),
{
    let names = category_names(s);
    let l = listed(s, name, icon, actions);
    text::lemma_first_index(names, name);
    if names.contains(name) {
        assert(category_names(l) =~= names);
    } else {
        let now = category_names(l);
        assert(now =~= names.push(name));
        assert(now[names.len() as int] == name);
        assert forall|j: int| 0 <= j < names.len() implies now[j] != name by {
            assert(now[j] == names[j]);
        }
        text::lemma_first_index_is(now, name, names.len() as int);
    }
}

// ---------------------------------------------------------------------------
// Code paths
// ---------------------------------------------------------------------------

/// The name of a platform in manifests.
pub open spec fn platform_name(p: Platform) -> Seq<char> {
    match p {
        Platform::Linux => "linux"@,
        Platform::MacOs => "mac"@,
        Platform::Windows => "windows"@,
    }
}

/// The name of a platform in manifests.
pub fn platform_text(p: Platform) -> (r: &'static str)
    ensures
        r@ == platform_name(p),
{
    match p {
        Platform::Linux => "linux",
        Platform::MacOs => "mac",
        Platform::Windows => "windows",
    }
}

/// The code paths of a manifest.
pub struct CodePathsView {
    pub platforms: Seq<Seq<char>>,
    pub common: Option<Seq<char>>,
    pub by_target: Seq<(Seq<char>, Seq<char>)>,
    pub windows: Option<Seq<char>>,
    pub macos: Option<Seq<char>>,
    pub linux: Option<Seq<char>>,
}

/// The code path of a target.
pub open spec fn target_path(paths: Seq<(Seq<char>, Seq<char>)>, target: Seq<char>) -> Option<
    Seq<char>,
>
    decreases paths.len(),
{
    if paths.len() == 0 {
        None
    } else if paths[0].0 == target {
        Some(paths[0].1)
    } else {
        target_path(paths.drop_first(), target)
    }
}

/// The first of two that is given.
pub open spec fn or_else(a: Option<Seq<char>>, b: Option<Seq<char>>) -> Option<Seq<char>> {
    if a is Some {
        a
    } else {
        b
    }
}

/// The code path on the platform of the application, for a plugin that supports
/// it: that of the target, of the platform, or the common one, in this order.
pub open spec fn native_path(c: CodePathsView, platform: Platform, target: Seq<char>) -> Option<
    Seq<char>,
> {
    let own = match platform {
        Platform::Linux => c.linux,
        Platform::MacOs => c.macos,
        Platform::Windows => c.windows,
    };
    let here = or_else(own, c.common);
    if target.len() > 0 {
        or_else(target_path(c.by_target, target), here)
    } else {
        here
    }
}

/// The code path of a plugin and whether the plugin supports only Windows:
/// natively where the plugin supports the platform; where it supports only
/// Windows, through a webview or Node.js, and under Wine except on Linux.
pub open spec fn runnable(c: CodePathsView, platform: Platform, target: Seq<char>) -> Option<
    (Seq<char>, bool),
> {
    if c.platforms.contains(platform_name(platform)) {
        match native_path(c, platform, target) {
            Some(p) => Some((p, false)),
            None => None,
        }
    } else if c.platforms.contains("windows"@) {
        match or_else(c.common, c.windows) {
            Some(p) => if platform == Platform::Linux && runner_for(p, true) == Runner::Wine {
                None
            } else {
                Some((p, true))
            },
            None => None,
        }
    } else {
        None
    }
}

/// A manifest lists a platform.
pub open spec fn lists_platform(m: PluginManifest, name: Seq<char>) -> bool {
    exists|k: int| 0 <= k < m.os@.len() && (#[trigger] m.os@[k]).platform@ == name
}

/// A manifest gives a code path for a target.
pub open spec fn gives_target(m: PluginManifest, target: Seq<char>) -> bool {
    m.code_paths matches Some(v) && exists|k: int|
        0 <= k < v@.len() && (#[trigger] v@[k]).0@ == target
}

proof fn lemma_lists(m: PluginManifest, name: Seq<char>)
    ensures
        lists_platform(m, name) == code_paths_of(m).platforms.contains(name),
{
    let all = manifest::platforms(m.os@);
    if lists_platform(m, name) {
        let k = choose|k: int| 0 <= k < m.os@.len() && (#[trigger] m.os@[k]).platform@ == name;
        assert(all[k] == name);
    }
    if all.contains(name) {
        let k = choose|k: int| 0 <= k < all.len() && all[k] == name;
        assert(m.os@[k].platform@ == name);
    }
}

proof fn lemma_target_path(paths: Seq<(Seq<char>, Seq<char>)>, target: Seq<char>)
    ensures
        target_path(paths, target) is None <==> forall|k: int|
            0 <= k < paths.len() ==> (#[trigger] paths[k]).0 != target,
        target_path(paths, target) matches Some(p) ==> exists|k: int|
            0 <= k < paths.len() && (#[trigger] paths[k]) == (target, p) && forall|j: int|
                0 <= j < k ==> (#[trigger] paths[j]).0 != target,
    decreases paths.len(),
{
    if paths.len() > 0 {
        let rest = paths.drop_first();
        lemma_target_path(rest, target);
        assert(paths[0].0 == target || paths[0].0 != target);
        assert forall|k: int| 0 <= k < rest.len() implies #[trigger] rest[k] == paths[k + 1] by {}
        assert forall|k: int| 1 <= k < paths.len() implies #[trigger] paths[k] == rest[k - 1] by {}
        if paths[0].0 == target {
            assert(paths[0] == (target, target_path(paths, target)->0));
        } else if let Some(p) = target_path(rest, target) {
            let k = choose|k: int|
                0 <= k < rest.len() && (#[trigger] rest[k]) == (target, p) && forall|j: int|
                    0 <= j < k ==> (#[trigger] rest[j]).0 != target;
            assert(paths[k + 1] == (target, p));
            assert forall|j: int| 0 <= j < k + 1 implies (#[trigger] paths[j]).0 != target by {
                if j > 0 {
                    assert(rest[j - 1].0 != target);
                }
            }
        } else {
            assert forall|k: int| 0 <= k < paths.len() implies (#[trigger] paths[k]).0
                != target by {
                if k > 0 {
                    assert(rest[k - 1].0 != target);
                }
            }
        }
    }
}

proof fn lemma_gives_target(m: PluginManifest, target: Seq<char>)
    ensures
        gives_target(m, target) == (target_path(code_paths_of(m).by_target, target) is Some),
{
    let paths = code_paths_of(m).by_target;
    lemma_target_path(paths, target);
    if let Some(v) = m.code_paths {
        if gives_target(m, target) {
            let k = choose|k: int| 0 <= k < v@.len() && (#[trigger] v@[k]).0@ == target;
            assert(paths[k].0 == target);
        }
        if target_path(paths, target) is Some {
            let k = choose|k: int|
                0 <= k < paths.len() && (#[trigger] paths[k]) == (
                    target,
                    target_path(paths, target)->0,
                ) && forall|j: int| 0 <= j < k ==> (#[trigger] paths[j]).0 != target;
            assert(v@[k].0@ == target);
        }
    }
}

/// On a platform that a manifest lists, where the manifest gives no code path for
/// the target, the code path of the platform is run, natively and whatever the
/// common code path is. The common one is run only where the platform has none of
/// its own, and where there is neither nothing is run.
pub proof fn law_platform_path_before_common(
    m: PluginManifest,
    platform: Platform,
    target: Seq<char>,
    own: Option<String>,
)
    requires
        platform == Platform::Linux ==> lists_platform(m, "linux"@) && own == m.code_path_linux,
        platform == Platform::MacOs ==> lists_platform(m, "mac"@) && own == m.code_path_macos,
        platform == Platform::Windows ==> lists_platform(m, "windows"@) && own
            == m.code_path_windows,
        !gives_target(m, target),
    ensures
        own matches Some(p) ==> runnable(code_paths_of(m), platform, target) == Some((p@, false)),
        own is None && (m.code_path is Some) ==> runnable(code_paths_of(m), platform, target)
            == Some((m.code_path->0@, false)),
        own is None && m.code_path is None ==> runnable(code_paths_of(m), platform, target) is None,
{
    lemma_lists(m, platform_name(platform));
    lemma_gives_target(m, target);
}

/// On a platform that a manifest lists, the first code path that it gives for the
/// target is run, whatever the other code paths are.
pub proof fn law_target_path_first(
    m: PluginManifest,
    platform: Platform,
    target: Seq<char>,
    k: int,
)
    requires
        lists_platform(
            m,
            match platform {
                Platform::Linux => "linux"@,
                Platform::MacOs => "mac"@,
                Platform::Windows => "windows"@,
            },
        ),
        target.len() > 0,
        m.code_paths is Some,
        0 <= k < m.code_paths->0@.len(),
        m.code_paths->0@[k].0@ == target,
        forall|j: int| 0 <= j < k ==> (#[trigger] m.code_paths->0@[j]).0@ != target,
    ensures
        runnable(code_paths_of(m), platform, target) == Some((m.code_paths->0@[k].1@, false)),
{
    lemma_lists(m, platform_name(platform));
    let paths = code_paths_of(m).by_target;
    lemma_target_path(paths, target);
    assert(paths[k] == (target, m.code_paths->0@[k].1@));
    let p = target_path(paths, target)->0;
    let i = choose|i: int|
        0 <= i < paths.len() && (#[trigger] paths[i]) == (target, p) && forall|j: int|
            0 <= j < i ==> (#[trigger] paths[j]).0 != target;
    if i < k {
        assert(m.code_paths->0@[i].0@ == target);
    }
}

/// A plugin that lists neither the platform nor Windows is not run, and one that
/// lists only Windows never runs natively elsewhere: its common code path is taken
/// before that of Windows.
pub proof fn law_other_platforms(m: PluginManifest, platform: Platform, target: Seq<char>)
    requires
        !lists_platform(m, platform_name(platform)),
    ensures
        !lists_platform(m, "windows"@) ==> runnable(code_paths_of(m), platform, target) is None,
        runnable(code_paths_of(m), platform, target) matches Some(c) ==> c.1 && (m.code_path is Some
            ==> c.0 == m.code_path->0@) && (m.code_path is None ==> m.code_path_windows is Some
            && c.0 == m.code_path_windows->0@),
{
    lemma_lists(m, platform_name(platform));
    lemma_lists(m, "windows"@);
}

/// On Linux no plugin runs under Wine.
pub proof fn law_no_wine_on_linux(c: CodePathsView, target: Seq<char>)
    ensures
        runnable(c, Platform::Linux, target) matches Some(r) ==> runner_for(r.0, r.1)
            != Runner::Wine,
{
}

/// The code paths of a manifest.
pub open spec fn code_paths_of(m: PluginManifest) -> CodePathsView {
    CodePathsView {
        platforms: manifest::platforms(m.os@),
        common: text::opt_text(m.code_path),
        by_target: match m.code_paths {
            Some(v) => v@.map_values(|p: (String, String)| (p.0@, p.1@)),
            None => Seq::empty(),
        },
        windows: text::opt_text(m.code_path_windows),
        macos: text::opt_text(m.code_path_macos),
        linux: text::opt_text(m.code_path_linux),
    }
}

/// Why a plugin is not run.
#[derive(Clone, Copy, PartialEq, Eq, Structural, Debug)]
pub enum LaunchError {
    UnsupportedPlatform,
    UnsafeCodePath,
    NodeTooOld,
}

fn supports(os: &Vec<OS>, platform: &str) -> (r: bool)
    ensures
        r == manifest::platforms(os@).contains(platform@),
{
    let mut i: usize = 0;
    while i < os.len()
        invariant
            i <= os@.len(),
            forall|j: int| 0 <= j < i ==> manifest::platforms(os@)[j] != platform@,
        decreases os@.len() - i,
    {
        if same_text(&os[i].platform, platform) {
            assert(manifest::platforms(os@)[i as int] == platform@);
            return true;
        }
        i = i + 1;
    }
    false
}

fn path_of_target(paths: &Option<Vec<(String, String)>>, target: &str) -> (r: Option<String>)
    ensures
        text::opt_text(r) == target_path(
            match paths {
                Some(v) => v@.map_values(|p: (String, String)| (p.0@, p.1@)),
                None => Seq::empty(),
            },
            target@,
        ),
{
    match paths {
        Some(v) => {
            let ghost all = v@.map_values(|p: (String, String)| (p.0@, p.1@));
            let mut i: usize = 0;
            assert(all.skip(0) =~= all);
            while i < v.len()
                invariant
                    i <= v@.len(),
                    *paths == Some(*v),
                    all == v@.map_values(|p: (String, String)| (p.0@, p.1@)),
                    target_path(all, target@) == target_path(all.skip(i as int), target@),
                decreases v@.len() - i,
            {
                assert(all.skip(i as int)[0] == (v@[i as int].0@, v@[i as int].1@));
                assert(all.skip(i as int).drop_first() =~= all.skip(i + 1));
                if same_text(&v[i].0, target) {
                    return Some(v[i].1.clone());
                }
                i = i + 1;
            }
            assert(all.skip(i as int).len() == 0);
            None
        },
        None => None,
    }
}

fn first_given(a: &Option<String>, b: &Option<String>) -> (r: Option<String>)
    ensures
        text::opt_text(r) == or_else(text::opt_text(*a), text::opt_text(*b)),
{
    match a {
        Some(x) => Some(x.clone()),
        None => clone_opt(b),
    }
}

/// The code path of a plugin, and whether the plugin supports only Windows.
pub fn choose_code_path(manifest: &PluginManifest, platform: Platform, target: &str) -> (r: Result<
    (String, bool),
    LaunchError,
>)
    ensures
        match r {
            Ok(c) => runnable(code_paths_of(*manifest), platform, target@) == Some((c.0@, c.1))
                && path::stays_below(c.0@),
            Err(e) => match runnable(code_paths_of(*manifest), platform, target@) {
                None => e == LaunchError::UnsupportedPlatform,
                Some(c) => e == LaunchError::UnsafeCodePath && !path::stays_below(c.0),
            },
        },
{
    let choice: Option<(String, bool)> = if supports(&manifest.os, platform_text(platform)) {
        let own = match platform {
            Platform::Linux => &manifest.code_path_linux,
            Platform::MacOs => &manifest.code_path_macos,
            Platform::Windows => &manifest.code_path_windows,
        };
        let here = first_given(own, &manifest.code_path);
        let chosen = if target.is_empty() {
            here
        } else {
            let of_target = path_of_target(&manifest.code_paths, target);
            first_given(&of_target, &here)
        };
        match chosen {
            Some(p) => Some((p, false)),
            None => None,
        }
    } else if supports(&manifest.os, "windows") {
        match first_given(&manifest.code_path, &manifest.code_path_windows) {
            Some(p) => {
                let on_linux = match platform {
                    Platform::Linux => true,
                    _ => false,
                };
                if on_linux && choose_runner(&p, true) == Runner::Wine {
                    None
                } else {
                    Some((p, true))
                }
            },
            None => None,
        }
    } else {
        None
    };
    match choice {
        None => Err(LaunchError::UnsupportedPlatform),
        Some(c) => if is_safe_relative_path(&c.0) {
            Ok(c)
        } else {
            Err(LaunchError::UnsafeCodePath)
        },
    }
}

// ---------------------------------------------------------------------------
// Launching
// ---------------------------------------------------------------------------

/// How the code of a plugin is run.
#[derive(Clone, Copy, PartialEq, Eq, Structural, Debug)]
pub enum Runner {
    Webview,
    Node,
    Wine,
    Native,
}

/// How code is run, by the extension of its path: a page in a webview, a script
/// by Node.js, anything else under Wine or natively.
pub open spec fn runner_for(code_path: Seq<char>, wine: bool) -> Runner {
    let l = text::lowercased(code_path);
    if ".html"@.is_suffix_of(l) || ".htm"@.is_suffix_of(l) || ".xhtml"@.is_suffix_of(l) {
        Runner::Webview
    } else if ".js"@.is_suffix_of(l) || ".mjs"@.is_suffix_of(l) || ".cjs"@.is_suffix_of(l) {
        Runner::Node
    } else if wine {
        Runner::Wine
    } else {
        Runner::Native
    }
}

/// How code is run.
pub fn choose_runner(code_path: &str, wine: bool) -> (r: Runner)
    ensures
        r == runner_for(code_path@, wine),
{
    let l = to_lowercase(code_path);
    if ends_with(&l, ".html") || ends_with(&l, ".htm") || ends_with(&l, ".xhtml") {
        Runner::Webview
    } else if ends_with(&l, ".js") || ends_with(&l, ".mjs") || ends_with(&l, ".cjs") {
        Runner::Node
    } else if wine {
        Runner::Wine
    } else {
        Runner::Native
    }
}

/// The arguments that every plugin process is given, before the information on
/// the application.
pub fn launch_arguments(port: u16, uuid: &str) -> (r: Vec<String>)
    ensures
        text::texts(r@) == seq![
            "-port"@,
            text::decimal(port as nat),
            "-pluginUUID"@,
            uuid@,
            "-registerEvent"@,
            "registerPlugin"@,
            "-info"@,
        ],
{
    let mut v: Vec<String> = Vec::new();
    v.push(owned("-port"));
    v.push(decimal_text(port as u64));
    v.push(owned("-pluginUUID"));
    v.push(owned(uuid));
    v.push(owned("-registerEvent"));
    v.push(owned("registerPlugin"));
    v.push(owned("-info"));
    assert(text::texts(v@) =~= seq![
        "-port"@,
        text::decimal(port as nat),
        "-pluginUUID"@,
        uuid@,
        "-registerEvent"@,
        "registerPlugin"@,
        "-info"@,
    ]);
    v
}

/// The program that runs `tool`, and the arguments before its own: through
/// `flatpak-spawn` in a Flatpak sandbox.
pub fn host_command(tool: &str, flatpak: bool) -> (r: (String, Vec<String>))
    ensures
        r.0@ == if flatpak {
            "flatpak-spawn"@
        } else {
            tool@
        },
        text::texts(r.1@) == if flatpak {
            seq!["--host"@, tool@]
        } else {
            Seq::empty()
        },
{
    let mut args: Vec<String> = Vec::new();
    assert(text::texts(args@) =~= Seq::empty());
    if flatpak {
        args.push(owned("--host"));
        args.push(owned(tool));
        assert(text::texts(args@) =~= seq!["--host"@, tool@]);
        (owned("flatpak-spawn"), args)
    } else {
        (owned(tool), args)
    }
}

/// The address at which the page of a plugin is served.
pub fn webview_url(port_base: u16, dir: &str, code_path: &str) -> (r: String)
    requires
        port_base <= 65533,
    ensures
        r@ == "http://localhost:"@ + text::decimal((port_base + 2) as nat) + "/"@
            + shared::joined(dir@, code_path@),
{
    let port = decimal_text(port_base as u64 + 2);
    let base = concat3("http://localhost:", &port, "/");
    let file = join(dir, code_path);
    concat2(&base, &file)
}

/// The label of the webview of a plugin.
pub fn webview_label(uuid: &str) -> (r: String)
    ensures
        r@ == text::replace_char(uuid@, '.', "_"@),
{
    replace(uuid, '.', "_")
}

/// Whether one version precedes another; `None` where either is no version.
pub uninterp spec fn version_precedes(a: Seq<char>, b: Seq<char>) -> Option<bool>;

/// `Version::parse` of the `semver` crate on both texts, and `<` of the two
/// versions: a function of the texts alone. `None` where either gives an error.
#[verifier::external_body]
fn version_less(a: &str, b: &str) -> (r: Option<bool>)
    ensures
        r == version_precedes(a@, b@),
{
    match (semver::Version::parse(a), semver::Version::parse(b)) {
        (Ok(x), Ok(y)) => Some(x < y),
        _ => None,
    }
}

/// The version in what Node.js prints.
pub open spec fn node_version(output: Seq<char>) -> Seq<char> {
    text::trim_start_where(text::trimmed(output), |c: char| c == 'v')
}

/// Whether Node.js is recent enough: it printed a version that does not precede
/// 20.0.0.
pub fn node_is_recent(output: &Option<String>) -> (r: bool)
    ensures
        r == (output matches Some(o) && version_precedes(node_version(o@), "20.0.0"@) == Some(
            false,
        )),
{
    match output {
        Some(o) => {
            let t = trim(o);
            let v = trim_start_char(&t, 'v');
            match version_less(&v, "20.0.0") {
                Some(less) => !less,
                None => false,
            }
        },
        None => false,
    }
}

/// Whether a bundled plugin replaces the installed one: there is none with a
/// version, or its version precedes the bundled one. `None` where the bundled
/// plugin has no version.
pub open spec fn upgrade(builtin: Seq<char>, existing: Option<Seq<char>>) -> Option<bool> {
    if version_precedes(builtin, builtin) is None {
        None
    } else {
        match existing {
            None => Some(true),
            Some(v) => match version_precedes(v, builtin) {
                Some(older) => Some(older),
                None => Some(true),
            },
        }
    }
}

/// Whether a bundled plugin replaces the installed one.
pub fn needs_upgrade(builtin: &str, existing: &Option<String>) -> (r: Option<bool>)
    ensures
        r == upgrade(builtin@, text::opt_text(*existing)),
{
    if version_less(builtin, builtin).is_none() {
        return None;
    }
    match existing {
        None => Some(true),
        Some(v) => decide_upgrade(version_less(v, builtin)),
    }
}

/// Whether an installed plugin is replaced, given how its version compares to
/// the bundled one.
pub fn decide_upgrade(existing_is_older: Option<bool>) -> (r: Option<bool>)
    ensures
        r == Some(existing_is_older != Some(false)),
{
    match existing_is_older {
        Some(older) => Some(older),
        None => Some(true),
    }
}

/// A link in the plugins directory is followed if its target stays in it.
pub fn link_stays_inside(target: &str, plugins_dir: &str) -> (r: bool)
    ensures
        r == path::path_components(plugins_dir@).is_prefix_of(path::path_components(target@)),
{
    relative_to(target, plugins_dir).is_some()
}

// ---------------------------------------------------------------------------
// Device namespaces
// ---------------------------------------------------------------------------

/// The plugins that serve device namespaces. No two entries are of the same
/// namespace.
pub struct DeviceNamespaces {
    pub list: Vec<(String, String)>,
}

impl View for DeviceNamespaces {
    type V = Seq<(Seq<char>, Seq<char>)>;

    open spec fn view(&self) -> Seq<(Seq<char>, Seq<char>)> {
        self.list@.map_values(|p: (String, String)| (p.0@, p.1@))
    }
}

/// The namespaces of entries.
pub open spec fn namespaces(s: Seq<(Seq<char>, Seq<char>)>) -> Seq<Seq<char>> {
    s.map_values(|p: (Seq<char>, Seq<char>)| p.0)
}

/// The plugins of entries.
pub open spec fn namespace_plugins(s: Seq<(Seq<char>, Seq<char>)>) -> Seq<Seq<char>> {
    s.map_values(|p: (Seq<char>, Seq<char>)| p.1)
}

/// The entries with a plugin for a namespace.
pub open spec fn with_namespace(
    s: Seq<(Seq<char>, Seq<char>)>,
    namespace: Seq<char>,
    plugin: Seq<char>,
) -> Seq<(Seq<char>, Seq<char>)> {
    if namespaces(s).contains(namespace) {
        s.update(text::first_index(namespaces(s), namespace), (namespace, plugin))
    } else {
        s.push((namespace, plugin))
    }
}

/// The entries without a namespace.
pub open spec fn without_namespace(
    s: Seq<(Seq<char>, Seq<char>)>,
    namespace: Seq<char>,
) -> Seq<(Seq<char>, Seq<char>)> {
    if namespaces(s).contains(namespace) {
        s.remove(text::first_index(namespaces(s), namespace))
    } else {
        s
    }
}

impl DeviceNamespaces {
    fn position(&self, namespace: &str) -> (r: usize)
        ensures
            r == text::first_index(namespaces(self@), namespace@),
            r <= self.list@.len(),
            r < self.list@.len() <==> namespaces(self@).contains(namespace@),
    {
        let ghost names = namespaces(self@);
        let mut i: usize = 0;
        proof {
            text::lemma_first_index(names, namespace@);
        }
        while i < self.list.len()
            invariant
                i <= self.list@.len(),
                names == namespaces(self@),
                forall|j: int| 0 <= j < i ==> names[j] != namespace@,
            decreases self.list@.len() - i,
        {
            assert(names[i as int] == self.list@[i as int].0@);
            if same_text(&self.list[i].0, namespace) {
                proof {
                    text::lemma_first_index_is(names, namespace@, i as int);
                }
                return i;
            }
            i = i + 1;
        }
        proof {
            text::lemma_first_index_is(names, namespace@, i as int);
        }
        i
    }

    /// The plugin that serves a namespace.
    pub fn get(&self, namespace: &str) -> (r: Option<String>)
        ensures
            text::opt_text(r) == if namespaces(self@).contains(namespace@) {
                Some(self@[text::first_index(namespaces(self@), namespace@)].1)
            } else {
                None
            },
    {
        let k = self.position(namespace);
        if k < self.list.len() {
            assert(self@[k as int].1 == self.list@[k as int].1@);
            Some(self.list[k].1.clone())
        } else {
            None
        }
    }

    /// Lets a plugin serve a namespace.
    pub fn insert(&mut self, namespace: &str, plugin: &str)
        ensures
            final(self)@ == with_namespace(old(self)@, namespace@, plugin@),
    {
        let ghost before = self@;
        let k = self.position(namespace);
        if k < self.list.len() {
            self.list.set(k, (owned(namespace), owned(plugin)));
            assert(self@ =~= before.update(k as int, (namespace@, plugin@)));
        } else {
            self.list.push((owned(namespace), owned(plugin)));
            assert(self@ =~= before.push((namespace@, plugin@)));
        }
    }

    /// Lets no plugin serve a namespace.
    pub fn remove(&mut self, namespace: &str)
        ensures
            final(self)@ == without_namespace(old(self)@, namespace@),
    {
        let ghost before = self@;
        let k = self.position(namespace);
        if k < self.list.len() {
            let _ = self.list.remove(k);
            assert(self@ =~= before.remove(k as int));
        }
    }

    /// Takes the first namespace of a plugin out, and returns it.
    pub fn remove_plugin(&mut self, plugin: &str) -> (r: Option<String>)
        ensures
            ({
                let plugins = namespace_plugins(old(self)@);
                let k = text::first_index(plugins, plugin@);
                if plugins.contains(plugin@) {
                    &&& text::opt_text(r) == Some(old(self)@[k].0)
                    &&& final(self)@ == old(self)@.remove(k)
                } else {
                    &&& r is None
                    &&& final(self)@ == old(self)@
                }
            }),
    {
        let ghost before = self@;
        let ghost plugins = namespace_plugins(before);
        let mut i: usize = 0;
        proof {
            text::lemma_first_index(plugins, plugin@);
        }
        while i < self.list.len()
            invariant
                i <= self.list@.len(),
                before == self@,
                before == old(self)@,
                plugins == namespace_plugins(before),
                forall|j: int| 0 <= j < i ==> plugins[j] != plugin@,
            decreases self.list@.len() - i,
        {
            assert(plugins[i as int] == self.list@[i as int].1@);
            if same_text(&self.list[i].1, plugin) {
                proof {
                    text::lemma_first_index_is(plugins, plugin@, i as int);
                }
                let (namespace, _) = self.list.remove(i);
                assert(self@ =~= before.remove(i as int));
                assert(plugins.contains(plugin@));
                return Some(namespace);
            }
            i = i + 1;
        }
        assert(!plugins.contains(plugin@));
        None
    }
}

/// The namespace of a device: the first two characters of its id.
pub open spec fn namespace_of(device: Seq<char>) -> Seq<char> {
    device.take(2)
}

/// A device id that begins with two ASCII characters.
pub open spec fn has_namespace(device: Seq<char>) -> bool {
    device.len() >= 2 && (device[0] as u32) < 128 && (device[1] as u32) < 128
}

/// The namespace of a device.
pub fn device_namespace(device: &str) -> (r: String)
    requires
        has_namespace(device@),
    ensures
        r@ == namespace_of(device@),
{
    let v = chars_of(device);
    let r = text_of_range(&v, 0, 2);
    assert(r@ =~= device@.take(2));
    r
}

/// The devices among the first `n` that belong to a namespace.
pub open spec fn devices_in(devices: Seq<Seq<char>>, namespace: Seq<char>, n: nat) -> Seq<Seq<char>>
    decreases n,
{
    if n == 0 || n > devices.len() {
        Seq::empty()
    } else {
        let before = devices_in(devices, namespace, (n - 1) as nat);
        if namespace_of(devices[n - 1]) == namespace {
            before.push(devices[n - 1])
        } else {
            before
        }
    }
}

/// The devices that belong to a namespace.
pub fn devices_of_namespace(devices: &Vec<String>, namespace: &str) -> (r: Vec<String>)
    requires
        forall|i: int| 0 <= i < devices@.len() ==> has_namespace((#[trigger] devices@[i])@),
    ensures
        text::texts(r@) == devices_in(text::texts(devices@), namespace@, devices@.len()),
{
    let ghost all = text::texts(devices@);
    let mut out: Vec<String> = Vec::new();
    let mut i: usize = 0;
    assert(text::texts(out@) =~= Seq::<Seq<char>>::empty());
    while i < devices.len()
        invariant
            i <= devices@.len(),
            all == text::texts(devices@),
            forall|j: int| 0 <= j < devices@.len() ==> has_namespace((#[trigger] devices@[j])@),
            text::texts(out@) == devices_in(all, namespace@, i as nat),
        decreases devices@.len() - i,
    {
        assert(all[i as int] == devices@[i as int]@);
        let own = device_namespace(&devices[i]);
        if same_text(&own, namespace) {
            let ghost before = out@;
            out.push(devices[i].clone());
            assert(text::texts(out@) =~= text::texts(before).push(all[i as int]));
        }
        i = i + 1;
    }
    out
}

// ---------------------------------------------------------------------------
// Ports and tokens
// ---------------------------------------------------------------------------

/// Both servers can listen on the ports of `base`.
pub open spec fn ports_free(base: int, busy: Seq<u16>) -> bool {
    forall|i: int| 0 <= i < busy.len() ==> busy[i] != base && busy[i] != base + 2
}

/// The smallest port from 57116 on that is free together with the second port
/// behind it; `None` where there is none.
pub fn get_port_base(busy: &Vec<u16>) -> (r: Option<u16>)
    ensures
        match r {
            Some(p) => 57116 <= p <= 65533 && ports_free(p as int, busy@) && forall|q: int|
                57116 <= q < p ==> !(#[trigger] ports_free(q, busy@)),
            None => forall|q: int| 57116 <= q <= 65533 ==> !(#[trigger] ports_free(q, busy@)),
        },
{
    let mut base: u16 = 57116;
    while base <= 65533
        invariant
            57116 <= base <= 65534,
            forall|q: int| 57116 <= q < base ==> !(#[trigger] ports_free(q, busy@)),
        decreases 65534 - base,
    {
        let mut free = true;
        let mut i: usize = 0;
        while i < busy.len()
            invariant
                i <= busy@.len(),
                base <= 65533,
                free ==> forall|j: int|
                    0 <= j < i ==> busy@[j] != base && busy@[j] != base + 2,
                !free ==> exists|j: int|
                    0 <= j < i && (busy@[j] == base || busy@[j] == base + 2),
            decreases busy@.len() - i,
        {
            if busy[i] == base || busy[i] == base + 2 {
                free = false;
                assert(busy@[i as int] == base || busy@[i as int] == base + 2);
            }
            i = i + 1;
        }
        if free {
            assert(ports_free(base as int, busy@));
            return Some(base);
        }
        assert(!ports_free(base as int, busy@));
        base = base + 1;
    }
    None
}

/// What bytes encode to with the URL-safe base64 alphabet without padding.
pub uninterp spec fn base64_encoded(bytes: Seq<u8>) -> Seq<char>;

/// `Engine::encode` of the `base64` crate with
/// `general_purpose::URL_SAFE_NO_PAD`, a function of the bytes alone. What it
/// gives decodes to the bytes again.
#[verifier::external_body]
fn encode_url_safe_no_pad(bytes: &Vec<u8>) -> (r: String)
    requires
        bytes@.len() < 0x2000_0000,
    ensures
        r@ == base64_encoded(bytes@),
        marketplace::base64_url_safe_no_pad(r@) == Some(bytes@),
{
    base64::Engine::encode(&base64::engine::general_purpose::URL_SAFE_NO_PAD, bytes)
}

/// `getrandom::getrandom` on a buffer of 32 bytes. Which bytes come is left to
/// chance; `None` where it gives an error.
#[verifier::external_body]
fn random_bytes() -> (r: Option<Vec<u8>>)
    ensures
        r matches Some(b) ==> b@.len() == 32,
{
    let mut bytes = [0u8; 32];
    getrandom::getrandom(&mut bytes).ok().map(|_| bytes.to_vec())
}

/// Byte number `i` of a number, from the lowest.
pub open spec fn byte_of(n: nat, i: nat) -> u8
    decreases i,
{
    if i == 0 {
        (n % 256) as u8
    } else {
        byte_of(n / 256, (i - 1) as nat)
    }
}

/// The bytes of a token: the random ones, or else those of a time followed by
/// zeros.
pub open spec fn token_bytes(random: Option<Seq<u8>>, nanos: u128) -> Seq<u8> {
    match random {
        Some(b) => b,
        None => Seq::new(
            32,
            |i: int|
                if i < 16 {
                    byte_of(nanos as nat, i as nat)
                } else {
                    0
                },
        ),
    }
}

/// The token of the property inspectors, given what chance gave.
pub fn make_token(random: Option<Vec<u8>>, nanos: u128) -> (r: String)
    requires
        random matches Some(b) ==> b@.len() == 32,
    ensures
        r@ == base64_encoded(
            token_bytes(
                match random {
                    Some(b) => Some(b@),
                    None => None,
                },
                nanos,
            ),
        ),
        marketplace::base64_url_safe_no_pad(r@) == Some(
            token_bytes(
                match random {
                    Some(b) => Some(b@),
                    None => None,
                },
                nanos,
            ),
        ),
{
    let bytes = match random {
        Some(b) => b,
        None => {
            let mut out: Vec<u8> = Vec::new();
            let mut rest: u128 = nanos;
            while out.len() < 32
                invariant
                    out@.len() <= 32,
                    forall|i: int|
                        0 <= i < out@.len() && i < 16 ==> #[trigger] out@[i] == byte_of(
                            nanos as nat,
                            i as nat,
                        ),
                    forall|i: int| 16 <= i < out@.len() ==> #[trigger] out@[i] == 0,
                    out@.len() <= 16 ==> forall|j: nat|
                        #[trigger] byte_of(rest as nat, j) == byte_of(
                            nanos as nat,
                            j + out@.len(),
                        ),
                decreases 32 - out@.len(),
            {
                if out.len() < 16 {
                    let ghost n = out@.len();
                    assert(byte_of(rest as nat, 0) == byte_of(nanos as nat, n));
                    out.push((rest % 256) as u8);
                    proof {
                        assert forall|j: nat| #[trigger] byte_of((rest / 256) as nat, j) == byte_of(
                            nanos as nat,
                            j + out@.len(),
                        ) by {
                            assert(byte_of(rest as nat, j + 1) == byte_of(
                                (rest / 256) as nat,
                                j,
                            ));
                            assert(byte_of(rest as nat, j + 1) == byte_of(
                                nanos as nat,
                                (j + 1) + n,
                            ));
                        }
                    }
                    rest = rest / 256;
                } else {
                    out.push(0);
                }
            }
            assert(out@ =~= token_bytes(None, nanos));
            out
        },
    };
    encode_url_safe_no_pad(&bytes)
}

/// A new token for the property inspectors. `nanos` is the time, for the case
/// that no random bytes can be had. Whatever came, the token stands for 32
/// bytes.
pub fn property_inspector_token(nanos: u128) -> (r: String)
    ensures
        marketplace::base64_url_safe_no_pad(r@) matches Some(b) && b.len() == 32,
{
    let random = random_bytes();
    make_token(random, nanos)
}

// ---------------------------------------------------------------------------
// Starting and stopping a plugin
// ---------------------------------------------------------------------------

/// The applications that a plugin watches on a platform.
pub open spec fn watched(apps: Seq<(String, Vec<String>)>, platform: Seq<char>) -> Option<
    Seq<Seq<char>>,
>
    decreases apps.len(),
{
    if apps.len() == 0 {
        None
    } else if apps[0].0@ == platform {
        Some(text::texts(apps[0].1@))
    } else {
        watched(apps.drop_first(), platform)
    }
}

/// The applications that a manifest names for a platform.
pub open spec fn watched_by(m: PluginManifest, platform: Platform) -> Option<Seq<Seq<char>>> {
    match m.applications_to_monitor {
        Some(v) => watched(v@, platform_name(platform)),
        None => None,
    }
}

/// The model of texts that there may be.
pub open spec fn opt_texts(v: Option<Vec<String>>) -> Option<Seq<Seq<char>>> {
    match v {
        Some(x) => Some(text::texts(x@)),
        None => None,
    }
}

fn applications_for(manifest: &PluginManifest, platform: Platform) -> (r: Option<Vec<String>>)
    ensures
        opt_texts(r) == watched_by(*manifest, platform),
{
    match &manifest.applications_to_monitor {
        Some(v) => {
            let name = platform_text(platform);
            let mut i: usize = 0;
            assert(v@.skip(0) =~= v@);
            while i < v.len()
                invariant
                    i <= v@.len(),
                    manifest.applications_to_monitor == Some(*v),
                    name@ == platform_name(platform),
                    watched(v@, name@) == watched(v@.skip(i as int), name@),
                decreases v@.len() - i,
            {
                assert(v@.skip(i as int)[0] == v@[i as int]);
                assert(v@.skip(i as int).drop_first() =~= v@.skip(i + 1));
                if same_text(&v[i].0, name) {
                    return Some(clone_texts(&v[i].1));
                }
                i = i + 1;
            }
            assert(v@.skip(i as int).len() == 0);
            None
        },
        None => None,
    }
}

/// How a plugin is run.
pub struct LaunchPlan {
    pub runner: Runner,
    pub code_path: String,
    pub version: String,
    /// The applications that the plugin watches.
    pub watched: Option<Vec<String>>,
}

/// Makes a plugin known, and decides how it is run: its actions are listed and
/// its namespace is served whether it can be run or not.
pub fn initialise_plugin(
    manifest: PluginManifest,
    uuid: &str,
    dir: &str,
    product_name: &str,
    existing: &Vec<String>,
    platform: Platform,
    target: &str,
    categories: &mut Categories,
    namespaces: &mut DeviceNamespaces,
) -> (r: Result<LaunchPlan, LaunchError>)
    ensures
        final(categories)@ == listed(
            old(categories)@,
            branded_category(manifest.category@, product_name@),
            prepared_icon(manifest, dir@, text::texts(existing@)),
            prepared_actions(manifest, uuid@, dir@, text::texts(existing@)),
        ),
        final(namespaces)@ == match manifest.device_namespace {
            Some(n) => with_namespace(old(namespaces)@, n@, uuid@),
            None => old(namespaces)@,
        },
        match runnable(code_paths_of(manifest), platform, target@) {
            None => r == Err::<LaunchPlan, LaunchError>(LaunchError::UnsupportedPlatform),
            Some(c) => if !path::stays_below(c.0) {
                r == Err::<LaunchPlan, LaunchError>(LaunchError::UnsafeCodePath)
            } else {
                r is Ok && r->Ok_0.code_path@ == c.0 && r->Ok_0.runner == runner_for(c.0, c.1)
                    && r->Ok_0.version@ == manifest.version@ && opt_texts(r->Ok_0.watched)
                    == watched_by(manifest, platform)
            },
        },
{
    let m = prepare_manifest(manifest, uuid, dir, product_name, existing);
    categories.list_actions(&m.category, &m.category_icon, &m.actions);
    match &m.device_namespace {
        Some(n) => {
            namespaces.insert(n, uuid);
        },
        None => {},
    }
    match choose_code_path(&m, platform, target) {
        Err(e) => Err(e),
        Ok(c) => {
            let runner = choose_runner(&c.0, c.1);
            let watched = applications_for(&m, platform);
            Ok(LaunchPlan { runner, code_path: c.0, version: m.version, watched })
        },
    }
}

/// The program of a plugin process: Node.js or Wine, through `flatpak-spawn` in a
/// Flatpak sandbox, or the code itself.
pub open spec fn program_of(
    runner: Runner,
    code_path: Seq<char>,
    dir: Seq<char>,
    flatpak: bool,
) -> Seq<char> {
    match runner {
        Runner::Node => if flatpak {
            "flatpak-spawn"@
        } else {
            "node"@
        },
        Runner::Wine => if flatpak {
            "flatpak-spawn"@
        } else {
            "wine"@
        },
        _ => shared::joined(dir, code_path),
    }
}

/// The arguments that a plugin process has before those that every one has.
pub open spec fn first_arguments(runner: Runner, code_path: Seq<char>, flatpak: bool) -> Seq<
    Seq<char>,
> {
    match runner {
        Runner::Node => if flatpak {
            seq!["--host"@, "node"@, code_path]
        } else {
            seq![code_path]
        },
        Runner::Wine => if flatpak {
            seq!["--host"@, "wine"@, code_path]
        } else {
            seq![code_path]
        },
        _ => Seq::empty(),
    }
}

/// The program of a plugin process, and its arguments before the information on
/// the application.
pub fn process_command(
    runner: Runner,
    code_path: &str,
    dir: &str,
    port: u16,
    uuid: &str,
    flatpak: bool,
) -> (r: (String, Vec<String>))
    requires
        runner != Runner::Webview,
    ensures
        r.0@ == program_of(runner, code_path@, dir@, flatpak),
        text::texts(r.1@) == first_arguments(runner, code_path@, flatpak) + seq![
            "-port"@,
            text::decimal(port as nat),
            "-pluginUUID"@,
            uuid@,
            "-registerEvent"@,
            "registerPlugin"@,
            "-info"@,
        ],
{
    let (program, mut args) = match runner {
        Runner::Node => host_command("node", flatpak),
        Runner::Wine => host_command("wine", flatpak),
        _ => (join(dir, code_path), Vec::new()),
    };
    let ghost host = text::texts(args@);
    if runner == Runner::Node || runner == Runner::Wine {
        args.push(owned(code_path));
    }
    assert(text::texts(args@) =~= first_arguments(runner, code_path@, flatpak));
    let ghost head = text::texts(args@);
    let mut rest = launch_arguments(port, uuid);
    let ghost tail = text::texts(rest@);
    args.append(&mut rest);
    assert(text::texts(args@) =~= head + tail);
    (program, args)
}

/// A plugin ends: its namespace is no longer served. Those of the given devices
/// that belong to it, if it had one, are then deregistered.
pub fn deactivate_plugin(namespaces: &mut DeviceNamespaces, uuid: &str, devices: &Vec<String>) -> (r:
    Option<Vec<String>>)
    requires
        forall|i: int| 0 <= i < devices@.len() ==> has_namespace(#[trigger] devices@[i]@),
    ensures
        ({
            let plugins = namespace_plugins(old(namespaces)@);
            let k = text::first_index(plugins, uuid@);
            if plugins.contains(uuid@) {
                &&& final(namespaces)@ == old(namespaces)@.remove(k)
                &&& opt_texts(r) == Some(
                    devices_in(text::texts(devices@), old(namespaces)@[k].0, devices@.len()),
                )
            } else {
                &&& final(namespaces)@ == old(namespaces)@
                &&& r is None
            }
        }),
{
    match namespaces.remove_plugin(uuid) {
        Some(namespace) => Some(devices_of_namespace(devices, &namespace)),
        None => None,
    }
}

/// A state of a plugin shows a file of the plugin: the icon of its action where its
/// image is the default, and else the file that its image stands for, below the
/// directory of the plugin. The rest of the state, but for the font, is as the
/// manifest says.
pub proof fn law_prepared_state_shows_a_file(
    s: StateView,
    icon: Seq<char>,
    dir: Seq<char>,
    existing: Seq<Seq<char>>,
)
    ensures
        ({
            let r = prepared_state(s, icon, dir, existing);
            &&& s.image == "actionDefaultImage"@ ==> r.image == icon
            &&& s.image != "actionDefaultImage"@ ==> r.image == shared::icon_file(
                shared::joined(dir, s.image),
                existing,
            )
            &&& s == (StateView { image: s.image, family: s.family, ..r })
            &&& font_for(s.family) is None ==> r.family == s.family
        }),
{
}

/// A prepared action belongs to its plugin and keeps what its manifest says of it, its
/// states among them; its icon is a file of the plugin.
pub proof fn law_prepared_action_keeps(
    a: ActionView,
    uuid: Seq<char>,
    dir: Seq<char>,
    inspector: Option<Seq<char>>,
    existing: Seq<Seq<char>>,
    k: int,
)
    requires
        0 <= k < a.states.len(),
    ensures
        ({
            let r = prepared_action(a, uuid, dir, inspector, existing);
            &&& r.plugin == uuid
            &&& r.uuid == a.uuid && r.name == a.name && r.tooltip == a.tooltip
            &&& r.controllers == a.controllers
            &&& r.disable_automatic_states == a.disable_automatic_states
            &&& r.visible_in_action_list == a.visible_in_action_list
            &&& r.supported_in_multi_actions == a.supported_in_multi_actions
            &&& r.icon == shared::icon_file(shared::joined(dir, a.icon), existing)
            &&& r.states.len() == a.states.len()
            &&& a.states[k].image == "actionDefaultImage"@ ==> r.states[k].image == r.icon
            &&& r.states[k].text == a.states[k].text
        }),
{
}

/// The property inspector of an action is its own, or that of its plugin where it has
/// none, in the directory of the plugin; one that leads out of it is not used.
pub proof fn law_inspector_is_of_the_plugin(
    own: Seq<char>,
    common: Option<Seq<char>>,
    dir: Seq<char>,
)
    ensures
        own.len() > 0 && path::stays_below(own) ==> prepared_inspector(own, common, dir)
            == shared::joined(dir, own),
        own.len() > 0 && !path::stays_below(own) ==> prepared_inspector(own, common, dir).len()
            == 0,
        own.len() == 0 ==> (common matches Some(p) ==> path::stays_below(p) ==> prepared_inspector(
            own,
            common,
            dir,
        ) == shared::joined(dir, p)),
        own.len() == 0 && (common is None || !path::stays_below(common->0))
            ==> prepared_inspector(own, common, dir).len() == 0,
{
}

/// Listing an action puts it behind the others of its category, in place of the one
/// with its uuid; the others stay, in their order.
pub proof fn law_listed_action_replaces(s: Seq<ActionView>, a: ActionView, k: int)
    requires
        0 <= k <= s.len(),
        forall|j: int| 0 <= j < k ==> (#[trigger] s[j]).uuid != a.uuid,
        k < s.len() ==> s[k].uuid == a.uuid,
    ensures
        with_action(s, a).last() == a,
        k < s.len() ==> with_action(s, a).drop_last() == s.remove(k),
        k == s.len() ==> with_action(s, a).drop_last() == s,
{
    let ids = uuids(s);
    assert forall|j: int| 0 <= j < k implies #[trigger] ids[j] != a.uuid by {
        assert(ids[j] == s[j].uuid);
    }
    if k < s.len() {
        assert(ids[k] == a.uuid);
        text::lemma_first_index_is(ids, a.uuid, k);
        assert(s.remove(k).push(a).drop_last() =~= s.remove(k));
    } else {
        assert(s.push(a).drop_last() =~= s);
    }
}

/// Listing the actions of a plugin leaves the other categories alone. A category that
/// is new has the icon and the actions of the plugin.
pub proof fn law_other_categories_stay(
    s: Seq<(Seq<char>, CategoryView)>,
    name: Seq<char>,
    icon: Option<Seq<char>>,
    actions: Seq<ActionView>,
    k: int,
)
    requires
        0 <= k < s.len(),
        s[k].0 != name,
    ensures
        listed(s, name, icon, actions)[k] == s[k],
        !category_names(s).contains(name) && actions.len() > 0 ==> ({
            let l = listed(s, name, icon, actions);
            &&& l.len() == s.len() + 1
            &&& l.last().0 == name && l.last().1.icon == icon && l.last().1.actions == actions
        }),
        !category_names(s).contains(name) && actions.len() == 0 ==> listed(
            s,
            name,
            icon,
            actions,
        ) == s,
{
    let names = category_names(s);
    text::lemma_first_index(names, name);
    assert(names[k] == s[k].0);
}

/// The actions of the former category stand behind those of the product's category
/// afterwards, and the former category is gone.
pub proof fn law_former_category_is_merged(
    s: Seq<(Seq<char>, CategoryView)>,
    product: Seq<char>,
    k: int,
    t: int,
)
    requires
        category_names(s).no_duplicates(),
        0 <= k < s.len(),
        0 <= t < s.len(),
        s[k].0 == "OpenDeck"@,
        s[t].0 == product,
        product != "OpenDeck"@,
    ensures
        ({
            let r = without_legacy(s, product);
            let at = if t < k {
                t
            } else {
                t - 1
            };
            &&& r.len() == s.len() - 1
            &&& r[at].0 == product
            &&& r[at].1.actions == s[t].1.actions + s[k].1.actions
            &&& r[at].1.icon == s[t].1.icon
            &&& !category_names(r).contains("OpenDeck"@)
        }),
{
    let names = category_names(s);
    assert(names[k] == "OpenDeck"@);
    assert forall|j: int| 0 <= j < k implies #[trigger] names[j] != "OpenDeck"@ by {}
    text::lemma_first_index_is(names, "OpenDeck"@, k);
    let rest = s.remove(k);
    let left = category_names(rest);
    let at = if t < k {
        t
    } else {
        t - 1
    };
    assert(rest[at] == s[t]);
    assert(left[at] == product);
    assert forall|j: int| 0 <= j < at implies #[trigger] left[j] != product by {
        let z = if j < k {
            j
        } else {
            j + 1
        };
        assert(left[j] == names[z]);
        assert(names[t] == product);
    }
    text::lemma_first_index_is(left, product, at);
    let r = without_legacy(s, product);
    let now = category_names(r);
    if now.contains("OpenDeck"@) {
        let j = choose|j: int| 0 <= j < now.len() && now[j] == "OpenDeck"@;
        if j != at {
            let z = if j < k {
                j
            } else {
                j + 1
            };
            assert(r[j] == rest[j]);
            assert(names[z] == "OpenDeck"@);
            assert(names[z] == names[k]);
        }
    }
}

/// A bundled plugin replaces one that is older, or that has no version, or that is not
/// there, and no other; without a version of its own it replaces none.
pub proof fn law_only_older_plugins_are_replaced(builtin: Seq<char>, existing: Seq<char>)
    ensures
        version_precedes(builtin, builtin) is Some ==> {
            &&& upgrade(builtin, None) == Some(true)
            &&& version_precedes(existing, builtin) == Some(true) ==> upgrade(
                builtin,
                Some(existing),
            ) == Some(true)
            &&& version_precedes(existing, builtin) == Some(false) ==> upgrade(
                builtin,
                Some(existing),
            ) == Some(false)
            &&& version_precedes(existing, builtin) is None ==> upgrade(builtin, Some(existing))
                == Some(true)
        },
        version_precedes(builtin, builtin) is None ==> upgrade(builtin, Some(existing)) is None
            && upgrade(builtin, None) is None,
{
}

/// The plugin that a namespace was given to serves it, and the other namespaces are
/// served as before; one that was taken back is served by none.
pub proof fn law_namespace_is_served(
    s: Seq<(Seq<char>, Seq<char>)>,
    namespace: Seq<char>,
    plugin: Seq<char>,
    k: int,
)
    requires
        namespaces(s).no_duplicates(),
        0 <= k < s.len(),
    ensures
        ({
            let t = with_namespace(s, namespace, plugin);
            let at = text::first_index(namespaces(t), namespace);
            &&& 0 <= at < t.len() && t[at] == (namespace, plugin)
            &&& s[k].0 != namespace ==> t[k] == s[k]
        }),
        !namespaces(without_namespace(s, namespace)).contains(namespace),
        s[k].0 == namespace ==> without_namespace(s, namespace) == s.remove(k),
{
    let names = namespaces(s);
    let t = with_namespace(s, namespace, plugin);
    text::lemma_first_index(names, namespace);
    text::lemma_first_index(namespaces(t), namespace);
    assert(names[k] == s[k].0);
    if names.contains(namespace) {
        let i = text::first_index(names, namespace);
        assert(namespaces(t) =~= names);
        let left = namespaces(s.remove(i));
        if left.contains(namespace) {
            let j = choose|j: int| 0 <= j < left.len() && left[j] == namespace;
            let z = if j < i {
                j
            } else {
                j + 1
            };
            assert(names[z] == namespace);
            assert(names[z] == names[i]);
        }
    } else {
        let n = s.len() as int;
        let now = namespaces(t);
        assert(now[n] == namespace);
        assert forall|j: int| 0 <= j < n implies #[trigger] now[j] != namespace by {
            assert(now[j] == names[j]);
        }
        text::lemma_first_index_is(now, namespace, n);
    }
}

/// The devices of a namespace are those whose ids begin with it, in their order.
pub proof fn law_devices_of_a_namespace(devices: Seq<Seq<char>>, namespace: Seq<char>, n: nat)
    requires
        n <= devices.len(),
    ensures
        devices_in(devices, namespace, n) == devices.take(n as int).filter(
            |d: Seq<char>| d.take(2) == namespace,
        ),
    decreases n,
{
    reveal(Seq::filter);
    if n > 0 {
        let m = (n - 1) as nat;
        law_devices_of_a_namespace(devices, namespace, m);
        assert(devices.take(n as int).drop_last() =~= devices.take(m as int));
        assert(devices.take(n as int).last() == devices[m as int]);
    }
}

/// The bytes of a token are the random ones wherever there are any, and else 32 that
/// the time decides.
pub proof fn law_token_is_random(random: Seq<u8>, nanos: u128)
    ensures
        token_bytes(Some(random), nanos) == random,
        token_bytes(None, nanos).len() == 32,
        token_bytes(None, nanos)[0] == (nanos % 256) as u8,
        token_bytes(None, nanos)[1] == ((nanos / 256) % 256) as u8,
        forall|i: int| 16 <= i < 32 ==> #[trigger] token_bytes(None, nanos)[i] == 0,
{
    reveal_with_fuel(byte_of, 3);
}

/// A plugin watches the applications that its manifest names for the platform, as the
/// first entry for it says.
pub proof fn law_watched_applications(
    apps: Seq<(String, Vec<String>)>,
    platform: Seq<char>,
    k: int,
)
    requires
        0 <= k <= apps.len(),
        forall|j: int| 0 <= j < k ==> (#[trigger] apps[j]).0@ != platform,
        k < apps.len() ==> apps[k].0@ == platform,
    ensures
        k < apps.len() ==> watched(apps, platform) == Some(text::texts(apps[k].1@)),
        k == apps.len() ==> watched(apps, platform) is None,
    decreases apps.len(),
{
    if k > 0 {
        let rest = apps.drop_first();
        assert(apps[0].0@ != platform);
        assert forall|j: int| 0 <= j < k - 1 implies (#[trigger] rest[j]).0@ != platform by {
            assert(rest[j] == apps[j + 1]);
        }
        law_watched_applications(rest, platform, k - 1);
    }
}

/// Code that runs natively is the program itself, in the directory of the plugin; a
/// script is handed to Node.js and a Windows program to Wine, as the argument before
/// those that every plugin has. In a sandbox the host runs them.
pub proof fn law_program_runs_the_code(code_path: Seq<char>, dir: Seq<char>)
    ensures
        program_of(Runner::Native, code_path, dir, false) == shared::joined(dir, code_path),
        program_of(Runner::Native, code_path, dir, true) == shared::joined(dir, code_path),
        first_arguments(Runner::Native, code_path, false).len() == 0,
        first_arguments(Runner::Native, code_path, true).len() == 0,
        program_of(Runner::Node, code_path, dir, false) == "node"@,
        program_of(Runner::Wine, code_path, dir, false) == "wine"@,
        first_arguments(Runner::Node, code_path, false) == seq![code_path],
        first_arguments(Runner::Wine, code_path, false) == seq![code_path],
        program_of(Runner::Node, code_path, dir, true) == "flatpak-spawn"@,
        program_of(Runner::Wine, code_path, dir, true) == "flatpak-spawn"@,
        first_arguments(Runner::Node, code_path, true) == seq!["--host"@, "node"@, code_path],
        first_arguments(Runner::Wine, code_path, true) == seq!["--host"@, "wine"@, code_path],
{
}

/// A page runs in a webview and a script by Node.js wherever the plugin comes from;
/// anything else runs natively, and under Wine only where it is for Windows alone.
pub proof fn law_runner_by_extension(code_path: Seq<char>, wine: bool)
    ensures
        ({
            let l = text::lowercased(code_path);
            let page = ".html"@.is_suffix_of(l) || ".htm"@.is_suffix_of(l)
                || ".xhtml"@.is_suffix_of(l);
            let script = ".js"@.is_suffix_of(l) || ".mjs"@.is_suffix_of(l) || ".cjs"@.is_suffix_of(
                l,
            );
            &&& page <==> runner_for(code_path, wine) == Runner::Webview
            &&& script && !page <==> runner_for(code_path, wine) == Runner::Node
            &&& !page && !script ==> (runner_for(code_path, wine) == Runner::Wine <==> wine)
            &&& !page && !script ==> (runner_for(code_path, wine) == Runner::Native <==> !wine)
        }),
{
}

/// The former names of the product and of its starter pack give way to the present
/// ones, and every other name stays.
pub proof fn law_present_names(category: Seq<char>, product: Seq<char>, name: Seq<char>)
    ensures
        text::trimmed(category) == "OpenDeck"@ ==> branded_category(category, product) == product,
        text::trimmed(category) != "OpenDeck"@ ==> branded_category(category, product)
            == category,
        text::trimmed(name) == "OpenDeck Starter Pack"@ ==> branded_name(name)
            == "RiverDeck Starter Pack"@,
        text::trimmed(name) != "OpenDeck Starter Pack"@ ==> branded_name(name) == name,
{
}

/// The version that Node.js prints is read without the letter before it and the white
/// space round it.
pub proof fn law_node_version_is_read(version: Seq<char>, end: Seq<char>)
    requires
        version.len() > 0,
        version[0] != 'v',
        !text::is_white_space(version.last()),
        forall|i: int| 0 <= i < end.len() ==> text::is_white_space(#[trigger] end[i]),
    ensures
        node_version(seq!['v'] + version + end) == version,
{
    let s = seq!['v'] + version;
    assert(s.last() == version.last());
    text::law_trimmed_is_the_core(Seq::empty(), s, end);
    assert(Seq::<char>::empty() + s + end =~= seq!['v'] + version + end);
    assert(s.drop_first() =~= version);
    reveal_with_fuel(text::trim_start_where, 3);
}

/// Both ports of a base are free exactly where neither is busy.
pub proof fn law_ports_are_free(base: u16, busy: Seq<u16>)
    requires
        base <= 65533,
    ensures
        ports_free(base as int, busy) <==> !busy.contains(base) && !busy.contains(
            (base + 2) as u16,
        ),
{
    let second = (base + 2) as u16;
    if busy.contains(base) {
        let i = choose|i: int| 0 <= i < busy.len() && busy[i] == base;
        assert(busy[i] == base);
    }
    if busy.contains(second) {
        let i = choose|i: int| 0 <= i < busy.len() && busy[i] == second;
        assert(busy[i] == base + 2);
    }
    if !busy.contains(base) && !busy.contains(second) {
        assert forall|i: int| 0 <= i < busy.len() implies busy[i] != base && busy[i] != base + 2 by {
            assert(busy.contains(busy[i]));
        }
    }
}

/// The icon of a category is a file of the plugin, where the manifest names one.
pub proof fn law_category_icon_is_a_file(m: PluginManifest, dir: Seq<char>, existing: Seq<Seq<char>>)
    ensures
        m.category_icon is None ==> prepared_icon(m, dir, existing) is None,
        m.category_icon matches Some(icon) ==> prepared_icon(m, dir, existing) == Some(
            shared::icon_file(shared::joined(dir, icon@), existing),
        ),
        prepared_actions(m, Seq::empty(), dir, existing).len() == m.actions@.len(),
{
}

} // verus!
