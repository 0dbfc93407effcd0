//! The plugins that are installed or can be installed from a workspace.
use vstd::prelude::*;
use crate::path;
use crate::path::file_name;
use crate::shared;
use crate::shared::join;
use crate::text;
use crate::text::{comes_before, owned, same_text, starts_with, texts_contain};

verus! {

#[derive(Clone, Copy, PartialEq, Eq, Structural, Debug)]
pub enum PluginSource {
    Workspace,
    Config,
}

/// Whether a plugin is supported, and if not, why.
pub enum PluginSupport {
    Supported,
    Unsupported(String),
}

/// A plugin that is installed or can be installed.
pub struct LocalPluginEntry {
    /// The name of the plugin's directory.
    pub id: String,
    pub name: String,
    pub version: Option<String>,
    pub icon: Option<String>,
    pub source: PluginSource,
    pub path: String,
    pub installed: bool,
    pub enabled: bool,
    pub support: PluginSupport,
}

/// What the manifest of a plugin says.
pub struct ManifestFacts {
    pub name: String,
    pub version: String,
    /// The file of the icon.
    pub icon: String,
    pub support: PluginSupport,
}

/// A directory of a plugin, and what was read of its manifest or why that could
/// not be read.
pub struct FoundPlugin {
    pub path: String,
    pub manifest: Result<ManifestFacts, String>,
}

/// The model of `PluginSupport`: why a plugin is not supported.
pub open spec fn support_view(s: PluginSupport) -> Option<Seq<char>> {
    match s {
        PluginSupport::Supported => None,
        PluginSupport::Unsupported(why) => Some(why@),
    }
}

/// The model of a `LocalPluginEntry`.
pub struct EntryView {
    pub id: Seq<char>,
    pub name: Seq<char>,
    pub version: Option<Seq<char>>,
    pub icon: Option<Seq<char>>,
    pub source: PluginSource,
    pub path: Seq<char>,
    pub installed: bool,
    pub enabled: bool,
    pub unsupported: Option<Seq<char>>,
}

impl View for LocalPluginEntry {
    type V = EntryView;

    open spec fn view(&self) -> EntryView {
        EntryView {
            id: self.id@,
            name: self.name@,
            version: text::opt_text(self.version),
            icon: text::opt_text(self.icon),
            source: self.source,
            path: self.path@,
            installed: self.installed,
            enabled: self.enabled,
            unsupported: support_view(self.support),
        }
    }
}

/// The models of entries.
pub open spec fn plugin_entries(s: Seq<LocalPluginEntry>) -> Seq<EntryView> {
    s.map_values(|e: LocalPluginEntry| e@)
}

/// The entry of a plugin in the directory `id`.
pub open spec fn entry_of(
    id: Seq<char>,
    f: FoundPlugin,
    source: PluginSource,
    disabled: Seq<Seq<char>>,
) -> EntryView {
    let base = EntryView {
        id,
        name: id,
        version: None,
        icon: None,
        source,
        path: f.path@,
        installed: source == PluginSource::Config,
        enabled: !disabled.contains(id),
        unsupported: None,
    };
    match f.manifest {
        Ok(m) => EntryView {
            name: m.name@,
            version: Some(m.version@),
            icon: Some(m.icon@),
            unsupported: support_view(m.support),
            ..base
        },
        Err(why) => EntryView { unsupported: Some(why@), ..base },
    }
}

/// The entries, which are in the order of their ids, with `e` in its place, and
/// in place of one with the same id.
pub open spec fn placed(s: Seq<EntryView>, e: EntryView) -> Seq<EntryView>
    decreases s.len(),
{
    if s.len() == 0 || text::precedes(e.id, s[0].id) {
        seq![e] + s
    } else if s[0].id == e.id {
        seq![e] + s.drop_first()
    } else {
        seq![s[0]] + placed(s.drop_first(), e)
    }
}

/// The entries with those of the first `n` directories placed among them.
pub open spec fn with_found(
    s: Seq<EntryView>,
    found: Seq<FoundPlugin>,
    source: PluginSource,
    disabled: Seq<Seq<char>>,
    n: nat,
) -> Seq<EntryView>
    decreases n,
{
    if n == 0 || n > found.len() {
        s
    } else {
        let before = with_found(s, found, source, disabled, (n - 1) as nat);
        let f = found[n - 1];
        match path::file_name_of(f.path@) {
            Some(id) => placed(before, entry_of(id, f, source, disabled)),
            None => before,
        }
    }
}

/// All plugins in the order of their ids. One that is both installed and in the
/// workspace is listed as installed.
pub open spec fn local_plugins(
    workspace: Seq<FoundPlugin>,
    config: Seq<FoundPlugin>,
    disabled: Seq<Seq<char>>,
) -> Seq<EntryView> {
    with_found(
        with_found(
            Seq::empty(),
            workspace,
            PluginSource::Workspace,
            disabled,
            workspace.len(),
        ),
        config,
        PluginSource::Config,
        disabled,
        config.len(),
    )
}

proof fn lemma_placed_at(s: Seq<EntryView>, e: EntryView, k: int)
    requires
        0 <= k <= s.len(),
        forall|j: int|
            0 <= j < k ==> !text::precedes(e.id, (#[trigger] s[j]).id) && s[j].id != e.id,
        k < s.len() ==> text::precedes(e.id, s[k].id) || s[k].id == e.id,
    ensures
        placed(s, e) == if k < s.len() && s[k].id == e.id {
            s.update(k, e)
        } else {
            s.insert(k, e)
        },
    decreases s.len(),
{
    if k == 0 {
        if s.len() > 0 {
            text::lemma_precedes_total(e.id, s[0].id);
        }
        if k < s.len() && s[k].id == e.id {
            assert(placed(s, e) =~= s.update(k, e));
        } else {
            assert(placed(s, e) =~= s.insert(k, e));
        }
    } else {
        assert(!text::precedes(e.id, s[0].id) && s[0].id != e.id);
        let t = s.drop_first();
        assert forall|j: int| 0 <= j < k - 1 implies !text::precedes(e.id, (#[trigger] t[j]).id)
            && t[j].id != e.id by {
            assert(t[j] == s[j + 1]);
        }
        lemma_placed_at(t, e, k - 1);
        if k < s.len() && s[k].id == e.id {
            assert(placed(s, e) =~= s.update(k, e));
        } else {
            assert(placed(s, e) =~= s.insert(k, e));
        }
    }
}

fn place(out: &mut Vec<LocalPluginEntry>, e: LocalPluginEntry)
    ensures
        plugin_entries(final(out)@) == placed(plugin_entries(old(out)@), e@),
{
    let ghost all = plugin_entries(out@);
    let mut k: usize = 0;
    while k < out.len() && !comes_before(&e.id, &out[k].id) && !same_text(&out[k].id, &e.id)
        invariant
            k <= out@.len(),
            out@ == old(out)@,
            all == plugin_entries(out@),
            forall|j: int|
                0 <= j < k ==> !text::precedes(e.id@, (#[trigger] all[j]).id) && all[j].id
                    != e.id@,
        decreases out@.len() - k,
    {
        assert(all[k as int].id == out@[k as int].id@);
        k = k + 1;
    }
    proof {
        if k < out@.len() {
            assert(all[k as int].id == out@[k as int].id@);
        }
        lemma_placed_at(all, e@, k as int);
    }
    if k < out.len() && same_text(&out[k].id, &e.id) {
        out.set(k, e);
        assert(plugin_entries(out@) =~= all.update(k as int, e@));
    } else {
        out.insert(k, e);
        assert(plugin_entries(out@) =~= all.insert(k as int, e@));
    }
}

fn copy_support(s: &PluginSupport) -> (r: PluginSupport)
    ensures
        support_view(r) == support_view(*s),
{
    match s {
        PluginSupport::Supported => PluginSupport::Supported,
        PluginSupport::Unsupported(why) => PluginSupport::Unsupported(why.clone()),
    }
}

fn make_entry(id: &str, f: &FoundPlugin, source: PluginSource, disabled: &Vec<String>) -> (r:
    LocalPluginEntry)
    ensures
        r@ == entry_of(id@, *f, source, text::texts(disabled@)),
{
    let enabled = !texts_contain(disabled, id);
    let installed = match source {
        PluginSource::Config => true,
        PluginSource::Workspace => false,
    };
    match &f.manifest {
        Ok(m) => LocalPluginEntry {
            id: owned(id),
            name: m.name.clone(),
            version: Some(m.version.clone()),
            icon: Some(m.icon.clone()),
            source,
            path: f.path.clone(),
            installed,
            enabled,
            support: copy_support(&m.support),
        },
        Err(why) => LocalPluginEntry {
            id: owned(id),
            name: owned(id),
            version: None,
            icon: None,
            source,
            path: f.path.clone(),
            installed,
            enabled,
            support: PluginSupport::Unsupported(why.clone()),
        },
    }
}

fn place_found(
    out: &mut Vec<LocalPluginEntry>,
    found: &Vec<FoundPlugin>,
    source: PluginSource,
    disabled: &Vec<String>,
)
    ensures
        plugin_entries(final(out)@) == with_found(
            plugin_entries(old(out)@),
            found@,
            source,
            text::texts(disabled@),
            found@.len(),
        ),
{
    let ghost start = plugin_entries(out@);
    let mut i: usize = 0;
    while i < found.len()
        invariant
            i <= found@.len(),
            plugin_entries(out@) == with_found(
                start,
                found@,
                source,
                text::texts(disabled@),
                i as nat,
            ),
        decreases found@.len() - i,
    {
        match file_name(&found[i].path) {
            Some(id) => {
                let e = make_entry(&id, &found[i], source, disabled);
                place(out, e);
            },
            None => {},
        }
        i = i + 1;
    }
}

/// Lists the plugins of the workspace and the installed ones.
pub fn list_local_plugins(
    workspace: &Vec<FoundPlugin>,
    config: &Vec<FoundPlugin>,
    disabled: &Vec<String>,
) -> (r: Vec<LocalPluginEntry>)
    ensures
        plugin_entries(r@) == local_plugins(workspace@, config@, text::texts(disabled@)),
{
    let mut out: Vec<LocalPluginEntry> = Vec::new();
    assert(plugin_entries(out@) =~= Seq::<EntryView>::empty());
    place_found(&mut out, workspace, PluginSource::Workspace, disabled);
    place_found(&mut out, config, PluginSource::Config, disabled);
    out
}

/// The entries are in the order of their ids, and no id comes twice.
pub open spec fn in_order(s: Seq<EntryView>) -> bool {
    forall|i: int, j: int|
        0 <= i < j < s.len() ==> text::precedes((#[trigger] s[i]).id, (#[trigger] s[j]).id)
}

proof fn lemma_placed_in_order(s: Seq<EntryView>, e: EntryView)
    requires
        in_order(s),
    ensures
        in_order(placed(s, e)),
        forall|x: Seq<char>|
            (forall|j: int| 0 <= j < s.len() ==> text::precedes(x, (#[trigger] s[j]).id))
                && text::precedes(x, e.id) ==> forall|j: int|
                0 <= j < placed(s, e).len() ==> text::precedes(x, (#[trigger] placed(s, e)[j]).id),
    decreases s.len(),
{
    let r = placed(s, e);
    if s.len() == 0 || text::precedes(e.id, s[0].id) {
        assert forall|i: int, j: int| 0 <= i < j < r.len() implies text::precedes(
            (#[trigger] r[i]).id,
            (#[trigger] r[j]).id,
        ) by {
            if i == 0 {
                assert(r[j] == s[j - 1]);
                if j > 1 {
                    assert(text::precedes(s[0].id, s[j - 1].id));
                    text::lemma_precedes_transitive(e.id, s[0].id, s[j - 1].id);
                }
            } else {
                assert(r[i] == s[i - 1] && r[j] == s[j - 1]);
            }
        }
        assert forall|x: Seq<char>|
            (forall|j: int| 0 <= j < s.len() ==> text::precedes(x, (#[trigger] s[j]).id))
                && text::precedes(x, e.id) implies forall|j: int|
            0 <= j < r.len() ==> text::precedes(x, (#[trigger] r[j]).id) by {
            assert forall|j: int| 0 <= j < r.len() implies text::precedes(
                x,
                (#[trigger] r[j]).id,
            ) by {
                if j > 0 {
                    assert(r[j] == s[j - 1]);
                }
            }
        }
    } else if s[0].id == e.id {
        assert forall|i: int, j: int| 0 <= i < j < r.len() implies text::precedes(
            (#[trigger] r[i]).id,
            (#[trigger] r[j]).id,
        ) by {
            assert(r[j] == s[j]);
            assert(r[i].id == s[i].id);
            assert(text::precedes(s[i].id, s[j].id));
        }
        assert forall|x: Seq<char>|
            (forall|j: int| 0 <= j < s.len() ==> text::precedes(x, (#[trigger] s[j]).id))
                && text::precedes(x, e.id) implies forall|j: int|
            0 <= j < r.len() ==> text::precedes(x, (#[trigger] r[j]).id) by {
            assert forall|j: int| 0 <= j < r.len() implies text::precedes(
                x,
                (#[trigger] r[j]).id,
            ) by {
                if j > 0 {
                    assert(r[j] == s[j]);
                }
            }
        }
    } else {
        let t = s.drop_first();
        assert forall|i: int, j: int| 0 <= i < j < t.len() implies text::precedes(
            (#[trigger] t[i]).id,
            (#[trigger] t[j]).id,
        ) by {
            assert(t[i] == s[i + 1] && t[j] == s[j + 1]);
        }
        lemma_placed_in_order(t, e);
        let u = placed(t, e);
        text::lemma_precedes_total(e.id, s[0].id);
        assert forall|j: int| 0 <= j < t.len() implies text::precedes(
            s[0].id,
            (#[trigger] t[j]).id,
        ) by {
            assert(t[j] == s[j + 1]);
        }
        assert(forall|j: int| 0 <= j < u.len() ==> text::precedes(s[0].id, (#[trigger] u[j]).id));
        assert forall|i: int, j: int| 0 <= i < j < r.len() implies text::precedes(
            (#[trigger] r[i]).id,
            (#[trigger] r[j]).id,
        ) by {
            assert(r[j] == u[j - 1]);
            if i > 0 {
                assert(r[i] == u[i - 1]);
            }
        }
        assert forall|x: Seq<char>|
            (forall|j: int| 0 <= j < s.len() ==> text::precedes(x, (#[trigger] s[j]).id))
                && text::precedes(x, e.id) implies forall|j: int|
            0 <= j < r.len() ==> text::precedes(x, (#[trigger] r[j]).id) by {
            assert forall|j: int| 0 <= j < t.len() implies text::precedes(
                x,
                (#[trigger] t[j]).id,
            ) by {
                assert(t[j] == s[j + 1]);
            }
            assert forall|j: int| 0 <= j < r.len() implies text::precedes(
                x,
                (#[trigger] r[j]).id,
            ) by {
                if j > 0 {
                    assert(r[j] == u[j - 1]);
                }
            }
        }
    }
}

proof fn lemma_with_found_in_order(
    s: Seq<EntryView>,
    found: Seq<FoundPlugin>,
    source: PluginSource,
    disabled: Seq<Seq<char>>,
    n: nat,
)
    requires
        in_order(s),
    ensures
        in_order(with_found(s, found, source, disabled, n)),
    decreases n,
{
    if n > 0 && n <= found.len() {
        lemma_with_found_in_order(s, found, source, disabled, (n - 1) as nat);
        let before = with_found(s, found, source, disabled, (n - 1) as nat);
        let f = found[n - 1];
        match path::file_name_of(f.path@) {
            Some(id) => {
                lemma_placed_in_order(before, entry_of(id, f, source, disabled));
            },
            None => {},
        }
    }
}

/// The plugins are listed in the order of their ids, each once.
pub proof fn law_plugins_in_order(
    workspace: Seq<FoundPlugin>,
    config: Seq<FoundPlugin>,
    disabled: Seq<Seq<char>>,
)
    ensures
        in_order(local_plugins(workspace, config, disabled)),
{
    lemma_with_found_in_order(
        Seq::empty(),
        workspace,
        PluginSource::Workspace,
        disabled,
        workspace.len(),
    );
    lemma_with_found_in_order(
        with_found(
            Seq::empty(),
            workspace,
            PluginSource::Workspace,
            disabled,
            workspace.len(),
        ),
        config,
        PluginSource::Config,
        disabled,
        config.len(),
    );
}

// ---------------------------------------------------------------------------
// Enabling
// ---------------------------------------------------------------------------

/// The ids among the first `n` other than `id`.
pub open spec fn ids_without(ids: Seq<Seq<char>>, id: Seq<char>, n: nat) -> Seq<Seq<char>>
    decreases n,
{
    if n == 0 || n > ids.len() {
        Seq::empty()
    } else {
        let before = ids_without(ids, id, (n - 1) as nat);
        if ids[n - 1] == id {
            before
        } else {
            before.push(ids[n - 1])
        }
    }
}

/// The disabled plugins after one was enabled or disabled.
pub open spec fn disabled_after(ids: Seq<Seq<char>>, id: Seq<char>, enabled: bool) -> Seq<
    Seq<char>,
> {
    if enabled {
        ids_without(ids, id, ids.len())
    } else if ids.contains(id) {
        ids
    } else {
        ids.push(id)
    }
}

/// Enables or disables a plugin.
pub fn set_plugin_enabled(disabled: &mut Vec<String>, plugin_id: &str, enabled: bool)
    ensures
        text::texts(final(disabled)@) == disabled_after(
            text::texts(old(disabled)@),
            plugin_id@,
            enabled,
        ),
{
    let ghost all = text::texts(disabled@);
    if enabled {
        let mut out: Vec<String> = Vec::new();
        let mut i: usize = 0;
        assert(text::texts(out@) =~= Seq::<Seq<char>>::empty());
        while i < disabled.len()
            invariant
                i <= disabled@.len(),
                all == text::texts(disabled@),
                text::texts(out@) == ids_without(all, plugin_id@, i as nat),
            decreases disabled@.len() - i,
        {
            assert(all[i as int] == disabled@[i as int]@);
            if !same_text(&disabled[i], plugin_id) {
                let ghost before = out@;
                out.push(disabled[i].clone());
                assert(text::texts(out@) =~= text::texts(before).push(all[i as int]));
            }
            i = i + 1;
        }
        *disabled = out;
    } else if !texts_contain(disabled, plugin_id) {
        disabled.push(owned(plugin_id));
        assert(text::texts(disabled@) =~= all.push(plugin_id@));
    }
}

proof fn lemma_ids_without(ids: Seq<Seq<char>>, id: Seq<char>, n: nat)
    requires
        n <= ids.len(),
    ensures
        !ids_without(ids, id, n).contains(id),
        forall|x: Seq<char>|
            x != id ==> (ids_without(ids, id, n).contains(x) <==> ids.take(n as int).contains(x)),
    decreases n,
{
    if n > 0 {
        lemma_ids_without(ids, id, (n - 1) as nat);
        let before = ids_without(ids, id, (n - 1) as nat);
        let now = ids_without(ids, id, n);
        let last = ids[n - 1];
        assert(ids.take(n as int) =~= ids.take(n - 1).push(last));
        assert(!now.contains(id)) by {
            if now.contains(id) {
                let i = choose|i: int| 0 <= i < now.len() && now[i] == id;
                if i < before.len() {
                    assert(before[i] == id);
                }
            }
        }
        assert forall|x: Seq<char>| x != id implies (now.contains(x) <==> ids.take(
            n as int,
        ).contains(x)) by {
            let t = ids.take(n - 1);
            let u = ids.take(n as int);
            if now.contains(x) {
                let i = choose|i: int| 0 <= i < now.len() && now[i] == x;
                if i < before.len() {
                    assert(before[i] == x);
                    assert(before.contains(x));
                    let k = choose|k: int| 0 <= k < t.len() && t[k] == x;
                    assert(u[k] == x);
                } else {
                    assert(u[n - 1] == x);
                }
            }
            if u.contains(x) {
                let k = choose|k: int| 0 <= k < u.len() && u[k] == x;
                if k < n - 1 {
                    assert(t[k] == x);
                    assert(t.contains(x));
                    let i = choose|i: int| 0 <= i < before.len() && before[i] == x;
                    assert(now[i] == x);
                } else {
                    assert(now[before.len() as int] == x);
                }
            }
        }
    } else {
        assert(ids.take(0) =~= Seq::empty());
    }
}

/// A plugin is disabled after it was disabled and not after it was enabled, and
/// no other plugin is affected.
pub proof fn law_plugin_enabled(ids: Seq<Seq<char>>, id: Seq<char>, enabled: bool, other: Seq<char>)
    ensures
        disabled_after(ids, id, enabled).contains(id) == !enabled,
        other != id ==> disabled_after(ids, id, enabled).contains(other) == ids.contains(other),
{
    if enabled {
        lemma_ids_without(ids, id, ids.len());
        assert(ids.take(ids.len() as int) =~= ids);
    } else if !ids.contains(id) {
        let now = ids.push(id);
        assert(now[ids.len() as int] == id);
        if other != id {
            if now.contains(other) {
                let i = choose|i: int| 0 <= i < now.len() && now[i] == other;
                assert(ids[i] == other);
            }
            if ids.contains(other) {
                let i = choose|i: int| 0 <= i < ids.len() && ids[i] == other;
                assert(now[i] == other);
            }
        }
    }
}

// ---------------------------------------------------------------------------
// Installing from a workspace
// ---------------------------------------------------------------------------

/// The directory of the installed plugins.
pub fn config_plugins_dir(config_dir: &str) -> (r: String)
    ensures
        r@ == shared::joined(config_dir@, "plugins"@),
{
    join(config_dir, "plugins")
}

/// Where the manifest of a plugin is read from.
#[derive(Clone, Copy, PartialEq, Eq, Structural, Debug)]
pub enum ManifestPlace {
    /// In the directory of the plugin, in any form that is known.
    Root,
    /// Among the assets of a plugin in the workspace, as plain JSON. Its files
    /// are among the assets as well.
    Assets,
}

/// Where the manifest of a plugin is read from: an installed plugin has it in
/// its directory, one in the workspace may have it among its assets. `None` where
/// one in the workspace has none.
pub fn manifest_place(source: PluginSource, has_manifest: bool, has_assets_manifest: bool) -> (r:
    Option<ManifestPlace>)
    ensures
        r == if source == PluginSource::Config || has_manifest {
            Some(ManifestPlace::Root)
        } else if has_assets_manifest {
            Some(ManifestPlace::Assets)
        } else {
            None
        },
{
    match source {
        PluginSource::Config => Some(ManifestPlace::Root),
        PluginSource::Workspace => if has_manifest {
            Some(ManifestPlace::Root)
        } else if has_assets_manifest {
            Some(ManifestPlace::Assets)
        } else {
            None
        },
    }
}

/// The layout of a plugin directory.
pub struct PluginLayout {
    pub has_manifest: bool,
    pub has_assets_manifest: bool,
    pub has_assets_icons: bool,
    pub has_icons: bool,
    pub has_assets_inspector: bool,
    pub has_inspector: bool,
}

/// A step in which a plugin directory with an `assets` directory is flattened.
#[derive(Clone, Copy, PartialEq, Eq, Structural, Debug)]
pub enum FlattenStep {
    CopyManifest,
    CopyIcons,
    CopyInspector,
}

/// The steps in which an installed plugin is flattened: only where its manifest
/// is still among its assets.
pub fn flatten_steps(l: &PluginLayout) -> (r: Vec<FlattenStep>)
    ensures
        r@ == if l.has_manifest || !l.has_assets_manifest {
            Seq::empty()
        } else {
            seq![FlattenStep::CopyManifest] + (if l.has_assets_icons && !l.has_icons {
                seq![FlattenStep::CopyIcons]
            } else {
                Seq::empty()
            }) + (if l.has_assets_inspector && !l.has_inspector {
                seq![FlattenStep::CopyInspector]
            } else {
                Seq::empty()
            })
        },
{
    let mut steps: Vec<FlattenStep> = Vec::new();
    if !l.has_manifest && l.has_assets_manifest {
        steps.push(FlattenStep::CopyManifest);
        if l.has_assets_icons && !l.has_icons {
            steps.push(FlattenStep::CopyIcons);
        }
        if l.has_assets_inspector && !l.has_inspector {
            steps.push(FlattenStep::CopyInspector);
        }
        assert(steps@ =~= seq![FlattenStep::CopyManifest] + (if l.has_assets_icons && !l.has_icons {
            seq![FlattenStep::CopyIcons]
        } else {
            Seq::empty()
        }) + (if l.has_assets_inspector && !l.has_inspector {
            seq![FlattenStep::CopyInspector]
        } else {
            Seq::empty()
        }));
    }
    steps
}

/// The builds of a workspace plugin whose code path is below `linux/`, in the
/// order in which they are looked for; none where it has no such code path.
pub open spec fn build_candidates(code_path: Seq<char>, root: Seq<char>) -> Seq<Seq<char>> {
    if !"linux/"@.is_prefix_of(code_path) {
        Seq::empty()
    } else {
        match path::file_name_of(code_path) {
            None => Seq::empty(),
            Some(name) => {
                let target = shared::joined(root, "target"@);
                seq![
                    shared::joined(shared::joined(target, "debug"@), name),
                    shared::joined(shared::joined(target, "release"@), name),
                ]
            },
        }
    }
}

/// The builds of a workspace plugin.
pub fn builds_of(code_path: &str, root: &str) -> (r: Vec<String>)
    ensures
        text::texts(r@) == build_candidates(code_path@, root@),
{
    let mut out: Vec<String> = Vec::new();
    assert(text::texts(out@) =~= Seq::<Seq<char>>::empty());
    if !starts_with(code_path, "linux/") {
        return out;
    }
    match file_name(code_path) {
        None => out,
        Some(name) => {
            let target = join(root, "target");
            let debug = join(&target, "debug");
            let release = join(&target, "release");
            out.push(join(&debug, &name));
            out.push(join(&release, &name));
            assert(text::texts(out@) =~= build_candidates(code_path@, root@));
            out
        },
    }
}

// ---------------------------------------------------------------------------
// Launching
// ---------------------------------------------------------------------------

/// An entry of the plugins directory, followed where it is a link.
pub struct StartupEntry {
    pub path: String,
    /// Whether it stays inside the plugins directory.
    pub inside: bool,
    pub is_dir: bool,
}

/// The plugin of an entry is launched when the application starts: the entry is a
/// directory inside the plugins directory, and the plugin is not disabled.
pub open spec fn is_launched(e: StartupEntry, disabled: Seq<Seq<char>>) -> bool {
    &&& e.inside
    &&& e.is_dir
    &&& !(path::file_name_of(e.path@) matches Some(id) && disabled.contains(id))
}

/// The directories among the first `n` whose plugins are launched.
pub open spec fn launched(entries: Seq<StartupEntry>, disabled: Seq<Seq<char>>, n: nat) -> Seq<
    Seq<char>,
>
    decreases n,
{
    if n == 0 || n > entries.len() {
        Seq::empty()
    } else {
        let before = launched(entries, disabled, (n - 1) as nat);
        if is_launched(entries[n - 1], disabled) {
            before.push(entries[n - 1].path@)
        } else {
            before
        }
    }
}

/// The directories of the plugins that are launched when the application starts.
pub fn plugins_to_launch(entries: &Vec<StartupEntry>, disabled: &Vec<String>) -> (r: Vec<String>)
    ensures
        text::texts(r@) == launched(entries@, text::texts(disabled@), entries@.len()),
{
    let mut out: Vec<String> = Vec::new();
    assert(text::texts(out@) =~= Seq::<Seq<char>>::empty());
    let mut i: usize = 0;
    while i < entries.len()
        invariant
            i <= entries@.len(),
            text::texts(out@) == launched(entries@, text::texts(disabled@), i as nat),
        decreases entries@.len() - i,
    {
        let e = &entries[i];
        let off = match file_name(&e.path) {
            Some(id) => texts_contain(disabled, &id),
            None => false,
        };
        if e.inside && e.is_dir && !off {
            let ghost before = out@;
            out.push(e.path.clone());
            assert(text::texts(out@) =~= text::texts(before).push(e.path@));
        }
        i = i + 1;
    }
    out
}

/// A plugin that was disabled is not launched when the application starts.
pub proof fn law_disabled_plugin_stays_off(
    entries: Seq<StartupEntry>,
    disabled: Seq<Seq<char>>,
    id: Seq<char>,
    n: nat,
    i: int,
)
    requires
        0 <= i < launched(entries, disabled_after(disabled, id, false), n).len(),
    ensures
        path::file_name_of(launched(entries, disabled_after(disabled, id, false), n)[i]) != Some(id),
    decreases n,
{
    let off = disabled_after(disabled, id, false);
    law_plugin_enabled(disabled, id, false, Seq::empty());
    if n > 0 && n <= entries.len() {
        let before = launched(entries, off, (n - 1) as nat);
        if i < before.len() {
            law_disabled_plugin_stays_off(entries, disabled, id, (n - 1) as nat, i);
        }
    }
}

/// The entry of a plugin says what its manifest says: its name, version, icon and
/// whether it is supported. Without a readable manifest it is listed by its id, as
/// not supported.
pub proof fn law_entry_is_what_its_manifest_says(
    id: Seq<char>,
    f: FoundPlugin,
    source: PluginSource,
    disabled: Seq<Seq<char>>,
)
    ensures
        ({
            let e = entry_of(id, f, source, disabled);
            &&& e.id == id && e.source == source && e.path == f.path@
            &&& e.installed <==> source == PluginSource::Config
            &&& e.enabled <==> !disabled.contains(id)
            &&& f.manifest matches Ok(m) ==> e.name == m.name@ && e.version == Some(m.version@)
                && e.icon == Some(m.icon@) && (e.unsupported is None <==> m.support is Supported)
            &&& f.manifest matches Err(why) ==> e.name == id && e.version is None && e.icon is None
                && e.unsupported == Some(why@)
        }),
{
}

proof fn lemma_placed_entry(s: Seq<EntryView>, e: EntryView)
    ensures
        placed(s, e).contains(e),
        forall|k: int|
            0 <= k < s.len() && s[k].id != e.id ==> placed(s, e).contains(#[trigger] s[k]),
        forall|k: int|
            0 <= k < placed(s, e).len() ==> (#[trigger] placed(s, e)[k]) == e || s.contains(
                placed(s, e)[k],
            ),
    decreases s.len(),
{
    let r = placed(s, e);
    if s.len() == 0 || text::precedes(e.id, s[0].id) {
        assert(r[0] == e);
        assert forall|k: int| 0 <= k < s.len() && s[k].id != e.id implies r.contains(
            #[trigger] s[k],
        ) by {
            assert(r[k + 1] == s[k]);
        }
        assert forall|k: int| 0 <= k < r.len() implies (#[trigger] r[k]) == e || s.contains(
            r[k],
        ) by {
            if k > 0 {
                assert(r[k] == s[k - 1]);
            }
        }
    } else if s[0].id == e.id {
        assert(r[0] == e);
        assert forall|k: int| 0 <= k < s.len() && s[k].id != e.id implies r.contains(
            #[trigger] s[k],
        ) by {
            assert(r[k] == s[k]);
        }
        assert forall|k: int| 0 <= k < r.len() implies (#[trigger] r[k]) == e || s.contains(
            r[k],
        ) by {
            if k > 0 {
                assert(r[k] == s[k]);
            }
        }
    } else {
        let t = s.drop_first();
        let q = placed(t, e);
        lemma_placed_entry(t, e);
        let i = choose|i: int| 0 <= i < q.len() && q[i] == e;
        assert(r[i + 1] == e);
        assert forall|k: int| 0 <= k < s.len() && s[k].id != e.id implies r.contains(
            #[trigger] s[k],
        ) by {
            if k == 0 {
                assert(r[0] == s[0]);
            } else {
                assert(t[k - 1] == s[k]);
                let j = choose|j: int| 0 <= j < q.len() && q[j] == t[k - 1];
                assert(r[j + 1] == s[k]);
            }
        }
        assert forall|k: int| 0 <= k < r.len() implies (#[trigger] r[k]) == e || s.contains(
            r[k],
        ) by {
            if k == 0 {
                assert(r[0] == s[0]);
            } else {
                assert(r[k] == q[k - 1]);
                if q[k - 1] != e {
                    let j = choose|j: int| 0 <= j < t.len() && t[j] == q[k - 1];
                    assert(s[j + 1] == r[k]);
                }
            }
        }
    }
}

/// Some entry is that of the plugin `id` and comes from `source`.
pub open spec fn lists(s: Seq<EntryView>, id: Seq<char>, source: PluginSource) -> bool {
    exists|k: int| 0 <= k < s.len() && (#[trigger] s[k]).id == id && s[k].source == source
}

proof fn lemma_with_found_lists(
    s: Seq<EntryView>,
    found: Seq<FoundPlugin>,
    source: PluginSource,
    disabled: Seq<Seq<char>>,
    n: nat,
    id: Seq<char>,
    any: PluginSource,
)
    requires
        n <= found.len(),
    ensures
        (exists|k: int|
            0 <= k < n && path::file_name_of((#[trigger] found[k]).path@) == Some(id)) ==> lists(
            with_found(s, found, source, disabled, n),
            id,
            source,
        ),
        !(exists|k: int|
            0 <= k < n && path::file_name_of((#[trigger] found[k]).path@) == Some(id)) && lists(
            s,
            id,
            any,
        ) ==> lists(with_found(s, found, source, disabled, n), id, any),
    decreases n,
{
    let now = with_found(s, found, source, disabled, n);
    if n > 0 {
        let m = (n - 1) as nat;
        lemma_with_found_lists(s, found, source, disabled, m, id, any);
        let before = with_found(s, found, source, disabled, m);
        let f = found[m as int];
        if let Some(own) = path::file_name_of(f.path@) {
            let e = entry_of(own, f, source, disabled);
            lemma_placed_entry(before, e);
            if own == id {
                let k = choose|k: int| 0 <= k < now.len() && now[k] == e;
                assert(now[k].id == id && now[k].source == source);
                assert(path::file_name_of(found[m as int].path@) == Some(id));
            } else {
                if lists(before, id, source) {
                    let k = choose|k: int|
                        0 <= k < before.len() && (#[trigger] before[k]).id == id && before[k].source
                            == source;
                    let j = choose|j: int| 0 <= j < now.len() && now[j] == before[k];
                    assert(now[j].id == id && now[j].source == source);
                }
                if lists(before, id, any) {
                    let k = choose|k: int|
                        0 <= k < before.len() && (#[trigger] before[k]).id == id && before[k].source
                            == any;
                    let j = choose|j: int| 0 <= j < now.len() && now[j] == before[k];
                    assert(now[j].id == id && now[j].source == any);
                }
            }
        }
        if exists|k: int|
            0 <= k < n && path::file_name_of((#[trigger] found[k]).path@) == Some(id) {
            let k = choose|k: int|
                0 <= k < n && path::file_name_of((#[trigger] found[k]).path@) == Some(id);
            if k < m {
                assert(exists|k: int|
                    0 <= k < m && path::file_name_of((#[trigger] found[k]).path@) == Some(id));
            }
        }
        if exists|k: int|
            0 <= k < m && path::file_name_of((#[trigger] found[k]).path@) == Some(id) {
            let k = choose|k: int|
                0 <= k < m && path::file_name_of((#[trigger] found[k]).path@) == Some(id);
            assert(path::file_name_of(found[k].path@) == Some(id));
        }
    }
}

/// Every plugin that was found is listed: as installed where it is, be it in the
/// workspace too or not, and else as one of the workspace.
pub proof fn law_every_local_plugin_is_listed(
    workspace: Seq<FoundPlugin>,
    config: Seq<FoundPlugin>,
    disabled: Seq<Seq<char>>,
    id: Seq<char>,
)
    ensures
        ({
            let all = local_plugins(workspace, config, disabled);
            let installed = exists|k: int|
                0 <= k < config.len() && path::file_name_of((#[trigger] config[k]).path@) == Some(
                    id,
                );
            let local = exists|k: int|
                0 <= k < workspace.len() && path::file_name_of((#[trigger] workspace[k]).path@)
                    == Some(id);
            &&& installed ==> lists(all, id, PluginSource::Config)
            &&& local && !installed ==> lists(all, id, PluginSource::Workspace)
        }),
{
    let a = with_found(
        Seq::empty(),
        workspace,
        PluginSource::Workspace,
        disabled,
        workspace.len(),
    );
    lemma_with_found_lists(
        Seq::empty(),
        workspace,
        PluginSource::Workspace,
        disabled,
        workspace.len(),
        id,
        PluginSource::Workspace,
    );
    lemma_with_found_lists(
        a,
        config,
        PluginSource::Config,
        disabled,
        config.len(),
        id,
        PluginSource::Workspace,
    );
}

/// A plugin is launched at the start exactly where its entry is a directory inside the
/// plugins directory and it is not disabled.
pub proof fn law_enabled_plugins_are_launched(
    entries: Seq<StartupEntry>,
    disabled: Seq<Seq<char>>,
    n: nat,
    k: int,
)
    requires
        0 <= k < n <= entries.len(),
        entries[k].inside,
        entries[k].is_dir,
        path::file_name_of(entries[k].path@) matches Some(id) ==> !disabled.contains(id),
    ensures
        launched(entries, disabled, n).contains(entries[k].path@),
    decreases n,
{
    let m = (n - 1) as nat;
    let now = launched(entries, disabled, n);
    let before = launched(entries, disabled, m);
    if k < m {
        law_enabled_plugins_are_launched(entries, disabled, m, k);
        let t = choose|t: int| 0 <= t < before.len() && before[t] == entries[k].path@;
        assert(now[t] == entries[k].path@);
    } else {
        assert(now[before.len() as int] == entries[k].path@);
    }
}

/// What is launched is a directory inside the plugins directory.
pub proof fn law_only_directories_are_launched(
    entries: Seq<StartupEntry>,
    disabled: Seq<Seq<char>>,
    n: nat,
    p: Seq<char>,
)
    requires
        n <= entries.len(),
        launched(entries, disabled, n).contains(p),
    ensures
        exists|k: int|
            0 <= k < n && (#[trigger] entries[k]).path@ == p && entries[k].inside
                && entries[k].is_dir,
    decreases n,
{
    if n > 0 {
        let m = (n - 1) as nat;
        let now = launched(entries, disabled, n);
        let before = launched(entries, disabled, m);
        let t = choose|t: int| 0 <= t < now.len() && now[t] == p;
        if t < before.len() {
            assert(before[t] == p);
            law_only_directories_are_launched(entries, disabled, m, p);
            let k = choose|k: int|
                0 <= k < m && (#[trigger] entries[k]).path@ == p && entries[k].inside
                    && entries[k].is_dir;
            assert(entries[k].path@ == p);
        } else {
            assert(entries[m as int].path@ == p);
        }
    }
}

/// The builds of a workspace plugin that are looked for are those of its own code, the
/// debug build before the release build.
pub proof fn law_builds_are_looked_for(code_path: Seq<char>, root: Seq<char>, name: Seq<char>)
    requires
        "linux/"@.is_prefix_of(code_path),
        path::file_name_of(code_path) == Some(name),
    ensures
        build_candidates(code_path, root).len() == 2,
        build_candidates(code_path, root)[0] == shared::joined(
            shared::joined(shared::joined(root, "target"@), "debug"@),
            name,
        ),
        build_candidates(code_path, root)[1] == shared::joined(
            shared::joined(shared::joined(root, "target"@), "release"@),
            name,
        ),
{
}

} // verus!
