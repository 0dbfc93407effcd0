//! What is drawn for an instance, and which side draws it.
use vstd::prelude::*;
use crate::plugins;
use crate::plugins::{device_namespace, DeviceNamespaces};
use crate::shared;
use crate::shared::{ActionInstance, InstanceView, TextPlacement};
use crate::text;
use crate::text::{same_text, starts_with, trim};

verus! {

/// The image that an instance shows: that of its current state, where it has
/// one of its own, else the icon of its action; nothing where that is blank.
pub open spec fn shown_image(i: InstanceView) -> Option<Seq<char>> {
    let own = if (i.current_state as int) < i.states.len() {
        text::trimmed(i.states[i.current_state as int].image)
    } else {
        Seq::empty()
    };
    let image = if own.len() > 0 && own != "actionDefaultImage"@ {
        own
    } else {
        i.action.icon
    };
    if text::trimmed(image).len() == 0 {
        None
    } else {
        Some(image)
    }
}

/// The image that an instance shows.
pub fn effective_image_for_instance(instance: &ActionInstance) -> (r: Option<String>)
    ensures
        text::opt_text(r) == shown_image(instance@),
{
    broadcast use shared::lemma_instance_view;

    let at: usize = instance.current_state as usize;
    if at < instance.states.len() {
        assert(instance@.states[at as int] == instance.states@[at as int]@);
        let own = trim(&instance.states[at].image);
        if !own.as_str().is_empty() && !same_text(&own, "actionDefaultImage") {
            if trim(&own).as_str().is_empty() {
                return None;
            }
            return Some(own);
        }
    }
    if trim(&instance.action.icon).as_str().is_empty() {
        None
    } else {
        Some(instance.action.icon.clone())
    }
}

// ---------------------------------------------------------------------------
// Labels
// ---------------------------------------------------------------------------

/// The other side of a key.
pub open spec fn opposite(p: TextPlacement) -> TextPlacement {
    match p {
        TextPlacement::Top => TextPlacement::Bottom,
        TextPlacement::Bottom => TextPlacement::Top,
        TextPlacement::Left => TextPlacement::Right,
        TextPlacement::Right => TextPlacement::Left,
    }
}

fn opposite_placement(p: TextPlacement) -> (r: TextPlacement)
    ensures
        r == opposite(p),
{
    match p {
        TextPlacement::Top => TextPlacement::Bottom,
        TextPlacement::Bottom => TextPlacement::Top,
        TextPlacement::Left => TextPlacement::Right,
        TextPlacement::Right => TextPlacement::Left,
    }
}

/// The labels of an instance: its title, where it is to be shown and not blank,
/// and the name of its action, where it is to be shown, not blank and not the
/// title itself. The name stands opposite the title, or at the bottom where
/// there is none.
pub open spec fn overlays(i: InstanceView) -> Option<Seq<(Seq<char>, TextPlacement)>> {
    if i.current_state >= i.states.len() {
        None
    } else {
        let st = i.states[i.current_state as int];
        let title = text::trimmed(st.text);
        let name = text::trimmed(i.action.name);
        let show_title = st.show && title.len() > 0;
        let show_name = st.show_action_name && name.len() > 0;
        if show_title && show_name && title != name {
            Some(seq![(title, st.text_placement), (name, opposite(st.text_placement))])
        } else if show_title {
            Some(seq![(title, st.text_placement)])
        } else if show_name {
            Some(seq![(name, TextPlacement::Bottom)])
        } else {
            None
        }
    }
}

/// The models of labels.
pub open spec fn labels(s: Seq<(String, TextPlacement)>) -> Seq<(Seq<char>, TextPlacement)> {
    s.map_values(|l: (String, TextPlacement)| (l.0@, l.1))
}

/// The models of labels that there may be.
pub open spec fn opt_labels(s: Option<Vec<(String, TextPlacement)>>) -> Option<
    Seq<(Seq<char>, TextPlacement)>,
> {
    match s {
        Some(v) => Some(labels(v@)),
        None => None,
    }
}

/// The labels that are drawn over the image of an instance.
pub fn overlays_for_instance(instance: &ActionInstance) -> (r: Option<
    Vec<(String, TextPlacement)>,
>)
    ensures
        opt_labels(r) == overlays(instance@),
{
    broadcast use shared::lemma_instance_view;

    let at: usize = instance.current_state as usize;
    if at >= instance.states.len() {
        return None;
    }
    let st = &instance.states[at];
    assert(instance@.states[at as int] == st@);
    let title = trim(&st.text);
    let name = trim(&instance.action.name);
    let show_title = st.show && !title.as_str().is_empty();
    let show_name = st.show_action_name && !name.as_str().is_empty();
    if !show_title && !show_name {
        return None;
    }
    let mut out: Vec<(String, TextPlacement)> = Vec::new();
    let differs = !same_text(&title, &name);
    let ghost (t, n) = (title@, name@);
    if show_title {
        out.push((title, st.text_placement));
    }
    if show_name && (!show_title || differs) {
        let placement = if show_title {
            opposite_placement(st.text_placement)
        } else {
            TextPlacement::Bottom
        };
        out.push((name, placement));
    }
    assert(labels(out@) =~= overlays(instance@)->0);
    Some(out)
}

/// The labels of an instance are one or two, and two stand on opposite sides and
/// differ.
pub proof fn law_labels_do_not_collide(i: InstanceView)
    ensures
        overlays(i) matches Some(l) ==> 1 <= l.len() <= 2 && (l.len() == 2 ==> l[0].1 != l[1].1
            && l[0].0 != l[1].0),
{
}

// ---------------------------------------------------------------------------
// Routes
// ---------------------------------------------------------------------------

/// Who draws on a device.
pub enum DeviceRoute {
    /// The plugin that serves its namespace.
    Plugin(String),
    /// The host itself.
    Host,
    Nobody,
}

/// The model of a `DeviceRoute`.
pub enum RouteView {
    Plugin(Seq<char>),
    Host,
    Nobody,
}

impl View for DeviceRoute {
    type V = RouteView;

    open spec fn view(&self) -> RouteView {
        match self {
            DeviceRoute::Plugin(p) => RouteView::Plugin(p@),
            DeviceRoute::Host => RouteView::Host,
            DeviceRoute::Nobody => RouteView::Nobody,
        }
    }
}

/// The plugin that serves the namespace of a device.
pub open spec fn serving_plugin(n: Seq<(Seq<char>, Seq<char>)>, device: Seq<char>) -> Option<
    Seq<char>,
> {
    let names = plugins::namespaces(n);
    let ns = plugins::namespace_of(device);
    if names.contains(ns) {
        Some(n[text::first_index(names, ns)].1)
    } else {
        None
    }
}

/// Who draws on a device: the plugin of its namespace, else the host, where the
/// id is one of the host's own.
pub open spec fn route(n: Seq<(Seq<char>, Seq<char>)>, device: Seq<char>) -> RouteView {
    match serving_plugin(n, device) {
        Some(p) => RouteView::Plugin(p),
        None => if "sd-"@.is_prefix_of(device) {
            RouteView::Host
        } else {
            RouteView::Nobody
        },
    }
}

/// Who draws on a device.
pub fn route_of_device(namespaces: &DeviceNamespaces, device: &str) -> (r: DeviceRoute)
    requires
        plugins::has_namespace(device@),
    ensures
        r@ == route(namespaces@, device@),
{
    let ns = device_namespace(device);
    match namespaces.get(&ns) {
        Some(p) => DeviceRoute::Plugin(p),
        None => if starts_with(device, "sd-") {
            DeviceRoute::Host
        } else {
            DeviceRoute::Nobody
        },
    }
}

/// The plugins, with their devices, that are told a new brightness, among the
/// first `n` devices.
pub open spec fn told(
    ns: Seq<(Seq<char>, Seq<char>)>,
    devices: Seq<Seq<char>>,
    n: nat,
) -> Seq<(Seq<char>, Seq<char>)>
    decreases n,
{
    if n == 0 || n > devices.len() {
        Seq::empty()
    } else {
        let rest = told(ns, devices, (n - 1) as nat);
        match serving_plugin(ns, devices[n - 1]) {
            Some(p) => rest.push((p, devices[n - 1])),
            None => rest,
        }
    }
}

/// The models of pairs of texts.
pub open spec fn pairs(s: Seq<(String, String)>) -> Seq<(Seq<char>, Seq<char>)> {
    s.map_values(|p: (String, String)| (p.0@, p.1@))
}

/// The plugins, with their devices, that are told a new brightness.
pub fn brightness_targets(namespaces: &DeviceNamespaces, devices: &Vec<String>) -> (r: Vec<
    (String, String),
>)
    requires
        forall|i: int|
            0 <= i < devices@.len() ==> plugins::has_namespace(#[trigger] devices@[i]@),
    ensures
        pairs(r@) == told(namespaces@, text::texts(devices@), devices@.len()),
{
    let mut out: Vec<(String, String)> = Vec::new();
    let ghost ids = text::texts(devices@);
    let mut i: usize = 0;
    assert(pairs(out@) =~= Seq::empty());
    while i < devices.len()
        invariant
            i <= devices@.len(),
            ids == text::texts(devices@),
            forall|k: int|
                0 <= k < devices@.len() ==> plugins::has_namespace(#[trigger] devices@[k]@),
            pairs(out@) == told(namespaces@, ids, i as nat),
        decreases devices@.len() - i,
    {
        assert(ids[i as int] == devices@[i as int]@);
        let ns = device_namespace(&devices[i]);
        let ghost before = out@;
        match namespaces.get(&ns) {
            Some(p) => {
                let ghost name = p@;
                out.push((p, devices[i].clone()));
                assert(pairs(out@) =~= pairs(before).push((name, devices@[i as int]@)));
            },
            None => {},
        }
        i = i + 1;
    }
    out
}

/// An instance shows the image of its current state wherever that is one of its own,
/// and the icon of its action otherwise; nothing where that is blank.
pub proof fn law_current_state_is_shown(i: InstanceView)
    requires
        (i.current_state as int) < i.states.len(),
    ensures
        ({
            let own = text::trimmed(i.states[i.current_state as int].image);
            &&& own.len() > 0 && own != "actionDefaultImage"@ && text::trimmed(own).len() > 0
                ==> shown_image(i) == Some(own)
            &&& (own.len() == 0 || own == "actionDefaultImage"@) && text::trimmed(
                i.action.icon,
            ).len() > 0 ==> shown_image(i) == Some(i.action.icon)
            &&& (own.len() == 0 || own == "actionDefaultImage"@) && text::trimmed(
                i.action.icon,
            ).len() == 0 ==> shown_image(i) is None
        }),
{
}

/// The title of the current state is drawn at its place wherever it is to be shown
/// and not blank. The name of the action is drawn opposite, unless it is the title;
/// without a title it is drawn at the bottom.
pub proof fn law_title_and_name_are_drawn(i: InstanceView)
    requires
        (i.current_state as int) < i.states.len(),
    ensures
        ({
            let st = i.states[i.current_state as int];
            let title = text::trimmed(st.text);
            let name = text::trimmed(i.action.name);
            let titled = st.show && title.len() > 0;
            let named = st.show_action_name && name.len() > 0;
            &&& titled ==> (overlays(i) matches Some(l) && l.len() >= 1 && l[0] == (
                title,
                st.text_placement,
            ))
            &&& titled && named && title != name ==> (overlays(i) matches Some(l) && l.len() == 2
                && l[1].0 == name && (st.text_placement == TextPlacement::Top ==> l[1].1
                == TextPlacement::Bottom) && (st.text_placement == TextPlacement::Bottom ==> l[1].1
                == TextPlacement::Top) && (st.text_placement == TextPlacement::Left ==> l[1].1
                == TextPlacement::Right) && (st.text_placement == TextPlacement::Right ==> l[1].1
                == TextPlacement::Left))
            &&& titled && !(named && title != name) ==> overlays(i)->0.len() == 1
            &&& !titled && named ==> (overlays(i) matches Some(l) && l == seq![
                (name, TextPlacement::Bottom),
            ])
            &&& !titled && !named ==> overlays(i) is None
        }),
{
}

/// A device is drawn by the plugin that serves its namespace, whatever its id is;
/// without one, by the host where the id begins with `sd-`, and else by nobody.
pub proof fn law_who_draws(n: Seq<(Seq<char>, Seq<char>)>, device: Seq<char>, k: int)
    requires
        0 <= k < n.len(),
        forall|j: int| 0 <= j < k ==> (#[trigger] n[j]).0 != plugins::namespace_of(device),
    ensures
        n[k].0 == plugins::namespace_of(device) ==> route(n, device) == RouteView::Plugin(n[k].1)
            && serving_plugin(n, device) == Some(n[k].1),
        route(Seq::empty(), device) == RouteView::Host <==> "sd-"@.is_prefix_of(device),
        route(Seq::empty(), device) == RouteView::Nobody <==> !"sd-"@.is_prefix_of(device),
{
    let names = plugins::namespaces(n);
    let ns = plugins::namespace_of(device);
    if n[k].0 == ns {
        assert(names[k] == ns);
        assert forall|j: int| 0 <= j < k implies #[trigger] names[j] != ns by {
            assert(names[j] == n[j].0);
        }
        text::lemma_first_index_is(names, ns, k);
    }
    assert(!plugins::namespaces(Seq::<(Seq<char>, Seq<char>)>::empty()).contains(ns));
}

/// Each device that a plugin serves has its plugin told of a new brightness, and no
/// other plugin is told.
pub proof fn law_brightness_is_told(
    ns: Seq<(Seq<char>, Seq<char>)>,
    devices: Seq<Seq<char>>,
    n: nat,
    plugin: Seq<char>,
    device: Seq<char>,
)
    requires
        n <= devices.len(),
    ensures
        told(ns, devices, n).contains((plugin, device)) <==> serving_plugin(ns, device) == Some(
            plugin,
        ) && exists|k: int| 0 <= k < n && #[trigger] devices[k] == device,
    decreases n,
{
    let now = told(ns, devices, n);
    if n > 0 {
        let m = (n - 1) as nat;
        law_brightness_is_told(ns, devices, m, plugin, device);
        let before = told(ns, devices, m);
        if now.contains((plugin, device)) {
            let t = choose|t: int| 0 <= t < now.len() && now[t] == (plugin, device);
            if t < before.len() {
                assert(before[t] == (plugin, device));
                let k = choose|k: int| 0 <= k < m && #[trigger] devices[k] == device;
                assert(devices[k] == device);
            } else {
                assert(devices[m as int] == device);
            }
        }
        if serving_plugin(ns, device) == Some(plugin) && exists|k: int|
            0 <= k < n && #[trigger] devices[k] == device {
            let k = choose|k: int| 0 <= k < n && #[trigger] devices[k] == device;
            if k < m {
                let t = choose|t: int| 0 <= t < before.len() && before[t] == (plugin, device);
                assert(now[t] == (plugin, device));
            } else {
                assert(now[before.len() as int] == (plugin, device));
            }
        }
    }
}

} // verus!
