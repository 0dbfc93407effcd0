//! Creating, changing, moving and removing action instances.
use vstd::prelude::*;
use crate::json;
use crate::json::{get_str, set_field, Json, JsonView};
use crate::path;
use crate::path::relative_to;
use crate::profiles;
use crate::profiles::{find_child, get_instance_mut};
use crate::relocate;
use crate::relocate::{image_extension_of, page_images_dir};
use crate::shared;
use crate::shared::{
    is_multi_action_uuid, is_toggle_action_uuid, join, normalize_builtin_action,
    normalize_starterpack_action, Action, ActionContext, ActionContextView, ActionInstance,
    ActionState, ActionView, Context, ContextView, FontSize, InstanceView, StateView, TextPlacement,
};
use crate::text;
use crate::text::{concat2, decimal_text, owned, same_text, texts_contain, trim};

verus! {

// ---------------------------------------------------------------------------
// Multi actions
// ---------------------------------------------------------------------------

/// When the children of a multi action run.
#[derive(Clone, Copy, PartialEq, Eq, Structural, Debug)]
pub enum MultiActionRunOn {
    KeyDown,
    KeyUp,
}

/// The text of a `MultiActionRunOn`.
pub open spec fn run_on_text(r: MultiActionRunOn) -> Seq<char> {
    match r {
        MultiActionRunOn::KeyDown => "keyDown"@,
        MultiActionRunOn::KeyUp => "keyUp"@,
    }
}

impl MultiActionRunOn {
    /// The text that stands for the value in settings.
    pub fn as_str(self) -> (r: &'static str)
        ensures
            r@ == run_on_text(self),
    {
        match self {
            MultiActionRunOn::KeyDown => "keyDown",
            MultiActionRunOn::KeyUp => "keyUp",
        }
    }
}

/// When the children run by the settings: on key up where `runOn` says so.
pub open spec fn run_on(settings: JsonView) -> MultiActionRunOn {
    if json::text_field(settings, "runOn"@) == Some("keyUp"@) {
        MultiActionRunOn::KeyUp
    } else {
        MultiActionRunOn::KeyDown
    }
}

/// When the children of a multi action run by its settings.
pub fn parse_multi_action_run_on(settings: &Json) -> (r: MultiActionRunOn)
    ensures
        r == run_on(settings@),
{
    match get_str(settings, "runOn") {
        Some(s) => if same_text(&s, "keyUp") {
            MultiActionRunOn::KeyUp
        } else {
            MultiActionRunOn::KeyDown
        },
        None => MultiActionRunOn::KeyDown,
    }
}

/// The settings with `runOn` set.
pub open spec fn with_run_on(settings: JsonView, r: MultiActionRunOn) -> JsonView {
    let fields = match settings {
        JsonView::Object(o) => o,
        _ => Seq::empty(),
    };
    JsonView::Object(json::with_field(fields, "runOn"@, JsonView::Text(run_on_text(r))))
}

/// The instance is a multi action of its own, no child.
pub open spec fn is_multi_parent(i: InstanceView) -> bool {
    i.context.index == 0 && shared::is_multi(i.action.uuid)
}

/// The instance is a toggle action of its own, no child.
pub open spec fn is_toggle_parent(i: InstanceView) -> bool {
    i.context.index == 0 && shared::is_toggle(i.action.uuid)
}

/// Sets when the children of a multi action run. Returns whether that changed
/// anything.
pub fn set_multi_action_run_on(instance: &mut ActionInstance, new: MultiActionRunOn) -> (r: bool)
    ensures
        r == (is_multi_parent(old(instance)@) && run_on(old(instance)@.settings) != new),
        final(instance)@ == if r {
            InstanceView {
                settings: with_run_on(old(instance)@.settings, new),
                ..old(instance)@
            }
        } else {
            old(instance)@
        },
{
    broadcast use {shared::lemma_instance_view, json::lemma_json_view};

    if instance.context.index != 0 || !is_multi_action_uuid(&instance.action.uuid) {
        return false;
    }
    if parse_multi_action_run_on(&instance.settings) == new {
        return false;
    }
    let mut fields: Vec<(String, Json)> = match &instance.settings {
        Json::Object(_) => match instance.settings.copy() {
            Json::Object(o) => o,
            _ => Vec::new(),
        },
        _ => Vec::new(),
    };
    let ghost before = match instance.settings@ {
        JsonView::Object(o) => o,
        _ => Seq::empty(),
    };
    assert(json::fields_view(fields@) =~= before);
    set_field(&mut fields, "runOn", Json::Text(owned(new.as_str())));
    instance.settings = Json::Object(fields);
    true
}

/// What was set is what is read.
pub proof fn law_run_on_reads_back(settings: JsonView, r: MultiActionRunOn)
    ensures
        run_on(with_run_on(settings, r)) == r,
{
    let fields = match settings {
        JsonView::Object(o) => o,
        _ => Seq::empty(),
    };
    json::lemma_field_after_set(
        fields,
        "runOn"@,
        JsonView::Text(run_on_text(r)),
        Seq::empty(),
    );
    reveal_strlit("keyDown");
    reveal_strlit("keyUp");
    assert("keyDown"@.len() != "keyUp"@.len());
}

/// `s` with the item at `from` taken out and put in at `to`.
pub open spec fn moved_item<T>(s: Seq<T>, from: int, to: int) -> Seq<T> {
    s.remove(from).insert(to, s[from])
}

/// A reorder that changes something.
pub open spec fn reorders(i: InstanceView, from: int, to: int) -> bool {
    &&& from != to
    &&& i.children matches Some(c)
    &&& from < c.len()
    &&& to < c.len()
}

fn move_child(children: &mut Vec<ActionInstance>, from: usize, to: usize)
    requires
        from < old(children)@.len(),
        to < old(children)@.len(),
    ensures
        shared::instances_view(final(children)@) == moved_item(
            shared::instances_view(old(children)@),
            from as int,
            to as int,
        ),
        final(children)@.len() == old(children)@.len(),
{
    let ghost before = shared::instances_view(children@);
    let child = children.remove(from);
    children.insert(to, child);
    assert(shared::instances_view(children@) =~= moved_item(before, from as int, to as int));
}

/// Moves a child of a multi action. Returns whether that changed anything.
pub fn reorder_multi_action_child(instance: &mut ActionInstance, from: usize, to: usize) -> (r: bool)
    ensures
        r == (is_multi_parent(old(instance)@) && reorders(
            old(instance)@,
            from as int,
            to as int,
        )),
        final(instance)@ == if r {
            InstanceView {
                children: Some(
                    moved_item(old(instance)@.children->0, from as int, to as int),
                ),
                ..old(instance)@
            }
        } else {
            old(instance)@
        },
{
    broadcast use shared::lemma_instance_view;

    if from == to || instance.context.index != 0 || !is_multi_action_uuid(&instance.action.uuid) {
        return false;
    }
    match &mut instance.children {
        Some(children) => {
            if from >= children.len() || to >= children.len() {
                return false;
            }
            move_child(children, from, to);
            true
        },
        None => false,
    }
}

/// Moving an item and then moving it back leaves the items as they were, and
/// moving keeps all items.
pub proof fn law_reorder_back<T>(s: Seq<T>, from: int, to: int)
    requires
        0 <= from < s.len(),
        0 <= to < s.len(),
    ensures
        moved_item(moved_item(s, from, to), to, from) == s,
        moved_item(s, from, to).to_multiset() == s.to_multiset(),
        moved_item(s, from, to).len() == s.len(),
{
    let t = moved_item(s, from, to);
    assert(t[to] == s[from]);
    assert(t.remove(to) =~= s.remove(from));
    assert(moved_item(t, to, from) =~= s);
    broadcast use vstd::seq_lib::group_to_multiset_ensures;

    vstd::seq_lib::to_multiset_remove(s, from);
    vstd::seq_lib::to_multiset_insert(s.remove(from), to, s[from]);
    assert(s.contains(s[from]));
    assert(t.to_multiset() =~= s.to_multiset());
}

// ---------------------------------------------------------------------------
// Toggle actions
// ---------------------------------------------------------------------------

/// The icon of a child: the image of its current state, or of its first where
/// that is missing, unless it is empty or the default; else the icon of its
/// action.
pub open spec fn child_icon(c: InstanceView) -> Seq<char> {
    let state = if (c.current_state as int) < c.states.len() {
        Some(c.states[c.current_state as int])
    } else if c.states.len() > 0 {
        Some(c.states[0])
    } else {
        None
    };
    match state {
        Some(st) => {
            let image = text::trimmed(st.image);
            if image.len() > 0 && image != "actionDefaultImage"@ {
                image
            } else {
                c.action.icon
            }
        },
        None => c.action.icon,
    }
}

/// The icon of a child of a toggle action.
pub fn toggle_child_icon_for_state(child: &ActionInstance) -> (r: String)
    ensures
        r@ == child_icon(child@),
{
    broadcast use shared::lemma_instance_view;

    let current: usize = child.current_state as usize;
    if child.states.len() > 0 {
        let k: usize = if current < child.states.len() {
            current
        } else {
            0
        };
        assert(child@.states[k as int] == child.states@[k as int]@);
        let image = trim(&child.states[k].image);
        if !image.as_str().is_empty() && !same_text(&image, "actionDefaultImage") {
            return image;
        }
    }
    child.action.icon.clone()
}

/// The states of a toggle action with the children `c`: one for each child,
/// with the child's icon.
pub open spec fn synced_states(s: Seq<StateView>, c: Seq<InstanceView>) -> Seq<StateView> {
    Seq::new(
        c.len(),
        |k: int|
            StateView {
                image: child_icon(c[k]),
                ..if k < s.len() {
                    s[k]
                } else {
                    shared::default_state()
                }
            },
    )
}

/// A toggle action whose states match its children. One without children keeps
/// at most one state. Any other instance is left as it is.
pub open spec fn synced(i: InstanceView) -> InstanceView {
    if !shared::is_toggle(i.action.uuid) {
        i
    } else {
        match i.children {
            None => i,
            Some(c) => if c.len() == 0 {
                InstanceView {
                    current_state: 0,
                    states: if i.states.len() > 1 {
                        i.states.take(1)
                    } else {
                        i.states
                    },
                    ..i
                }
            } else {
                InstanceView {
                    current_state: if (i.current_state as int) >= c.len() {
                        (c.len() - 1) as u16
                    } else {
                        i.current_state
                    },
                    states: synced_states(i.states, c),
                    ..i
                }
            },
        }
    }
}

/// Makes the states of a toggle action match its children.
pub fn sync_toggle_state_images_from_children(parent: &mut ActionInstance)
    ensures
        final(parent)@ == synced(old(parent)@),
{
    broadcast use shared::lemma_instance_view;

    if !is_toggle_action_uuid(&parent.action.uuid) {
        return;
    }
    match &parent.children {
        Some(children) => {
            let n: usize = children.len();
            if n == 0 {
                parent.current_state = 0;
                if parent.states.len() > 1 {
                    let ghost before = parent.states@;
                    parent.states.truncate(1);
                    assert(shared::states_view(parent.states@) =~= shared::states_view(
                        before,
                    ).take(1));
                }
                return;
            }
            if parent.current_state as usize >= n {
                parent.current_state = (n - 1) as u16;
            }
            let ghost before = shared::states_view(parent.states@);
            let ghost models = shared::instances_view(children@);
            let mut states: Vec<ActionState> = Vec::new();
            let mut k: usize = 0;
            while k < n
                invariant
                    n == children@.len(),
                    k <= n,
                    before == shared::states_view(parent.states@),
                    models == shared::instances_view(children@),
                    states@.len() == k,
                    forall|j: int|
                        0 <= j < k ==> (#[trigger] states@[j])@ == synced_states(before, models)[j],
                decreases n - k,
            {
                let mut st = if k < parent.states.len() {
                    assert(before[k as int] == parent.states@[k as int]@);
                    parent.states[k].copy()
                } else {
                    ActionState::default()
                };
                assert(models[k as int] == children@[k as int]@);
                st.image = toggle_child_icon_for_state(&children[k]);
                states.push(st);
                k = k + 1;
            }
            parent.states = states;
            assert(shared::states_view(parent.states@) =~= synced_states(before, models));
        },
        None => {},
    }
}

/// A toggle action with children that was synced has one state for each child,
/// its current state is one of them, and syncing again changes nothing.
pub proof fn law_synced_toggle(i: InstanceView)
    requires
        shared::is_toggle(i.action.uuid),
        i.children is Some,
        i.children->0.len() > 0,
    ensures
        synced(i).states.len() == i.children->0.len(),
        (synced(i).current_state as int) < i.children->0.len(),
        synced(synced(i)) == synced(i),
{
    let s = synced(i);
    let c = i.children->0;
    if (i.current_state as int) >= c.len() {
        assert(c.len() - 1 <= 65535);
        assert(((c.len() - 1) as u16) as int == c.len() - 1);
    }
    assert(synced_states(s.states, c) =~= s.states);
}

/// The toggle action after a child was moved: its states move with the
/// children where there is one for each, and the child that was current stays
/// so.
pub open spec fn toggle_reordered(i: InstanceView, from: int, to: int) -> InstanceView {
    let c = i.children->0;
    let now = moved_item(c, from, to);
    let k = if (i.current_state as int) < c.len() {
        profiles::child_index(now, c[i.current_state as int].context)
    } else {
        now.len() as int
    };
    synced(
        InstanceView {
            children: Some(now),
            states: if i.states.len() == c.len() {
                moved_item(i.states, from, to)
            } else {
                i.states
            },
            current_state: if 0 <= k < now.len() {
                k as u16
            } else {
                i.current_state
            },
            ..i
        },
    )
}

/// Moves a child of a toggle action. Returns whether that changed anything.
pub fn reorder_toggle_action_child(instance: &mut ActionInstance, from: usize, to: usize) -> (r:
    bool)
    requires
        old(instance)@.children matches Some(c) ==> c.len() <= 65536,
    ensures
        r == (is_toggle_parent(old(instance)@) && reorders(
            old(instance)@,
            from as int,
            to as int,
        )),
        final(instance)@ == if r {
            toggle_reordered(old(instance)@, from as int, to as int)
        } else {
            old(instance)@
        },
{
    broadcast use shared::lemma_instance_view;

    if from == to || instance.context.index != 0 || !is_toggle_action_uuid(&instance.action.uuid) {
        return false;
    }
    let ghost states0 = shared::states_view(instance.states@);
    match &mut instance.children {
        Some(children) => {
            if from >= children.len() || to >= children.len() {
                return false;
            }
            let ghost models = shared::instances_view(children@);
            let current: usize = instance.current_state as usize;
            let current_context = if current < children.len() {
                assert(models[current as int] == children@[current as int]@);
                Some(children[current].context.copy())
            } else {
                None
            };
            move_child(children, from, to);
            if instance.states.len() == children.len() {
                let st = instance.states.remove(from);
                instance.states.insert(to, st);
                assert(shared::states_view(instance.states@) =~= moved_item(
                    states0,
                    from as int,
                    to as int,
                ));
            }
            match current_context {
                Some(context) => {
                    let k = find_child(children, &context);
                    if k < children.len() {
                        instance.current_state = k as u16;
                    }
                },
                None => {},
            }
        },
        None => {
            return false;
        },
    }
    sync_toggle_state_images_from_children(instance);
    true
}

/// The child of a toggle action that was current stays current when children
/// are moved, where their contexts differ.
pub proof fn law_toggle_reorder_keeps_current(i: InstanceView, from: int, to: int)
    requires
        is_toggle_parent(i),
        0 <= from,
        0 <= to,
        reorders(i, from, to),
        i.children->0.len() <= 65536,
        (i.current_state as int) < i.children->0.len(),
        forall|a: int, b: int|
            0 <= a < b < i.children->0.len() ==> (#[trigger] i.children->0[a]).context != (
            #[trigger] i.children->0[b]).context,
    ensures
        ({
            let r = toggle_reordered(i, from, to);
            r.children->0[r.current_state as int] == i.children->0[i.current_state as int]
        }),
{
    let c = i.children->0;
    let now = moved_item(c, from, to);
    let cur = i.current_state as int;
    profiles::lemma_child_index(now, c[cur].context);
    let rest = c.remove(from);
    let at = if cur == from {
        to
    } else {
        let x = if cur < from {
            cur
        } else {
            cur - 1
        };
        if x < to {
            x
        } else {
            x + 1
        }
    };
    assert(now[at] == c[cur]);
    let k = profiles::child_index(now, c[cur].context);
    if k < at || k > at {
        if k < now.len() {
            let y = if k < to {
                k
            } else {
                k - 1
            };
            let z = if k == to {
                from
            } else if y < from {
                y
            } else {
                y + 1
            };
            assert(now[k] == c[z]);
        }
    }
    assert(k == at);
}

// ---------------------------------------------------------------------------
// Creating
// ---------------------------------------------------------------------------

/// The action with its present names.
pub open spec fn normalized_action(a: ActionView) -> ActionView {
    ActionView {
        plugin: shared::starterpack_plugin(shared::builtin_plugin(a.plugin)),
        uuid: shared::starterpack_uuid(shared::builtin_uuid(a.uuid)),
        ..a
    }
}

/// The states of a new instance: those of the action, with its name where a
/// title is blank.
pub open spec fn titled_states(a: ActionView) -> Seq<StateView> {
    a.states.map_values(
        |s: StateView|
            StateView {
                text: if text::trimmed(s.text).len() == 0 {
                    a.name
                } else {
                    s.text
                },
                ..s
            },
    )
}

/// A new instance of an action.
pub open spec fn new_instance(
    a: ActionView,
    context: ContextView,
    index: u16,
    children: Option<Seq<InstanceView>>,
) -> InstanceView {
    InstanceView {
        action: a,
        context: shared::at_index(context, index),
        states: titled_states(a),
        current_state: 0,
        settings: JsonView::Object(Seq::empty()),
        children,
    }
}

/// The index of the next child of an instance.
pub open spec fn next_index(c: Seq<InstanceView>) -> u16 {
    if c.len() == 0 {
        1
    } else {
        (c.last().context.index + 1) as u16
    }
}

/// The instance that an action becomes in a slot. In an empty slot it stands by
/// itself. In a slot with a multi or toggle action it becomes a child of that,
/// if it may. Else there is none.
pub open spec fn created(
    slot: Option<InstanceView>,
    action: ActionView,
    context: ContextView,
) -> Option<InstanceView> {
    let a = normalized_action(action);
    if !a.controllers.contains(context.controller) {
        None
    } else {
        match slot {
            None => Some(
                new_instance(
                    a,
                    context,
                    0,
                    if shared::holds_children(a.uuid) {
                        Some(Seq::empty())
                    } else {
                        None
                    },
                ),
            ),
            Some(parent) => match parent.children {
                None => None,
                Some(c) => if shared::holds_children(a.uuid) || !a.supported_in_multi_actions {
                    None
                } else {
                    Some(new_instance(a, context, next_index(c), None))
                },
            },
        }
    }
}

/// The slot after an instance was created in it.
pub open spec fn slot_with_created(
    slot: Option<InstanceView>,
    action: ActionView,
    context: ContextView,
) -> Option<InstanceView> {
    match created(slot, action, context) {
        None => slot,
        Some(new) => match slot {
            None => Some(new),
            Some(parent) => Some(
                synced(
                    InstanceView { children: Some((parent.children->0).push(new)), ..parent },
                ),
            ),
        },
    }
}

fn title_states(action: &Action) -> (r: Vec<ActionState>)
    ensures
        shared::states_view(r@) == titled_states(action@),
{
    let mut out: Vec<ActionState> = Vec::new();
    let mut i: usize = 0;
    while i < action.states.len()
        invariant
            i <= action.states@.len(),
            out@.len() == i,
            forall|k: int|
                0 <= k < i ==> (#[trigger] out@[k])@ == titled_states(action@)[k],
        decreases action.states@.len() - i,
    {
        let mut st = action.states[i].copy();
        assert(action@.states[i as int] == action.states@[i as int]@);
        if trim(&st.text).as_str().is_empty() {
            st.text = action.name.clone();
        }
        out.push(st);
        i = i + 1;
    }
    assert(shared::states_view(out@) =~= titled_states(action@));
    out
}

fn make_instance(
    action: &Action,
    context: &Context,
    index: u16,
    children: Option<Vec<ActionInstance>>,
) -> (r: ActionInstance)
    ensures
        r@ == new_instance(action@, context@, index, shared::children_view(children)),
{
    broadcast use {shared::lemma_instance_view, json::lemma_json_view};

    let fields: Vec<(String, Json)> = Vec::new();
    assert(json::fields_view(fields@) =~= Seq::empty());
    ActionInstance {
        action: action.copy(),
        context: ActionContext::from_context(context.copy(), index),
        states: title_states(action),
        current_state: 0,
        settings: Json::Object(fields),
        children,
    }
}

/// Creates an instance of an action in a slot, and returns it.
pub fn create_instance(slot: &mut Option<ActionInstance>, action: Action, context: &Context) -> (r:
    Option<ActionInstance>)
    requires
        shared::slot_view(*old(slot)) matches Some(p) ==> p.children matches Some(c) ==> c.len() > 0
            ==> c.last().context.index < 65535,
    ensures
        shared::slot_view(r) == created(shared::slot_view(*old(slot)), action@, context@),
        shared::slot_view(*final(slot)) == slot_with_created(
            shared::slot_view(*old(slot)),
            action@,
            context@,
        ),
{
    broadcast use shared::lemma_instance_view;

    let mut action = action;
    let ghost given = action@;
    normalize_builtin_action(&mut action.plugin, &mut action.uuid);
    normalize_starterpack_action(&mut action.plugin, &mut action.uuid);
    assert(action@ == normalized_action(given));
    if !texts_contain(&action.controllers, &context.controller) {
        return None;
    }
    let holds = is_multi_action_uuid(&action.uuid) || is_toggle_action_uuid(&action.uuid);
    match slot {
        Some(parent) => {
            match &mut parent.children {
                Some(children) => {
                    if holds || !action.supported_in_multi_actions {
                        return None;
                    }
                    let ghost models = shared::instances_view(children@);
                    let index: u16 = if children.len() == 0 {
                        1
                    } else {
                        let last: usize = children.len() - 1;
                        assert(models[last as int] == children@[last as int]@);
                        children[last].context.index + 1
                    };
                    let instance = make_instance(&action, context, index, None);
                    let copy = instance.copy();
                    children.push(copy);
                    assert(shared::instances_view(children@) =~= models.push(copy@));
                    sync_toggle_state_images_from_children(parent);
                    Some(instance)
                },
                None => None,
            }
        },
        None => {
            let children: Option<Vec<ActionInstance>> = if holds {
                Some(Vec::new())
            } else {
                None
            };
            proof {
                if holds {
                    assert(shared::children_view(children)->0 =~= Seq::empty());
                }
            }
            let instance = make_instance(&action, context, 0, children);
            let copy = instance.copy();
            *slot = Some(copy);
            Some(instance)
        },
    }
}

/// A new instance stands in the slot in which it was created, and is found
/// there by its context, where no other instance there has that context.
pub proof fn law_created_is_found(
    slot: Option<InstanceView>,
    action: ActionView,
    context: ContextView,
)
    requires
        created(slot, action, context) is Some,
        slot matches Some(p) ==> p.context.index == 0 && (p.children matches Some(c)
            ==> c.len() > 0 ==> c.last().context.index < 65535) && (p.children matches Some(c)
            ==> forall|k: int|
            0 <= k < c.len() ==> (#[trigger] c[k]).context != created(
                slot,
                action,
                context,
            )->0.context),
    ensures
        shared::slot_of(created(slot, action, context)->0.context) == context,
        profiles::instance_in(
            slot_with_created(slot, action, context),
            created(slot, action, context)->0.context,
        ) == created(slot, action, context),
{
    let new = created(slot, action, context)->0;
    match slot {
        None => {},
        Some(p) => {
            let c = p.children->0;
            let all = c.push(new);
            assert(all[c.len() as int] == new);
            assert forall|k: int| 0 <= k < c.len() implies (#[trigger] all[k]).context
                != new.context by {
                assert(all[k] == c[k]);
            }
            profiles::lemma_child_index_is(all, new.context, c.len() as int);
            assert(new.context.index != 0);
        },
    }
}

// ---------------------------------------------------------------------------
// Labels
// ---------------------------------------------------------------------------

/// A change to how an instance is drawn.
pub enum LabelChange {
    Text(String),
    Placement(TextPlacement),
    Size(u16),
    Colour(String),
    ShowTitle(bool),
    ShowActionName(bool),
    ShowIcon(bool),
}

/// A state after a change.
pub open spec fn relabelled(s: StateView, change: LabelChange) -> StateView {
    match change {
        LabelChange::Text(t) => StateView { text: t@, ..s },
        LabelChange::Placement(p) => StateView { text_placement: p, ..s },
        LabelChange::Size(n) => StateView { size: FontSize(n), ..s },
        LabelChange::Colour(c) => StateView { colour: c@, ..s },
        LabelChange::ShowTitle(b) => StateView { show: b, ..s },
        LabelChange::ShowActionName(b) => StateView { show_action_name: b, ..s },
        LabelChange::ShowIcon(b) => StateView { show_icon: b, ..s },
    }
}

/// An instance after a change to all of its states.
pub open spec fn relabelled_instance(i: InstanceView, change: LabelChange) -> InstanceView {
    InstanceView { states: i.states.map_values(|s: StateView| relabelled(s, change)), ..i }
}

/// Changes all states of an instance.
pub fn change_label(instance: &mut ActionInstance, change: &LabelChange)
    ensures
        final(instance)@ == relabelled_instance(old(instance)@, *change),
{
    broadcast use shared::lemma_instance_view;

    let ghost before = instance@;
    let mut states: Vec<ActionState> = Vec::new();
    let mut i: usize = 0;
    while i < instance.states.len()
        invariant
            i <= instance.states@.len(),
            before == instance@,
            states@.len() == i,
            forall|k: int|
                0 <= k < i ==> (#[trigger] states@[k])@ == relabelled(before.states[k], *change),
        decreases instance.states@.len() - i,
    {
        let mut st = instance.states[i].copy();
        assert(before.states[i as int] == instance.states@[i as int]@);
        match change {
            LabelChange::Text(t) => {
                st.text = t.clone();
            },
            LabelChange::Placement(p) => {
                st.text_placement = *p;
            },
            LabelChange::Size(n) => {
                st.size = FontSize(*n);
            },
            LabelChange::Colour(c) => {
                st.colour = c.clone();
            },
            LabelChange::ShowTitle(b) => {
                st.show = *b;
            },
            LabelChange::ShowActionName(b) => {
                st.show_action_name = *b;
            },
            LabelChange::ShowIcon(b) => {
                st.show_icon = *b;
            },
        }
        states.push(st);
        i = i + 1;
    }
    instance.states = states;
    assert(instance@.states =~= relabelled_instance(before, *change).states);
}

/// Sets the title of an instance.
pub fn set_button_label(instance: &mut ActionInstance, label: String)
    ensures
        final(instance)@ == relabelled_instance(old(instance)@, LabelChange::Text(label)),
{
    change_label(instance, &LabelChange::Text(label));
}

/// Sets where the title of an instance is drawn.
pub fn set_button_label_placement(instance: &mut ActionInstance, placement: TextPlacement)
    ensures
        final(instance)@ == relabelled_instance(
            old(instance)@,
            LabelChange::Placement(placement),
        ),
{
    change_label(instance, &LabelChange::Placement(placement));
}

/// Sets the font size of the title of an instance.
pub fn set_button_label_font_size(instance: &mut ActionInstance, size: u16)
    ensures
        final(instance)@ == relabelled_instance(old(instance)@, LabelChange::Size(size)),
{
    change_label(instance, &LabelChange::Size(size));
}

/// Sets the colour of the title of an instance.
pub fn set_button_label_colour(instance: &mut ActionInstance, colour: String)
    ensures
        final(instance)@ == relabelled_instance(old(instance)@, LabelChange::Colour(colour)),
{
    change_label(instance, &LabelChange::Colour(colour));
}

/// Sets whether the title of an instance is drawn.
pub fn set_button_show_title(instance: &mut ActionInstance, show_title: bool)
    ensures
        final(instance)@ == relabelled_instance(
            old(instance)@,
            LabelChange::ShowTitle(show_title),
        ),
{
    change_label(instance, &LabelChange::ShowTitle(show_title));
}

/// Sets whether the name of the action of an instance is drawn.
pub fn set_button_show_action_name(instance: &mut ActionInstance, show_action_name: bool)
    ensures
        final(instance)@ == relabelled_instance(
            old(instance)@,
            LabelChange::ShowActionName(show_action_name),
        ),
{
    change_label(instance, &LabelChange::ShowActionName(show_action_name));
}

/// Sets whether the icon of an instance is drawn.
pub fn set_button_show_icon(instance: &mut ActionInstance, show_icon: bool)
    ensures
        final(instance)@ == relabelled_instance(old(instance)@, LabelChange::ShowIcon(show_icon)),
{
    change_label(instance, &LabelChange::ShowIcon(show_icon));
}

/// The place whose image changes with that of an instance: that of its slot.
pub fn apply_context_for_visuals(ctx: &ActionContext) -> (r: ActionContext)
    ensures
        r@ == shared::at_index(shared::slot_of(ctx@), 0),
{
    ActionContext::from_context(Context::of_action(ctx), 0)
}

/// Whether a change to an instance is drawn at once: its profile and its page
/// are the ones that are shown.
pub fn is_drawn(
    context: &ActionContext,
    active_profile: &Option<String>,
    active_page: &str,
) -> (r: bool)
    ensures
        r == (text::opt_text(*active_profile) == Some(context.profile@) && active_page@
            == context.page@),
{
    match active_profile {
        Some(p) => same_text(p, &context.profile) && same_text(active_page, &context.page),
        None => false,
    }
}

/// Sets the settings of an instance.
pub fn set_instance_settings(instance: &mut ActionInstance, settings: Json)
    ensures
        final(instance)@ == (InstanceView { settings: settings@, ..old(instance)@ }),
{
    broadcast use shared::lemma_instance_view;

    instance.settings = settings;
}

// ---------------------------------------------------------------------------
// Icons
// ---------------------------------------------------------------------------

/// The name of the directory for the images of an instance.
pub open spec fn instance_dir_name(c: ActionContextView) -> Seq<char> {
    c.controller + seq!['.'] + text::decimal(c.position as nat) + seq!['.'] + text::decimal(
        c.index as nat,
    )
}

/// The directory for the images of an instance.
pub open spec fn instance_images(config_dir: Seq<char>, c: ActionContextView) -> Seq<char> {
    shared::joined(
        relocate::page_images(config_dir, c.device, c.profile, c.page),
        instance_dir_name(c),
    )
}

/// The directory for the images of an instance.
pub fn instance_images_dir(config_dir: &str, context: &ActionContext) -> (r: String)
    ensures
        r@ == instance_images(config_dir@, context@),
{
    let mut name = context.controller.clone();
    name.push('.');
    let position = decimal_text(context.position as u64);
    name.append(&position);
    name.push('.');
    let index = decimal_text(context.index as u64);
    name.append(&index);
    assert(name@ =~= instance_dir_name(context@));
    let page = page_images_dir(config_dir, &context.device, &context.profile, &context.page);
    join(&page, &name)
}

/// The file to which the custom icon of an instance is copied, by the extension
/// of the source; `None` where that is none of `png`, `jpg`, `jpeg` and `webp`.
pub fn custom_icon_file(dir: &str, ext: &str) -> (r: Option<String>)
    ensures
        text::opt_text(r) == if ext@ == "png"@ || ext@ == "jpg"@ || ext@ == "jpeg"@ || ext@
            == "webp"@ {
            Some(shared::joined(dir@, "custom_icon."@ + ext@))
        } else {
            None
        },
{
    if same_text(ext, "png") || same_text(ext, "jpg") || same_text(ext, "jpeg") || same_text(
        ext,
        "webp",
    ) {
        let name = concat2("custom_icon.", ext);
        Some(join(dir, &name))
    } else {
        None
    }
}

/// The file to which a custom icon is copied, by the extension of the source;
/// `None` where that is none of `png`, `jpg`, `jpeg` and `webp`.
pub open spec fn icon_destination(
    config_dir: Seq<char>,
    c: ActionContextView,
    source: Seq<char>,
) -> Option<Seq<char>> {
    let ext = relocate::image_extension(text::trimmed(source));
    if ext == "png"@ || ext == "jpg"@ || ext == "jpeg"@ || ext == "webp"@ {
        Some(shared::joined(instance_images(config_dir, c), "custom_icon."@ + ext))
    } else {
        None
    }
}

/// The file to which a custom icon is copied.
pub fn custom_icon_destination(config_dir: &str, context: &ActionContext, source: &str) -> (r:
    Option<String>)
    ensures
        text::opt_text(r) == icon_destination(config_dir@, context@, source@),
{
    let t = trim(source);
    let ext = image_extension_of(&t);
    let dir = instance_images_dir(config_dir, context);
    custom_icon_file(&dir, &ext)
}

/// The states with the image of state `at`, if there is one, set to `image`.
pub open spec fn with_image(s: Seq<StateView>, at: int, image: Seq<char>) -> Seq<StateView> {
    if at < s.len() {
        s.update(at, StateView { image, ..s[at] })
    } else {
        s
    }
}

/// The state that is meant: the given one, or else the current one.
pub open spec fn target_state(i: InstanceView, state: Option<u16>) -> int {
    match state {
        Some(s) => s as int,
        None => i.current_state as int,
    }
}

/// An instance with the image of a state set.
pub open spec fn with_icon(i: InstanceView, state: Option<u16>, image: Seq<char>) -> InstanceView {
    InstanceView { states: with_image(i.states, target_state(i, state), image), ..i }
}

/// An instance of which a state has the image of the action again, where the
/// action has that state.
pub open spec fn with_default_icon(i: InstanceView, state: Option<u16>) -> InstanceView {
    let at = target_state(i, state);
    if at < i.states.len() && at < i.action.states.len() {
        with_icon(i, state, i.action.states[at].image)
    } else {
        i
    }
}

/// Sets the image of a state of an instance.
pub fn set_state_image(instance: &mut ActionInstance, state: Option<u16>, image: &str)
    ensures
        final(instance)@ == with_icon(old(instance)@, state, image@),
{
    broadcast use {shared::lemma_instance_view, shared::lemma_states_update};

    let target: usize = match state {
        Some(s) => s as usize,
        None => instance.current_state as usize,
    };
    if target < instance.states.len() {
        let mut st = instance.states[target].copy();
        st.image = owned(image);
        assert(instance@.states[target as int] == instance.states@[target as int]@);
        instance.states.set(target, st);
    }
}

/// Gives a state of an instance the image of the action again, where the action
/// has that state.
pub fn reset_state_image(instance: &mut ActionInstance, state: Option<u16>)
    ensures
        final(instance)@ == with_default_icon(old(instance)@, state),
{
    broadcast use {shared::lemma_instance_view, shared::lemma_states_update};

    let target: usize = match state {
        Some(s) => s as usize,
        None => instance.current_state as usize,
    };
    if target < instance.states.len() && target < instance.action.states.len() {
        let image = instance.action.states[target].image.clone();
        assert(instance@.action.states[target as int] == instance.action.states@[target as int]@);
        let mut st = instance.states[target].copy();
        st.image = image;
        assert(instance@.states[target as int] == instance.states@[target as int]@);
        instance.states.set(target, st);
    }
}

/// A slot whose instance, where it is a toggle action, has the icons of its
/// children.
pub open spec fn slot_synced(slot: Option<InstanceView>) -> Option<InstanceView> {
    match slot {
        Some(i) => Some(synced(i)),
        None => None,
    }
}

fn sync_slot(slot: &mut Option<ActionInstance>)
    ensures
        shared::slot_view(*final(slot)) == slot_synced(shared::slot_view(*old(slot))),
{
    match slot {
        Some(i) => sync_toggle_state_images_from_children(i),
        None => {},
    }
}

/// Why a custom icon was not set.
#[derive(Clone, Copy, Debug, PartialEq, Eq, Structural)]
pub enum CustomIconError {
    /// There is no such file.
    NotFound,
    /// The file is of a kind that cannot be drawn.
    Unsupported,
}

impl CustomIconError {
    /// The text of the error.
    pub fn message(self) -> (r: &'static str)
        ensures
            r@ == match self {
                CustomIconError::NotFound => "icon path not found"@,
                CustomIconError::Unsupported => "unsupported image type (use png/jpg/jpeg/webp)"@,
            },
    {
        match self {
            CustomIconError::NotFound => "icon path not found",
            CustomIconError::Unsupported => "unsupported image type (use png/jpg/jpeg/webp)",
        }
    }
}

/// What comes of setting a custom icon: the file to which it is copied, or `None`
/// where there is no such instance.
pub open spec fn custom_icon_outcome(
    slot: Option<InstanceView>,
    c: ActionContextView,
    source: Seq<char>,
    source_is_file: bool,
    config_dir: Seq<char>,
) -> Result<Option<Seq<char>>, CustomIconError> {
    if !source_is_file {
        Err(CustomIconError::NotFound)
    } else {
        match icon_destination(config_dir, c, source) {
            None => Err(CustomIconError::Unsupported),
            Some(file) => if profiles::instance_in(slot, c) is Some {
                Ok(Some(file))
            } else {
                Ok(None)
            },
        }
    }
}

/// Gives a state of the instance at `context` a custom icon, and a toggle action
/// around it the icons of its children. Returns the file to which the icon is
/// then copied.
pub fn set_custom_icon_from_path(
    slot: &mut Option<ActionInstance>,
    context: &ActionContext,
    state: Option<u16>,
    source_path: &str,
    source_is_file: bool,
    config_dir: &str,
) -> (r: Result<Option<String>, CustomIconError>)
    ensures
        ({
            let before = shared::slot_view(*old(slot));
            let outcome = custom_icon_outcome(
                before,
                context@,
                source_path@,
                source_is_file,
                config_dir@,
            );
            &&& match r {
                Ok(f) => outcome == Ok::<Option<Seq<char>>, CustomIconError>(text::opt_text(f)),
                Err(e) => outcome == Err::<Option<Seq<char>>, CustomIconError>(e),
            }
            &&& shared::slot_view(*final(slot)) == match outcome {
                Ok(Some(file)) => slot_synced(
                    profiles::slot_with_instance(
                        before,
                        context@,
                        with_icon(profiles::instance_in(before, context@)->0, state, file),
                    ),
                ),
                _ => before,
            }
        }),
{
    if !source_is_file {
        return Err(CustomIconError::NotFound);
    }
    match custom_icon_destination(config_dir, context, source_path) {
        None => Err(CustomIconError::Unsupported),
        Some(file) => {
            match get_instance_mut(slot, context) {
                Some(i) => set_state_image(i, state, &file),
                None => {
                    return Ok(None);
                },
            }
            sync_slot(slot);
            Ok(Some(file))
        },
    }
}

/// Gives a state of the instance at `context` the image of its action again, and
/// a toggle action around it the icons of its children. Returns whether there is
/// such an instance.
pub fn clear_custom_icon(
    slot: &mut Option<ActionInstance>,
    context: &ActionContext,
    state: Option<u16>,
) -> (r: bool)
    ensures
        ({
            let before = shared::slot_view(*old(slot));
            let found = profiles::instance_in(before, context@);
            &&& r == (found is Some)
            &&& shared::slot_view(*final(slot)) == match found {
                Some(i) => slot_synced(
                    profiles::slot_with_instance(before, context@, with_default_icon(i, state)),
                ),
                None => before,
            }
        }),
{
    match get_instance_mut(slot, context) {
        Some(i) => reset_state_image(i, state),
        None => {
            return false;
        },
    }
    sync_slot(slot);
    true
}

// ---------------------------------------------------------------------------
// Moving
// ---------------------------------------------------------------------------

/// The children of an instance can be moved: there are at most 65535, and the
/// action of each has as many states as the child.
pub open spec fn movable(i: InstanceView) -> bool {
    i.children matches Some(c) ==> c.len() <= 65535 && forall|k: int|
        0 <= k < c.len() ==> (#[trigger] c[k]).states.len() <= c[k].action.states.len()
}

/// The states of a child with the images of its action: the image of the
/// state, or the icon where that is empty.
pub open spec fn reset_states(c: InstanceView) -> Seq<StateView> {
    Seq::new(
        c.states.len(),
        |k: int|
            StateView {
                image: if c.action.states[k].image.len() > 0 {
                    c.action.states[k].image
                } else {
                    c.action.icon
                },
                ..c.states[k]
            },
    )
}

/// An instance, with its children, at another slot.
pub open spec fn retargeted(i: InstanceView, destination: ContextView) -> InstanceView {
    InstanceView {
        context: shared::at_index(destination, 0),
        children: match i.children {
            Some(c) => Some(
                Seq::new(
                    c.len(),
                    |k: int|
                        InstanceView {
                            context: shared::at_index(destination, (k + 1) as u16),
                            states: reset_states(c[k]),
                            ..c[k]
                        },
                ),
            ),
            None => None,
        },
        ..i
    }
}

/// Where an image goes when the contents of the directory `old` move to `new`.
pub open spec fn carried_image(image: Seq<char>, old: Seq<char>, new: Seq<char>) -> Seq<char> {
    match path::relative_path(image, old) {
        Some(rel) => shared::joined(new, rel),
        None => image,
    }
}

/// The states with their images carried from one directory to another.
pub open spec fn carried_states(s: Seq<StateView>, old: Seq<char>, new: Seq<char>) -> Seq<
    StateView,
> {
    s.map_values(|x: StateView| StateView { image: carried_image(x.image, old, new), ..x })
}

/// An instance moved to another slot, with its own images.
pub open spec fn moved_instance(
    i: InstanceView,
    destination: ContextView,
    config_dir: Seq<char>,
) -> InstanceView {
    let r = retargeted(i, destination);
    InstanceView {
        states: carried_states(
            r.states,
            instance_images(config_dir, i.context),
            instance_images(config_dir, r.context),
        ),
        ..r
    }
}

fn reset_child(child: &ActionInstance, destination: &Context, index: u16) -> (r: ActionInstance)
    requires
        child@.states.len() <= child@.action.states.len(),
    ensures
        r@ == (InstanceView {
            context: shared::at_index(destination@, index),
            states: reset_states(child@),
            ..child@
        }),
{
    broadcast use shared::lemma_instance_view;

    let mut states: Vec<ActionState> = Vec::new();
    let mut i: usize = 0;
    while i < child.states.len()
        invariant
            i <= child.states@.len(),
            child@.states.len() <= child@.action.states.len(),
            states@.len() == i,
            forall|k: int| 0 <= k < i ==> (#[trigger] states@[k])@ == reset_states(child@)[k],
        decreases child.states@.len() - i,
    {
        let mut st = child.states[i].copy();
        assert(child@.states[i as int] == child.states@[i as int]@);
        assert(child@.action.states[i as int] == child.action.states@[i as int]@);
        if !child.action.states[i].image.as_str().is_empty() {
            st.image = child.action.states[i].image.clone();
        } else {
            st.image = child.action.icon.clone();
        }
        states.push(st);
        i = i + 1;
    }
    let mut r = child.copy();
    r.context = ActionContext::from_context(destination.copy(), index);
    r.states = states;
    assert(r@.states =~= reset_states(child@));
    r
}

/// An instance, with its children, at another slot.
pub fn retarget(instance: &ActionInstance, destination: &Context) -> (r: ActionInstance)
    requires
        movable(instance@),
    ensures
        r@ == retargeted(instance@, destination@),
{
    broadcast use shared::lemma_instance_view;

    let mut r = instance.copy();
    r.context = ActionContext::from_context(destination.copy(), 0);
    match &instance.children {
        Some(c) => {
            let ghost models = shared::instances_view(c@);
            let ghost want = retargeted(instance@, destination@).children->0;
            let mut out: Vec<ActionInstance> = Vec::new();
            let mut i: usize = 0;
            while i < c.len()
                invariant
                    i <= c@.len() <= 65535,
                    models == shared::instances_view(c@),
                    instance@.children == Some(models),
                    movable(instance@),
                    want == retargeted(instance@, destination@).children->0,
                    out@.len() == i,
                    forall|k: int| 0 <= k < i ==> (#[trigger] out@[k])@ == want[k],
                decreases c@.len() - i,
            {
                assert(models[i as int] == c@[i as int]@);
                out.push(reset_child(&c[i], destination, i as u16 + 1));
                i = i + 1;
            }
            assert(shared::instances_view(out@) =~= want);
            r.children = Some(out);
        },
        None => {},
    }
    r
}

/// Carries the images of states from one directory to another.
fn carry_states(states: &Vec<ActionState>, old_dir: &str, new_dir: &str) -> (r: Vec<ActionState>)
    ensures
        shared::states_view(r@) == carried_states(shared::states_view(states@), old_dir@, new_dir@),
{
    let mut out: Vec<ActionState> = Vec::new();
    let mut i: usize = 0;
    while i < states.len()
        invariant
            i <= states@.len(),
            out@.len() == i,
            forall|k: int|
                0 <= k < i ==> (#[trigger] out@[k])@ == (StateView {
                    image: carried_image(states@[k].image@, old_dir@, new_dir@),
                    ..states@[k]@
                }),
        decreases states@.len() - i,
    {
        let mut st = states[i].copy();
        match relative_to(&states[i].image, old_dir) {
            Some(rel) => {
                st.image = join(new_dir, &rel);
            },
            None => {},
        }
        out.push(st);
        i = i + 1;
    }
    assert(shared::states_view(out@) =~= carried_states(
        shared::states_view(states@),
        old_dir@,
        new_dir@,
    ));
    out
}

/// An instance moved to another slot, with its own images.
pub fn relocate_instance(instance: &ActionInstance, destination: &Context, config_dir: &str) -> (r:
    ActionInstance)
    requires
        movable(instance@),
    ensures
        r@ == moved_instance(instance@, destination@, config_dir@),
{
    broadcast use shared::lemma_instance_view;

    let mut r = retarget(instance, destination);
    let old_dir = instance_images_dir(config_dir, &instance.context);
    let new_dir = instance_images_dir(config_dir, &r.context);
    let states = carry_states(&r.states, &old_dir, &new_dir);
    r.states = states;
    r
}

/// An instance can move from one slot to another: the slots belong to the same
/// controller, the first holds an instance and the second none.
pub open spec fn can_move(
    from: Option<InstanceView>,
    to: Option<InstanceView>,
    source: ContextView,
    destination: ContextView,
) -> bool {
    source.controller == destination.controller && to is None && from is Some
}

/// Moves the instance of one slot to another, or copies it where `retain` is
/// set. Returns the instance in its new place.
pub fn move_instance(
    from: &mut Option<ActionInstance>,
    to: &mut Option<ActionInstance>,
    source: &Context,
    destination: &Context,
    retain: bool,
    config_dir: &str,
) -> (r: Option<ActionInstance>)
    requires
        can_move(
            shared::slot_view(*old(from)),
            shared::slot_view(*old(to)),
            source@,
            destination@,
        ) ==> movable(shared::slot_view(*old(from))->0),
    ensures
        ({
            let a = shared::slot_view(*old(from));
            let b = shared::slot_view(*old(to));
            if can_move(a, b, source@, destination@) {
                let new = moved_instance(a->0, destination@, config_dir@);
                &&& shared::slot_view(r) == Some(new)
                &&& shared::slot_view(*final(to)) == Some(new)
                &&& shared::slot_view(*final(from)) == if retain {
                    a
                } else {
                    None
                }
            } else {
                &&& r is None
                &&& shared::slot_view(*final(from)) == a
                &&& shared::slot_view(*final(to)) == b
            }
        }),
{
    if !same_text(&source.controller, &destination.controller) || to.is_some() {
        return None;
    }
    match from {
        Some(instance) => {
            let new = relocate_instance(instance, destination, config_dir);
            *to = Some(new.copy());
            if !retain {
                *from = None;
            }
            Some(new)
        },
        None => None,
    }
}

/// What became of a swap.
#[derive(Clone, Copy, PartialEq, Eq, Structural, Debug)]
pub enum Swap {
    /// Nothing changed.
    Unchanged,
    /// One instance moved to the slot that was empty.
    Moved,
    /// Both instances changed places.
    Swapped,
}

/// The two slots are not of the same device, profile and page.
#[derive(Clone, Copy, PartialEq, Eq, Structural, Debug)]
pub struct DifferentPages;

/// Both contexts are on the same page.
pub open spec fn on_same_page(a: ContextView, b: ContextView) -> bool {
    a.device == b.device && a.profile == b.profile && a.page == b.page
}

/// The slots are two of one page and one controller.
pub open spec fn swaps(a: ContextView, b: ContextView) -> bool {
    a != b && a.controller == b.controller && on_same_page(a, b)
}

/// The slot `b` takes the instance of the slot `a`.
pub open spec fn taken_over(
    a: Option<InstanceView>,
    b: ContextView,
    config_dir: Seq<char>,
) -> Option<InstanceView> {
    match a {
        Some(i) => Some(moved_instance(i, b, config_dir)),
        None => None,
    }
}

/// Swaps the instances of two slots of one page and one controller.
pub fn swap_instances(
    first: &mut Option<ActionInstance>,
    second: &mut Option<ActionInstance>,
    a: &Context,
    b: &Context,
    config_dir: &str,
) -> (r: Result<Swap, DifferentPages>)
    requires
        swaps(a@, b@) ==> (shared::slot_view(*old(first)) matches Some(i) ==> movable(i)),
        swaps(a@, b@) ==> (shared::slot_view(*old(second)) matches Some(i) ==> movable(i)),
    ensures
        ({
            let x = shared::slot_view(*old(first));
            let y = shared::slot_view(*old(second));
            let stays = a@ == b@ || a.controller@ != b.controller@;
            if stays || !on_same_page(a@, b@) || (x is None && y is None) {
                &&& shared::slot_view(*final(first)) == x
                &&& shared::slot_view(*final(second)) == y
                &&& match r {
                    Ok(s) => s == Swap::Unchanged && (stays || on_same_page(a@, b@)),
                    Err(_) => !stays && !on_same_page(a@, b@),
                }
            } else {
                &&& shared::slot_view(*final(first)) == taken_over(y, a@, config_dir@)
                &&& shared::slot_view(*final(second)) == taken_over(x, b@, config_dir@)
                &&& r == Ok::<_, DifferentPages>(
                    if x is Some && y is Some {
                        Swap::Swapped
                    } else {
                        Swap::Moved
                    },
                )
            }
        }),
{
    if a.same(b) || !same_text(&a.controller, &b.controller) {
        return Ok(Swap::Unchanged);
    }
    if !same_text(&a.device, &b.device) || !same_text(&a.profile, &b.profile) || !same_text(
        &a.page,
        &b.page,
    ) {
        return Err(DifferentPages);
    }
    let to_second = match &*first {
        Some(i) => Some(relocate_instance(i, b, config_dir)),
        None => None,
    };
    let to_first = match &*second {
        Some(i) => Some(relocate_instance(i, a, config_dir)),
        None => None,
    };
    let outcome = if to_first.is_none() && to_second.is_none() {
        Swap::Unchanged
    } else if to_first.is_some() && to_second.is_some() {
        Swap::Swapped
    } else {
        Swap::Moved
    };
    *first = to_first;
    *second = to_second;
    Ok(outcome)
}

/// An instance without children whose images lie outside its own directories
/// comes back unchanged from a move to another slot and back.
pub proof fn law_move_back(
    i: InstanceView,
    home: ContextView,
    away: ContextView,
    config_dir: Seq<char>,
)
    requires
        i.children is None,
        i.context == shared::at_index(home, 0),
        forall|k: int|
            0 <= k < i.states.len() ==> path::relative_path(
                (#[trigger] i.states[k]).image,
                instance_images(config_dir, i.context),
            ) is None && path::relative_path(
                i.states[k].image,
                instance_images(config_dir, shared::at_index(away, 0)),
            ) is None,
    ensures
        moved_instance(moved_instance(i, away, config_dir), home, config_dir) == i,
{
    let there = moved_instance(i, away, config_dir);
    assert(there.states =~= i.states);
    let back = moved_instance(there, home, config_dir);
    assert(back.states =~= i.states);
}

proof fn lemma_dir_name(c: ActionContextView)
    requires
        !c.controller.contains('/'),
    ensures
        path::is_plain(instance_dir_name(c)),
        text::split_on(instance_dir_name(c), '/') == seq![instance_dir_name(c)],
        instance_dir_name(c).len() > 0,
        instance_dir_name(c)[0] != '/',
        instance_dir_name(c).last() != '/',
{
    let name = instance_dir_name(c);
    let n = c.controller.len() as int;
    let d = text::decimal(c.position as nat);
    let e = text::decimal(c.index as nat);
    text::lemma_decimal(c.position as nat);
    text::lemma_decimal(c.index as nat);
    assert(name.len() == n + d.len() + e.len() + 2);
    assert forall|j: int| 0 <= j < name.len() implies #[trigger] name[j] != '/' by {
        if j < n {
            assert(name[j] == c.controller[j]);
        } else if j == n {
        } else if j < n + 1 + d.len() {
            assert(name[j] == d[j - n - 1]);
            assert(text::is_digit(d[j - n - 1]));
        } else if j == n + 1 + d.len() {
        } else {
            assert(name[j] == e[j - n - 2 - d.len()]);
            assert(text::is_digit(e[j - n - 2 - d.len()]));
        }
    }
    text::lemma_split_on_none(name, '/');
}

proof fn lemma_dir_names_differ(a: ActionContextView, b: ActionContextView)
    requires
        a.controller == b.controller,
        a.index == b.index,
        a.position != b.position,
    ensures
        instance_dir_name(a) != instance_dir_name(b),
{
    let x = instance_dir_name(a);
    let y = instance_dir_name(b);
    let d = text::decimal(a.position as nat);
    let e = text::decimal(b.position as nat);
    let tail = text::decimal(a.index as nat);
    text::lemma_decimal(a.position as nat);
    text::lemma_decimal(b.position as nat);
    if x == y {
        let n = a.controller.len() as int;
        assert(x.len() == n + d.len() + tail.len() + 2);
        assert(y.len() == n + e.len() + tail.len() + 2);
        assert(x.subrange(n + 1, n + 1 + d.len()) =~= d);
        assert(y.subrange(n + 1, n + 1 + e.len()) =~= e);
        assert(d == e);
    }
}

proof fn lemma_images_dir(config_dir: Seq<char>, c: ActionContextView)
    requires
        !c.controller.contains('/'),
    ensures
        ({
            let dir = instance_images(config_dir, c);
            &&& dir.len() > 0
            &&& dir.last() != '/'
            &&& path::path_components(dir) == path::path_components(
                relocate::page_images(config_dir, c.device, c.profile, c.page),
            ).push(instance_dir_name(c))
        }),
{
    let page = relocate::page_images(config_dir, c.device, c.profile, c.page);
    let name = instance_dir_name(c);
    lemma_dir_name(c);
    path::law_joined_components(page, name);
    assert(path::path_components(page) + seq![name] =~= path::path_components(page).push(name));
    assert(instance_images(config_dir, c).last() == name.last());
}

/// A move carries the image files of the instance along: an image that was the
/// file `name` in the directory of the slot that the instance left is the file
/// `name` in the directory of the slot that it came to, and the rest of the state
/// is what it was.
pub proof fn law_move_carries_own_files(
    i: InstanceView,
    destination: ContextView,
    config_dir: Seq<char>,
    k: int,
    name: Seq<char>,
)
    requires
        !i.context.controller.contains('/'),
        !destination.controller.contains('/'),
        0 <= k < i.states.len(),
        path::is_plain(name),
        i.states[k].image == instance_images(config_dir, i.context) + seq!['/'] + name,
    ensures
        moved_instance(i, destination, config_dir).states[k] == (StateView {
            image: instance_images(config_dir, shared::at_index(destination, 0)) + seq!['/'] + name,
            ..i.states[k]
        }),
{
    lemma_images_dir(config_dir, i.context);
    lemma_images_dir(config_dir, shared::at_index(destination, 0));
    path::law_joined_path_is_relative(instance_images(config_dir, i.context), name);
    path::law_joined_path_is_relative(
        instance_images(config_dir, shared::at_index(destination, 0)),
        name,
    );
}

/// A move leaves alone every state whose image is no file of the slot that the
/// instance left.
pub proof fn law_move_leaves_other_images(
    i: InstanceView,
    destination: ContextView,
    config_dir: Seq<char>,
    k: int,
)
    requires
        0 <= k < i.states.len(),
        !path::path_components(instance_images(config_dir, i.context)).is_prefix_of(
            path::path_components(i.states[k].image),
        ),
    ensures
        moved_instance(i, destination, config_dir).states[k] == i.states[k],
{
}

/// After a move or a swap between two slots of a page, no state of the instance has
/// an image in the directory of the slot that it left.
pub proof fn law_moved_images_leave_the_slot(
    i: InstanceView,
    destination: ContextView,
    config_dir: Seq<char>,
)
    requires
        !destination.controller.contains('/'),
        i.context.index == 0,
        on_same_page(shared::slot_of(i.context), destination),
        i.context.controller == destination.controller,
        i.context.position != destination.position,
    ensures
        taken_over(Some(i), destination, config_dir) == Some(
            moved_instance(i, destination, config_dir),
        ),
        moved_instance(i, destination, config_dir).states.len() == i.states.len(),
        forall|k: int|
            0 <= k < i.states.len() ==> !path::path_components(
                instance_images(config_dir, i.context),
            ).is_prefix_of(
                path::path_components(
                    (#[trigger] moved_instance(i, destination, config_dir).states[k]).image,
                ),
            ),
{
    let there = shared::at_index(destination, 0);
    let old = instance_images(config_dir, i.context);
    let new = instance_images(config_dir, there);
    lemma_images_dir(config_dir, i.context);
    lemma_images_dir(config_dir, there);
    lemma_dir_names_differ(i.context, there);
    let a = path::path_components(old);
    let b = path::path_components(new);
    let page = path::path_components(
        relocate::page_images(
            config_dir,
            destination.device,
            destination.profile,
            destination.page,
        ),
    );
    assert(a == page.push(instance_dir_name(i.context)));
    assert(b == page.push(instance_dir_name(there)));
    assert(a[page.len() as int] != b[page.len() as int]);
    let m = moved_instance(i, destination, config_dir);
    assert forall|k: int| 0 <= k < i.states.len() implies !a.is_prefix_of(
        path::path_components((#[trigger] m.states[k]).image),
    ) by {
        let image = i.states[k].image;
        assert(m.states[k].image == carried_image(image, old, new));
        if let Some(rel) = path::relative_path(image, old) {
            path::lemma_rest_is_relative(image, old);
            path::lemma_begins_what_is_below(new, rel);
            let c = path::path_components(m.states[k].image);
            assert(b.is_prefix_of(c));
            if a.is_prefix_of(c) {
                assert(c[page.len() as int] == c.subrange(0, a.len() as int)[page.len() as int]);
                assert(c[page.len() as int] == c.subrange(0, b.len() as int)[page.len() as int]);
            }
        }
    }
}

/// A moved child shows the image that its action has for the state, or the icon of
/// the action where that is empty, and keeps the rest of its states.
pub proof fn law_moved_children_show_their_action(
    i: InstanceView,
    destination: ContextView,
    config_dir: Seq<char>,
    j: int,
    k: int,
)
    requires
        movable(i),
        i.children is Some,
        0 <= j < i.children->0.len(),
        0 <= k < i.children->0[j].states.len(),
    ensures
        ({
            let before = i.children->0[j];
            let after = moved_instance(i, destination, config_dir).children->0[j];
            &&& after.states.len() == before.states.len()
            &&& after.current_state == before.current_state
            &&& before.action.states[k].image.len() > 0 ==> after.states[k].image
                == before.action.states[k].image
            &&& before.action.states[k].image.len() == 0 ==> after.states[k].image
                == before.action.icon
            &&& after.states[k].text == before.states[k].text
            &&& after.states[k] == (StateView { image: after.states[k].image, ..before.states[k] })
        }),
{
}

/// Moving keeps the action, settings and current state of an instance and the
/// actions and settings of its children, and numbers the children from 1.
pub proof fn law_move_keeps(i: InstanceView, destination: ContextView, config_dir: Seq<char>)
    requires
        movable(i),
    ensures
        ({
            let m = moved_instance(i, destination, config_dir);
            &&& m.action == i.action
            &&& m.settings == i.settings
            &&& m.current_state == i.current_state
            &&& m.states.len() == i.states.len()
            &&& shared::slot_of(m.context) == destination
            &&& m.children is Some <==> i.children is Some
            &&& m.children matches Some(c) ==> c.len() == i.children->0.len() && forall|k: int|
                0 <= k < c.len() ==> (#[trigger] c[k]).action == i.children->0[k].action
                    && c[k].settings == i.children->0[k].settings && c[k].context.index == k + 1
                    && shared::slot_of(c[k].context) == destination
        }),
{
}

/// An action becomes an instance only for a controller that it has. In a slot that
/// is taken it becomes one only where it may stand in a multi action and the slot
/// holds a container, and a container never stands in another.
pub proof fn law_created_where_allowed(
    slot: Option<InstanceView>,
    action: ActionView,
    context: ContextView,
)
    ensures
        created(slot, action, context) is Some ==> action.controllers.contains(
            context.controller,
        ),
        slot is None && action.controllers.contains(context.controller) ==> created(
            slot,
            action,
            context,
        ) is Some,
        slot matches Some(p) ==> created(slot, action, context) is Some ==> p.children is Some
            && action.supported_in_multi_actions && !shared::holds_children(
            created(slot, action, context)->0.action.uuid,
        ),
        slot matches Some(p) ==> p.children is Some && action.supported_in_multi_actions
            && action.controllers.contains(context.controller) && !shared::holds_children(
            normalized_action(action).uuid,
        ) ==> created(slot, action, context) is Some,
        created(slot, action, context) is None ==> slot_with_created(slot, action, context)
            == slot,
{
}

/// A new instance is fresh: it is in its first state, has no settings, and has the
/// states of its action with their images, each titled by itself or, where its own
/// title is blank, by the name of the action.
pub proof fn law_created_is_fresh(
    slot: Option<InstanceView>,
    action: ActionView,
    context: ContextView,
    k: int,
)
    requires
        created(slot, action, context) is Some,
    ensures
        ({
            let n = created(slot, action, context)->0;
            &&& n.current_state == 0
            &&& n.settings == JsonView::Object(Seq::empty())
            &&& n.action.name == action.name
            &&& n.action.icon == action.icon
            &&& n.action.states == action.states
            &&& n.action.property_inspector == action.property_inspector
            &&& n.states.len() == action.states.len()
            &&& slot is None ==> n.context.index == 0 && (n.children is Some
                <==> shared::holds_children(n.action.uuid)) && (n.children matches Some(c)
                ==> c.len() == 0)
            &&& slot is Some ==> n.children is None
            &&& 0 <= k < action.states.len() ==> {
                &&& n.states[k].image == action.states[k].image
                &&& text::trimmed(action.states[k].text).len() > 0 ==> n.states[k]
                    == action.states[k]
                &&& text::trimmed(action.states[k].text).len() == 0 ==> n.states[k].text
                    == action.name && n.states[k].show == action.states[k].show
                    && n.states[k].colour == action.states[k].colour && n.states[k].size
                    == action.states[k].size
            }
        }),
{
}

/// A child is added behind its siblings, which stay as they were, with an index
/// above that of the last; its parent keeps its action and settings.
pub proof fn law_created_child_joins_siblings(
    parent: InstanceView,
    action: ActionView,
    context: ContextView,
)
    requires
        created(Some(parent), action, context) is Some,
        parent.children->0.len() > 0 ==> parent.children->0.last().context.index < 65535,
    ensures
        ({
            let c = parent.children->0;
            let n = created(Some(parent), action, context)->0;
            let after = slot_with_created(Some(parent), action, context);
            &&& after matches Some(p) && p.action == parent.action && p.settings
                == parent.settings && p.context == parent.context && p.children is Some
            &&& after->0.children->0.len() == c.len() + 1
            &&& after->0.children->0.last() == n
            &&& after->0.children->0.drop_last() == c
            &&& c.len() > 0 ==> n.context.index == c.last().context.index + 1
            &&& c.len() == 0 ==> n.context.index == 1
        }),
{
    let c = parent.children->0;
    let n = created(Some(parent), action, context)->0;
    assert(c.push(n).drop_last() =~= c);
}

/// A change of a label reaches every state, sets what it names there, and leaves
/// the rest of the instance alone: setting the old value again undoes it.
pub proof fn law_label_change_is_one_thing(i: InstanceView, change: LabelChange, k: int)
    requires
        0 <= k < i.states.len(),
    ensures
        ({
            let r = relabelled_instance(i, change);
            let s = i.states[k];
            let t = r.states[k];
            &&& r.action == i.action && r.settings == i.settings && r.context == i.context
            &&& r.current_state == i.current_state && r.children == i.children
            &&& r.states.len() == i.states.len()
            &&& match change {
                LabelChange::Text(v) => t.text == v@ && s == (StateView { text: s.text, ..t }),
                LabelChange::Placement(v) => t.text_placement == v && s == (StateView {
                    text_placement: s.text_placement,
                    ..t
                }),
                LabelChange::Size(v) => t.size.0 == v && s == (StateView { size: s.size, ..t }),
                LabelChange::Colour(v) => t.colour == v@ && s == (StateView {
                    colour: s.colour,
                    ..t
                }),
                LabelChange::ShowTitle(v) => t.show == v && s == (StateView { show: s.show, ..t }),
                LabelChange::ShowActionName(v) => t.show_action_name == v && s == (StateView {
                    show_action_name: s.show_action_name,
                    ..t
                }),
                LabelChange::ShowIcon(v) => t.show_icon == v && s == (StateView {
                    show_icon: s.show_icon,
                    ..t
                }),
            }
        }),
{
}

/// A custom icon becomes the image of the state that is meant, or of the current
/// one, and of no other; clearing it gives that state the image that its action has
/// for it.
pub proof fn law_custom_icon_is_of_one_state(
    i: InstanceView,
    state: Option<u16>,
    image: Seq<char>,
    k: int,
)
    requires
        0 <= k < i.states.len(),
    ensures
        ({
            let meant = (state matches Some(s) && k == s as int) || (state is None && k
                == i.current_state as int);
            let r = with_icon(i, state, image);
            let d = with_default_icon(r, state);
            &&& r.states.len() == i.states.len() && d.states.len() == i.states.len()
            &&& r.action == i.action && r.settings == i.settings && r.current_state
                == i.current_state
            &&& meant ==> r.states[k].image == image && r.states[k].text == i.states[k].text
            &&& !meant ==> r.states[k] == i.states[k] && d.states[k] == i.states[k]
            &&& meant && k < i.action.states.len() ==> d.states[k].image
                == i.action.states[k].image && d.states[k].text == i.states[k].text
        }),
{
}

/// A custom icon is copied into the directory of its instance, under a name that
/// its kind alone decides.
pub proof fn law_custom_icon_file_is_of_instance(
    config_dir: Seq<char>,
    c: ActionContextView,
    source: Seq<char>,
)
    requires
        !c.controller.contains('/'),
        icon_destination(config_dir, c, source) is Some,
    ensures
        ({
            let ext = relocate::image_extension(text::trimmed(source));
            &&& icon_destination(config_dir, c, source) == Some(
                instance_images(config_dir, c) + seq!['/'] + "custom_icon."@ + ext,
            )
            &&& ext == "png"@ || ext == "jpg"@ || ext == "jpeg"@ || ext == "webp"@
        }),
{
    reveal_strlit("custom_icon.");
    let ext = relocate::image_extension(text::trimmed(source));
    let dir = instance_images(config_dir, c);
    let name = "custom_icon."@ + ext;
    lemma_images_dir(config_dir, c);
    assert(name[0] == 'c');
    assert(dir + seq!['/'] + name =~= dir + seq!['/'] + "custom_icon."@ + ext);
}

/// Each state of a synced toggle action shows its child: the image of the child's
/// current state, or the icon of the child's action where that image is blank or
/// the default. The texts of the states, the children and the settings stay.
pub proof fn law_synced_shows_children(i: InstanceView, k: int)
    requires
        i.children is Some,
        0 <= k < i.children->0.len(),
    ensures
        synced(i).children == i.children,
        synced(i).settings == i.settings,
        synced(i).action == i.action,
        synced(i).context == i.context,
        !shared::is_toggle(i.action.uuid) ==> synced(i) == i,
        shared::is_toggle(i.action.uuid) ==> ({
            let child = i.children->0[k];
            let now = synced(i).states[k];
            &&& (child.current_state as int) < child.states.len() ==> {
                let own = text::trimmed(child.states[child.current_state as int].image);
                &&& own.len() > 0 && own != "actionDefaultImage"@ ==> now.image == own
                &&& own.len() == 0 || own == "actionDefaultImage"@ ==> now.image
                    == child.action.icon
            }
            &&& child.states.len() == 0 ==> now.image == child.action.icon
            &&& k < i.states.len() ==> now == (StateView { image: now.image, ..i.states[k] })
            &&& (i.current_state as int) < i.children->0.len() ==> synced(i).current_state
                == i.current_state
        }),
{
}

/// A child that is moved among its siblings comes to its new place, and the others
/// keep their order.
pub proof fn law_reordered_child_is_in_place<T>(s: Seq<T>, from: int, to: int)
    requires
        0 <= from < s.len(),
        0 <= to < s.len(),
    ensures
        moved_item(s, from, to).len() == s.len(),
        moved_item(s, from, to)[to] == s[from],
        moved_item(s, from, to).remove(to) == s.remove(from),
{
    assert(moved_item(s, from, to).remove(to) =~= s.remove(from));
}

// ---------------------------------------------------------------------------
// Removing
// ---------------------------------------------------------------------------

/// A container without its child number `k`. A toggle action is synced.
pub open spec fn without_child(i: InstanceView, k: int) -> InstanceView {
    let c = i.children->0;
    let now = if 0 <= k < c.len() {
        c.remove(k)
    } else {
        c
    };
    let r = InstanceView { children: Some(now), ..i };
    if shared::is_toggle(i.action.uuid) {
        synced(
            InstanceView {
                current_state: if (i.current_state as int) >= now.len() {
                    if now.len() == 0 {
                        0
                    } else {
                        (now.len() - 1) as u16
                    }
                } else {
                    i.current_state
                },
                states: if now.len() > 0 && i.states.len() > 0 {
                    i.states.drop_last()
                } else {
                    i.states
                },
                ..r
            },
        )
    } else {
        r
    }
}

/// The slot after the instance at `context` was removed from it.
pub open spec fn slot_without(
    slot: Option<InstanceView>,
    context: ActionContextView,
) -> Option<InstanceView> {
    match slot {
        None => None,
        Some(i) => if i.context == context {
            None
        } else {
            Some(without_child(i, profiles::child_index(i.children->0, context)))
        },
    }
}

/// The instances that are gone when the one at `context` is removed: that one,
/// and its children.
pub open spec fn removed_instances(
    slot: Option<InstanceView>,
    context: ActionContextView,
) -> Seq<InstanceView> {
    match slot {
        None => Seq::empty(),
        Some(i) => if i.context == context {
            seq![i] + match i.children {
                Some(c) => c,
                None => Seq::empty(),
            }
        } else {
            let c = i.children->0;
            let k = profiles::child_index(c, context);
            if 0 <= k < c.len() {
                seq![c[k]]
            } else {
                Seq::empty()
            }
        },
    }
}

/// Removes the instance at `context` from its slot. Returns the instances that
/// are gone.
pub fn remove_instance(slot: &mut Option<ActionInstance>, context: &ActionContext) -> (r: Vec<
    ActionInstance,
>)
    requires
        shared::slot_view(*old(slot)) matches Some(i) ==> i.context == context@ || i.children
            is Some,
    ensures
        shared::slot_view(*final(slot)) == slot_without(
            shared::slot_view(*old(slot)),
            context@,
        ),
        shared::instances_view(r@) == removed_instances(
            shared::slot_view(*old(slot)),
            context@,
        ),
{
    broadcast use shared::lemma_instance_view;

    let ghost model = shared::slot_view(*slot);
    let mut gone: Vec<ActionInstance> = Vec::new();
    assert(shared::instances_view(gone@) =~= Seq::empty());
    match slot {
        None => {},
        Some(instance) => {
            if instance.context.same(context) {
                let copy = instance.copy();
                gone.push(copy);
                match &instance.children {
                    Some(c) => {
                        let mut i: usize = 0;
                        let ghost models = shared::instances_view(c@);
                        assert(shared::instances_view(gone@) =~= seq![copy@] + models.take(0));
                        while i < c.len()
                            invariant
                                i <= c@.len(),
                                models == shared::instances_view(c@),
                                shared::instances_view(gone@) == seq![copy@] + models.take(
                                    i as int,
                                ),
                            decreases c@.len() - i,
                        {
                            let child = c[i].copy();
                            let ghost before = gone@;
                            gone.push(child);
                            i = i + 1;
                            assert(shared::instances_view(gone@) =~= shared::instances_view(
                                before,
                            ).push(child@));
                            assert((seq![copy@] + models.take(i - 1)).push(child@) =~= seq![copy@]
                                + models.take(i as int));
                        }
                        assert(models.take(i as int) =~= models);
                    },
                    None => {
                        assert(shared::instances_view(gone@) =~= seq![copy@] + Seq::empty());
                    },
                }
                *slot = None;
            } else {
                let toggle = is_toggle_action_uuid(&instance.action.uuid);
                match &mut instance.children {
                    Some(children) => {
                        let ghost models = shared::instances_view(children@);
                        let k = find_child(children, context);
                        if k < children.len() {
                            let child = children.remove(k);
                            assert(child@ == models[k as int]);
                            gone.push(child);
                            assert(shared::instances_view(gone@) =~= seq![models[k as int]]);
                            assert(shared::instances_view(children@) =~= models.remove(k as int));
                        }
                        if toggle {
                            let n: usize = children.len();
                            if instance.current_state as usize >= n {
                                instance.current_state = if n == 0 {
                                    0
                                } else {
                                    (n - 1) as u16
                                };
                            }
                            if n > 0 && instance.states.len() > 0 {
                                let ghost before = shared::states_view(instance.states@);
                                let _ = instance.states.pop();
                                assert(shared::states_view(instance.states@)
                                    =~= before.drop_last());
                            }
                        }
                    },
                    None => {},
                }
                if toggle {
                    sync_toggle_state_images_from_children(instance);
                }
            }
        },
    }
    gone
}

/// An instance that was removed is no longer found, where its context was that
/// of no other in the slot.
pub proof fn law_removed_is_gone(slot: Option<InstanceView>, context: ActionContextView)
    requires
        slot matches Some(i) ==> i.context == context || (i.children is Some && forall|a: int, b: int|
            0 <= a < b < i.children->0.len() ==> (#[trigger] i.children->0[a]).context != (
            #[trigger] i.children->0[b]).context),
    ensures
        profiles::instance_in(slot_without(slot, context), context) is None,
{
    match slot {
        None => {},
        Some(i) => {
            if i.context != context {
                let c = i.children->0;
                profiles::lemma_child_index(c, context);
                let k = profiles::child_index(c, context);
                let r = slot_without(slot, context)->0;
                let now = r.children->0;
                assert forall|j: int| 0 <= j < now.len() implies (#[trigger] now[j]).context
                    != context by {
                    if k < c.len() {
                        let z = if j < k {
                            j
                        } else {
                            j + 1
                        };
                        assert(now[j] == c[z]);
                        if z < k {
                            assert(c[z].context != c[k].context);
                        } else {
                            assert(c[k].context != c[z].context);
                        }
                    } else {
                        assert(now[j] == c[j]);
                    }
                }
                profiles::lemma_child_index_is(now, context, now.len() as int);
            }
        },
    }
}

/// Removing the instance of a slot empties the slot, and that instance and its
/// children are gone.
pub proof fn law_removed_with_children(i: InstanceView)
    ensures
        slot_without(Some(i), i.context) is None,
        removed_instances(Some(i), i.context)[0] == i,
        i.children is None ==> removed_instances(Some(i), i.context).len() == 1,
        i.children matches Some(c) ==> removed_instances(Some(i), i.context).len() == c.len() + 1
            && forall|k: int|
            0 <= k < c.len() ==> removed_instances(Some(i), i.context)[k + 1] == #[trigger] c[k],
{
}

/// Removing a child takes that child alone: its siblings stay, in their order, and
/// so do the action, the settings and the place of their parent.
pub proof fn law_removed_child_alone(i: InstanceView, context: ActionContextView, k: int)
    requires
        i.context != context,
        i.children is Some,
        0 <= k <= i.children->0.len(),
        forall|j: int| 0 <= j < k ==> (#[trigger] i.children->0[j]).context != context,
        k < i.children->0.len() ==> i.children->0[k].context == context,
    ensures
        ({
            let c = i.children->0;
            let after = slot_without(Some(i), context);
            &&& after matches Some(p) && p.action == i.action && p.settings == i.settings
                && p.context == i.context && p.children is Some
            &&& k < c.len() ==> removed_instances(Some(i), context) == seq![c[k]]
                && after->0.children->0 == c.remove(k)
            &&& k == c.len() ==> removed_instances(Some(i), context).len() == 0
                && after->0.children->0 == c
        }),
{
    profiles::lemma_child_index_is(i.children->0, context, k);
}

/// A custom icon is refused where its source is no file or of no known kind; for an
/// instance that is not there nothing is copied.
pub proof fn law_custom_icon_outcomes(
    slot: Option<InstanceView>,
    c: ActionContextView,
    source: Seq<char>,
    config_dir: Seq<char>,
)
    ensures
        custom_icon_outcome(slot, c, source, false, config_dir) == Err::<
            Option<Seq<char>>,
            CustomIconError,
        >(CustomIconError::NotFound),
        icon_destination(config_dir, c, source) is None ==> custom_icon_outcome(
            slot,
            c,
            source,
            true,
            config_dir,
        ) == Err::<Option<Seq<char>>, CustomIconError>(CustomIconError::Unsupported),
        icon_destination(config_dir, c, source) is Some && profiles::instance_in(slot, c) is Some
            ==> custom_icon_outcome(slot, c, source, true, config_dir) == Ok::<
            Option<Seq<char>>,
            CustomIconError,
        >(icon_destination(config_dir, c, source)),
        icon_destination(config_dir, c, source) is Some && profiles::instance_in(slot, c) is None
            ==> custom_icon_outcome(slot, c, source, true, config_dir) == Ok::<
            Option<Seq<char>>,
            CustomIconError,
        >(None),
{
}

/// An instance moves only from a slot that holds one to an empty one of the same
/// controller, and two slots swap only on one page and one controller.
pub proof fn law_where_instances_move(
    from: Option<InstanceView>,
    to: Option<InstanceView>,
    a: ContextView,
    b: ContextView,
)
    ensures
        can_move(from, to, a, b) <==> from is Some && to is None && a.controller == b.controller,
        swaps(a, b) <==> a.position != b.position && a.controller == b.controller && a.page
            == b.page && a.profile == b.profile && a.device == b.device,
{
}

} // verus!
