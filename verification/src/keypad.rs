//! Key presses: what is sent to plugins, and how the states of instances
//! change.
use vstd::prelude::*;
use crate::json::{Json, JsonView};
use crate::shared;
use crate::shared::{
    is_multi_action_uuid, is_toggle_action_uuid, ActionContext, ActionContextView, ActionInstance,
    InstanceView,
};
use crate::text::same_text;

verus! {

/// The place of an instance as plugins see it.
#[derive(Clone, Copy, PartialEq, Eq, Structural, Debug)]
pub struct Coordinates {
    pub row: u8,
    pub column: u8,
}

/// What plugins are told of an instance.
pub struct GenericInstancePayload {
    pub settings: Json,
    pub coordinates: Coordinates,
    pub controller: String,
    pub state: u16,
    pub is_in_multi_action: bool,
}

/// The model of a `GenericInstancePayload`.
pub struct PayloadView {
    pub settings: JsonView,
    pub coordinates: Coordinates,
    pub controller: Seq<char>,
    pub state: u16,
    pub is_in_multi_action: bool,
}

impl View for GenericInstancePayload {
    type V = PayloadView;

    open spec fn view(&self) -> PayloadView {
        PayloadView {
            settings: self.settings@,
            coordinates: self.coordinates,
            controller: self.controller@,
            state: self.state,
            is_in_multi_action: self.is_in_multi_action,
        }
    }
}

/// The place of an instance on a device with so many columns: an encoder is in
/// row 0, a key where it is in the grid.
pub open spec fn coordinates_of(c: ActionContextView, columns: u8) -> Coordinates {
    if c.controller == "Encoder"@ {
        Coordinates { row: 0, column: c.position }
    } else {
        Coordinates {
            row: (c.position as int / columns as int) as u8,
            column: (c.position as int % columns as int) as u8,
        }
    }
}

/// What plugins are told of an instance.
pub open spec fn payload_of(i: InstanceView, columns: u8) -> PayloadView {
    PayloadView {
        settings: i.settings,
        coordinates: coordinates_of(i.context, columns),
        controller: i.context.controller,
        state: i.current_state,
        is_in_multi_action: i.context.index != 0,
    }
}

impl GenericInstancePayload {
    /// What plugins are told of an instance on a device with so many columns.
    pub fn new(instance: &ActionInstance, columns: u8) -> (r: GenericInstancePayload)
        requires
            instance@.context.controller == "Encoder"@ || columns > 0,
        ensures
            r@ == payload_of(instance@, columns),
            r.settings@ == instance@.settings,
            r.state == instance@.current_state,
    {
        broadcast use shared::lemma_instance_view;

        let coordinates = if same_text(&instance.context.controller, "Encoder") {
            Coordinates { row: 0, column: instance.context.position }
        } else {
            Coordinates {
                row: instance.context.position / columns,
                column: instance.context.position % columns,
            }
        };
        GenericInstancePayload {
            settings: instance.settings.copy(),
            coordinates,
            controller: instance.context.controller.clone(),
            state: instance.current_state,
            is_in_multi_action: instance.context.index != 0,
        }
    }
}

/// Two keys of a device have the same coordinates only if they are the same.
pub proof fn law_coordinates_distinct(a: u8, b: u8, columns: u8)
    requires
        columns > 0,
        a as int / columns as int == b as int / columns as int,
        a as int % columns as int == b as int % columns as int,
    ensures
        a == b,
{
    vstd::arithmetic::div_mod::lemma_fundamental_div_mod(a as int, columns as int);
    vstd::arithmetic::div_mod::lemma_fundamental_div_mod(b as int, columns as int);
}

/// An event of an instance, for its plugin.
pub struct KeyEvent {
    /// `keyDown`, `keyUp`, `willAppear` or `willDisappear`.
    pub event: &'static str,
    pub plugin: String,
    pub action: String,
    pub context: ActionContext,
    pub device: String,
    pub payload: GenericInstancePayload,
}

/// The model of a `KeyEvent`.
pub struct KeyEventView {
    pub event: Seq<char>,
    pub plugin: Seq<char>,
    pub action: Seq<char>,
    pub context: ActionContextView,
    pub device: Seq<char>,
    pub payload: PayloadView,
}

impl View for KeyEvent {
    type V = KeyEventView;

    open spec fn view(&self) -> KeyEventView {
        KeyEventView {
            event: self.event@,
            plugin: self.plugin@,
            action: self.action@,
            context: self.context@,
            device: self.device@,
            payload: self.payload@,
        }
    }
}

/// The event `name` of an instance.
pub open spec fn key_event(name: Seq<char>, i: InstanceView, columns: u8) -> KeyEventView {
    KeyEventView {
        event: name,
        plugin: i.action.plugin,
        action: i.action.uuid,
        context: i.context,
        device: i.context.device,
        payload: payload_of(i, columns),
    }
}

fn make_event(event: &'static str, instance: &ActionInstance, columns: u8) -> (r: KeyEvent)
    requires
        instance@.context.controller == "Encoder"@ || columns > 0,
    ensures
        r@ == key_event(event@, instance@, columns),
{
    broadcast use shared::lemma_instance_view;

    KeyEvent {
        event,
        plugin: instance.action.plugin.clone(),
        action: instance.action.uuid.clone(),
        context: instance.context.copy(),
        device: instance.context.device.clone(),
        payload: GenericInstancePayload::new(instance, columns),
    }
}

/// The models of events.
pub open spec fn events_view(s: Seq<KeyEvent>) -> Seq<KeyEventView> {
    s.map_values(|e: KeyEvent| e@)
}

/// An instance after its key was released: one with two states, whose plugin
/// leaves this to the host, goes to the other state.
pub open spec fn advanced(i: InstanceView) -> InstanceView {
    if i.states.len() == 2 && !i.action.disable_automatic_states {
        InstanceView { current_state: ((i.current_state + 1) % 2) as u16, ..i }
    } else {
        i
    }
}

/// The instance can go to its next state: one that will is not at the end of
/// the range of its state.
pub open spec fn can_advance(i: InstanceView) -> bool {
    i.states.len() == 2 && !i.action.disable_automatic_states ==> i.current_state < 65535
}

fn advance(instance: &mut ActionInstance)
    requires
        can_advance(old(instance)@),
    ensures
        final(instance)@ == advanced(old(instance)@),
{
    broadcast use shared::lemma_instance_view;

    if instance.states.len() == 2 && !instance.action.disable_automatic_states {
        instance.current_state = (instance.current_state + 1) % 2;
    }
}

/// The events of the first `n` children of a multi action whose key is pressed:
/// each is pressed, goes to its next state and is released.
pub open spec fn multi_events(c: Seq<InstanceView>, columns: u8, n: nat) -> Seq<KeyEventView>
    decreases n,
{
    if n == 0 || n > c.len() {
        Seq::empty()
    } else {
        multi_events(c, columns, (n - 1) as nat) + seq![
            key_event("keyDown"@, c[n - 1], columns),
            key_event("keyUp"@, advanced(c[n - 1]), columns),
        ]
    }
}

/// The current child of a toggle action with children exists.
pub open spec fn toggles(i: InstanceView) -> bool {
    i.children is Some && (i.children->0.len() == 0 || (i.current_state as int)
        < i.children->0.len())
}

/// The key of the instance can be pressed: a multi or toggle action has its
/// children.
pub open spec fn can_press(i: InstanceView) -> bool {
    if shared::is_multi(i.action.uuid) {
        i.children is Some && forall|k: int|
            0 <= k < i.children->0.len() ==> can_advance(#[trigger] i.children->0[k])
    } else {
        shared::is_toggle(i.action.uuid) ==> toggles(i)
    }
}

/// The key of the instance can be released.
pub open spec fn can_release(i: InstanceView) -> bool {
    if shared::is_toggle(i.action.uuid) {
        toggles(i)
    } else {
        !shared::is_multi(i.action.uuid) ==> can_advance(i)
    }
}

/// What is sent when a key is pressed. A pause of 100 milliseconds follows each
/// event of a multi action.
pub open spec fn down_events(i: InstanceView, columns: u8) -> Seq<KeyEventView> {
    if shared::is_multi(i.action.uuid) {
        multi_events(i.children->0, columns, i.children->0.len())
    } else if shared::is_toggle(i.action.uuid) {
        if i.children->0.len() == 0 {
            Seq::empty()
        } else {
            seq![key_event("keyDown"@, i.children->0[i.current_state as int], columns)]
        }
    } else {
        seq![key_event("keyDown"@, i, columns)]
    }
}

/// The instance after its key was pressed: the children of a multi action have
/// gone to their next states.
pub open spec fn after_down(i: InstanceView) -> InstanceView {
    if shared::is_multi(i.action.uuid) {
        InstanceView {
            children: Some(
                (i.children->0).map_values(|c: InstanceView| advanced(c)),
            ),
            ..i
        }
    } else {
        i
    }
}

/// A key is pressed: what is sent.
pub fn key_down(instance: &mut ActionInstance, columns: u8) -> (r: Vec<KeyEvent>)
    requires
        columns > 0,
        can_press(old(instance)@),
    ensures
        events_view(r@) == down_events(old(instance)@, columns),
        final(instance)@ == after_down(old(instance)@),
{
    broadcast use {shared::lemma_instance_view, shared::lemma_instances_update};

    let mut out: Vec<KeyEvent> = Vec::new();
    assert(events_view(out@) =~= Seq::<KeyEventView>::empty());
    let ghost before = instance@;
    if is_multi_action_uuid(&instance.action.uuid) {
        match &mut instance.children {
            Some(children) => {
                let ghost models = shared::instances_view(children@);
                assert(before.children == Some(models));
                let mut i: usize = 0;
                while i < children.len()
                    invariant
                        columns > 0,
                        i <= children@.len(),
                        children@.len() == models.len(),
                        forall|k: int|
                            0 <= k < models.len() ==> can_advance(#[trigger] models[k]),
                        forall|k: int|
                            0 <= k < i ==> (#[trigger] children@[k])@ == advanced(models[k]),
                        forall|k: int|
                            i <= k < models.len() ==> (#[trigger] children@[k])@ == models[k],
                        events_view(out@) == multi_events(models, columns, i as nat),
                    decreases children@.len() - i,
                {
                    assert(children@[i as int]@ == models[i as int]);
                    let down = make_event("keyDown", &children[i], columns);
                    let mut child = children[i].copy();
                    advance(&mut child);
                    let up = make_event("keyUp", &child, columns);
                    children.set(i, child);
                    let ghost sent = out@;
                    out.push(down);
                    out.push(up);
                    assert(events_view(out@) =~= events_view(sent) + seq![down@, up@]);
                    i = i + 1;
                }
                assert(shared::instances_view(children@) =~= models.map_values(
                    |c: InstanceView| advanced(c),
                ));
            },
            None => {},
        }
    } else if is_toggle_action_uuid(&instance.action.uuid) {
        match &instance.children {
            Some(children) => {
                if children.len() > 0 {
                    let k: usize = instance.current_state as usize;
                    assert(before.children->0[k as int] == children@[k as int]@);
                    let e = make_event("keyDown", &children[k], columns);
                    out.push(e);
                    assert(events_view(out@) =~= seq![e@]);
                }
            },
            None => {},
        }
    } else {
        let e = make_event("keyDown", instance, columns);
        out.push(e);
        assert(events_view(out@) =~= seq![e@]);
    }
    out
}

/// The instance after its key was released.
pub open spec fn after_up(i: InstanceView) -> InstanceView {
    if shared::is_toggle(i.action.uuid) {
        if i.children->0.len() == 0 {
            i
        } else {
            InstanceView {
                current_state: ((i.current_state + 1) % (i.children->0.len() as int)) as u16,
                ..i
            }
        }
    } else if shared::is_multi(i.action.uuid) {
        i
    } else {
        advanced(i)
    }
}

/// What is sent when a key is released.
pub open spec fn up_event(i: InstanceView, columns: u8) -> Option<KeyEventView> {
    if shared::is_toggle(i.action.uuid) {
        if i.children->0.len() == 0 {
            None
        } else {
            Some(key_event("keyUp"@, i.children->0[i.current_state as int], columns))
        }
    } else if shared::is_multi(i.action.uuid) {
        None
    } else {
        Some(key_event("keyUp"@, advanced(i), columns))
    }
}

/// The model of an event that may be sent.
pub open spec fn opt_event(e: Option<KeyEvent>) -> Option<KeyEventView> {
    match e {
        Some(x) => Some(x@),
        None => None,
    }
}

/// What follows the release of a key.
pub struct KeyRelease {
    /// What is sent.
    pub event: Option<KeyEvent>,
    /// Whether the profile is saved and the user interface told.
    pub save: bool,
}

/// A key is released: what is sent. Nothing follows for a toggle action without
/// children.
pub fn key_up(instance: &mut ActionInstance, columns: u8) -> (r: KeyRelease)
    requires
        columns > 0,
        can_release(old(instance)@),
    ensures
        opt_event(r.event) == up_event(old(instance)@, columns),
        final(instance)@ == after_up(old(instance)@),
        r.save == !(shared::is_toggle(old(instance)@.action.uuid)
            && old(instance)@.children->0.len() == 0),
{
    broadcast use shared::lemma_instance_view;

    let ghost before = instance@;
    if is_toggle_action_uuid(&instance.action.uuid) {
        match &instance.children {
            Some(children) => {
                if children.len() == 0 {
                    return KeyRelease { event: None, save: false };
                }
                let k: usize = instance.current_state as usize;
                assert(before.children->0[k as int] == children@[k as int]@);
                let e = make_event("keyUp", &children[k], columns);
                let n: usize = children.len();
                let next: usize = (k + 1) % n;
                assert(next < n) by (nonlinear_arith)
                    requires
                        next == (k + 1) % (n as int),
                        n > 0,
                ;
                instance.current_state = next as u16;
                KeyRelease { event: Some(e), save: true }
            },
            None => KeyRelease { event: None, save: false },
        }
    } else if is_multi_action_uuid(&instance.action.uuid) {
        KeyRelease { event: None, save: true }
    } else {
        advance(instance);
        let e = make_event("keyUp", instance, columns);
        KeyRelease { event: Some(e), save: true }
    }
}

/// An instance appears on its device: what its plugin is sent.
pub fn will_appear(instance: &ActionInstance, columns: u8) -> (r: KeyEvent)
    requires
        instance@.context.controller == "Encoder"@ || columns > 0,
    ensures
        r@ == key_event("willAppear"@, instance@, columns),
{
    make_event("willAppear", instance, columns)
}

/// An instance disappears from its device: what its plugin is sent.
pub fn will_disappear(instance: &ActionInstance, columns: u8) -> (r: KeyEvent)
    requires
        instance@.context.controller == "Encoder"@ || columns > 0,
    ensures
        r@ == key_event("willDisappear"@, instance@, columns),
{
    make_event("willDisappear", instance, columns)
}

/// An event is that of its instance: it goes to the plugin of its action, from
/// its own place, and carries exactly its settings and its current state.
pub open spec fn tells_of(e: KeyEventView, i: InstanceView) -> bool {
    &&& e.plugin == i.action.plugin
    &&& e.action == i.action.uuid
    &&& e.context == i.context
    &&& e.device == i.context.device
    &&& e.payload.settings == i.settings
    &&& e.payload.state == i.current_state
    &&& e.payload.controller == i.context.controller
    &&& e.payload.is_in_multi_action <==> i.context.index != 0
}

/// Every `willAppear` and `willDisappear` event that is sent for an instance
/// carries that instance's own settings and state, so that two instances with
/// different settings give different payloads.
pub proof fn law_event_carries_settings(
    name: Seq<char>,
    i: InstanceView,
    other: InstanceView,
    columns: u8,
)
    ensures
        tells_of(key_event(name, i, columns), i),
        key_event(name, i, columns).event == name,
        payload_of(i, columns) == payload_of(other, columns) ==> i.settings == other.settings
            && i.current_state == other.current_state,
{
}

/// The place that plugins are told of leads back to the instance: a key is in row
/// `row`, column `column` of a grid with so many columns, a dial is in row 0.
pub proof fn law_coordinates_lead_back(i: InstanceView, columns: u8)
    requires
        columns > 0,
    ensures
        ({
            let at = payload_of(i, columns).coordinates;
            &&& i.context.controller == "Encoder"@ ==> at.row == 0 && at.column
                == i.context.position
            &&& i.context.controller != "Encoder"@ ==> at.row * columns + at.column
                == i.context.position && at.column < columns
        }),
{
    let p = i.context.position as int;
    let c = columns as int;
    vstd::arithmetic::div_mod::lemma_fundamental_div_mod(p, c);
    vstd::arithmetic::div_mod::lemma_div_is_ordered_by_denominator(p, 1, c);
    assert(0 <= p / c <= p) by (nonlinear_arith)
        requires
            p >= 0,
            c >= 1,
    ;
    assert(c * (p / c) == (p / c) * c) by (nonlinear_arith);
}

/// A press of an ordinary key sends one `keyDown`, which tells of the instance as
/// it is; its release sends one `keyUp`, which tells of the instance as it is then,
/// with the settings that it had.
pub proof fn law_key_tells_of_its_instance(i: InstanceView, columns: u8)
    requires
        !shared::is_multi(i.action.uuid),
        !shared::is_toggle(i.action.uuid),
    ensures
        down_events(i, columns).len() == 1,
        down_events(i, columns)[0].event == "keyDown"@,
        tells_of(down_events(i, columns)[0], i),
        after_down(i) == i,
        up_event(i, columns) is Some,
        up_event(i, columns)->0.event == "keyUp"@,
        tells_of(up_event(i, columns)->0, after_up(i)),
        up_event(i, columns)->0.payload.settings == i.settings,
{
}

/// A press of a toggle action tells of its current child alone, and so does its
/// release, after which the next child is the current one. Without children
/// nothing is sent.
pub proof fn law_toggle_tells_of_its_child(i: InstanceView, columns: u8)
    requires
        !shared::is_multi(i.action.uuid),
        shared::is_toggle(i.action.uuid),
        toggles(i),
    ensures
        i.children->0.len() == 0 ==> down_events(i, columns).len() == 0 && up_event(i, columns)
            is None && after_up(i) == i,
        i.children->0.len() > 0 ==> ({
            let child = i.children->0[i.current_state as int];
            &&& down_events(i, columns).len() == 1
            &&& down_events(i, columns)[0].event == "keyDown"@
            &&& tells_of(down_events(i, columns)[0], child)
            &&& up_event(i, columns) matches Some(e) && e.event == "keyUp"@ && tells_of(e, child)
            &&& i.current_state + 1 < i.children->0.len() ==> i.current_state < 65535
                ==> after_up(i).current_state == i.current_state + 1
            &&& i.current_state + 1 == i.children->0.len() ==> after_up(i).current_state == 0
        }),
        after_up(i).settings == i.settings,
        after_up(i).children == i.children,
{
    if i.children->0.len() > 0 {
        let n = i.children->0.len() as int;
        let c = i.current_state + 1;
        if c < n {
            vstd::arithmetic::div_mod::lemma_small_mod(c as nat, n as nat);
        } else {
            vstd::arithmetic::div_mod::lemma_mod_self_0(n);
        }
    }
}

/// A press of a multi action tells of each of its children, in their order: the
/// child is pressed as it is, goes to its next state, and is released. Each event
/// carries the settings of its own child.
pub proof fn law_multi_tells_of_each_child(i: InstanceView, columns: u8)
    requires
        shared::is_multi(i.action.uuid),
        can_press(i),
    ensures
        ({
            let c = i.children->0;
            let e = down_events(i, columns);
            &&& e.len() == 2 * c.len()
            &&& after_down(i).children is Some
            &&& after_down(i).children->0.len() == c.len()
            &&& after_down(i).settings == i.settings
            &&& after_down(i).current_state == i.current_state
            &&& forall|k: int|
                #![trigger c[k]]
                0 <= k < c.len() ==> {
                    &&& e[2 * k].event == "keyDown"@
                    &&& tells_of(e[2 * k], c[k])
                    &&& e[2 * k + 1].event == "keyUp"@
                    &&& tells_of(e[2 * k + 1], after_down(i).children->0[k])
                    &&& e[2 * k + 1].payload.settings == c[k].settings
                }
        }),
{
    lemma_multi_events(i.children->0, columns, i.children->0.len());
}

proof fn lemma_multi_events(c: Seq<InstanceView>, columns: u8, n: nat)
    requires
        n <= c.len(),
    ensures
        multi_events(c, columns, n).len() == 2 * n,
        forall|k: int|
            #![trigger c[k]]
            0 <= k < n ==> multi_events(c, columns, n)[2 * k] == key_event(
                "keyDown"@,
                c[k],
                columns,
            ) && multi_events(c, columns, n)[2 * k + 1] == key_event(
                "keyUp"@,
                advanced(c[k]),
                columns,
            ),
    decreases n,
{
    if n > 0 {
        let m = (n - 1) as nat;
        lemma_multi_events(c, columns, m);
        let before = multi_events(c, columns, m);
        let all = multi_events(c, columns, n);
        assert forall|k: int| #![trigger c[k]] 0 <= k < n implies all[2 * k] == key_event(
            "keyDown"@,
            c[k],
            columns,
        ) && all[2 * k + 1] == key_event("keyUp"@, advanced(c[k]), columns) by {
            if k < m {
                assert(all[2 * k] == before[2 * k]);
                assert(all[2 * k + 1] == before[2 * k + 1]);
            }
        }
    }
}

/// Going to the next state changes nothing but the current state, and that only
/// between the two states of an action that leaves them to the host.
pub proof fn law_advance_keeps(i: InstanceView)
    requires
        can_advance(i),
    ensures
        advanced(i).action == i.action,
        advanced(i).context == i.context,
        advanced(i).states == i.states,
        advanced(i).settings == i.settings,
        advanced(i).children == i.children,
        advanced(i).current_state != i.current_state ==> i.states.len() == 2
            && !i.action.disable_automatic_states,
        i.states.len() == 2 && !i.action.disable_automatic_states && i.current_state < 2
            ==> advanced(i).current_state == 1 - i.current_state,
{
}

/// An action with two states whose plugin leaves them to the host is back in its
/// state after two presses.
pub proof fn law_two_presses(i: InstanceView)
    requires
        !shared::holds_children(i.action.uuid),
        i.states.len() == 2,
        i.current_state < 2,
    ensures
        after_up(after_up(i)) == i,
{
}

/// The state of a toggle action after `n` releases.
pub open spec fn after_releases(i: InstanceView, n: nat) -> InstanceView
    decreases n,
{
    if n == 0 {
        i
    } else {
        after_up(after_releases(i, (n - 1) as nat))
    }
}

proof fn lemma_after_releases(i: InstanceView, n: nat)
    requires
        shared::is_toggle(i.action.uuid),
        i.children is Some,
        (i.current_state as int) < i.children->0.len() <= 65536,
        n <= i.children->0.len(),
    ensures
        after_releases(i, n) == (InstanceView {
            current_state: ((i.current_state + n) % (i.children->0.len() as int)) as u16,
            ..i
        }),
    decreases n,
{
    let m = i.children->0.len() as int;
    if n == 0 {
        vstd::arithmetic::div_mod::lemma_small_mod(i.current_state as nat, m as nat);
    } else {
        lemma_after_releases(i, (n - 1) as nat);
        let a = i.current_state + n - 1;
        let c = (a % m) as u16;
        assert(0 <= a % m < m) by (nonlinear_arith)
            requires
                m > 0,
        ;
        vstd::arithmetic::div_mod::lemma_add_mod_noop(a, 1, m);
        vstd::arithmetic::div_mod::lemma_mod_twice(a, m);
        if m > 1 {
            vstd::arithmetic::div_mod::lemma_small_mod(1, m as nat);
        } else {
            assert((a + 1) % 1 == 0);
            assert((a % 1 + 1) % 1 == 0);
        }
        assert((c + 1) % m == (a + 1) % m);
    }
}

/// A toggle action is back at its current child after as many presses as it has
/// children.
pub proof fn law_toggle_cycles(i: InstanceView)
    requires
        shared::is_toggle(i.action.uuid),
        i.children is Some,
        (i.current_state as int) < i.children->0.len() <= 65536,
    ensures
        after_releases(i, i.children->0.len()) == i,
{
    let m = i.children->0.len() as int;
    lemma_after_releases(i, m as nat);
    vstd::arithmetic::div_mod::lemma_mod_add_multiples_vanish(i.current_state as int, m);
    vstd::arithmetic::div_mod::lemma_small_mod(i.current_state as nat, m as nat);
}

} // verus!
