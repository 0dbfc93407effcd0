//! The course of an installation: what is done after each thing that happened, and
//! what becomes of the files.
use vstd::prelude::*;
use crate::install;
use crate::install::{
    finish_steps, keeps_failed_plugin, place_steps, prepare_steps, restore_steps, rollback_steps,
    set_aside_steps, FileStep, InstallPaths, PathsView, StepView,
};
use crate::path;
use crate::shared;
use crate::shared::join;
use crate::text;
use crate::text::concat2;
use crate::ui;
use crate::ui::{PhaseView, PluginInstallPhase};

verus! {

// ---------------------------------------------------------------------------
// States, events and actions
// ---------------------------------------------------------------------------

/// What is installed. The user interface is told of plugins only, and only they
/// are started.
#[derive(Clone, Copy, PartialEq, Eq, Structural, Debug)]
pub enum InstallKind {
    Plugin,
    IconPack,
}

/// What an installation waits for.
#[derive(Clone, Copy, PartialEq, Eq, Structural, Debug)]
pub enum InstallPhase {
    Preparing,
    Unpacking,
    Finding,
    SettingAside,
    Placing,
    Starting,
    Over,
}

/// An installation that is under way.
pub struct InstallState {
    pub kind: InstallKind,
    pub id: String,
    pub phase: InstallPhase,
    /// The directory that was found in the archive.
    pub found: String,
    /// Whether something stood where it goes.
    pub replaces: bool,
}

/// The model of an `InstallState`.
#[verifier::ext_equal]
pub struct StateView {
    pub kind: InstallKind,
    pub id: Seq<char>,
    pub phase: InstallPhase,
    pub found: Seq<char>,
    pub replaces: bool,
}

impl View for InstallState {
    type V = StateView;

    open spec fn view(&self) -> StateView {
        StateView {
            kind: self.kind,
            id: self.id@,
            phase: self.phase,
            found: self.found@,
            replaces: self.replaces,
        }
    }
}

/// The directory that was found in an archive, and whether something stands where
/// it goes.
pub struct FoundDir {
    pub path: String,
    pub replaces: bool,
}

/// Why a plugin did not start: the error itself, and the message with all that led
/// to it.
pub struct StartFailure {
    pub error: String,
    pub message: String,
}

/// How a part of an installation went: well, or why not.
pub enum InstallEvent {
    Prepared(Result<(), String>),
    Unpacked(Result<(), String>),
    Found(Result<FoundDir, String>),
    SetAside(Result<(), String>),
    Placed(Result<(), String>),
    Started(Result<(), StartFailure>),
}

/// The model of an `InstallEvent`.
pub enum EventView {
    Prepared(Result<(), Seq<char>>),
    Unpacked(Result<(), Seq<char>>),
    Found(Result<(Seq<char>, bool), Seq<char>>),
    SetAside(Result<(), Seq<char>>),
    Placed(Result<(), Seq<char>>),
    Started(Result<(), (Seq<char>, Seq<char>)>),
}

/// The model of a result without a value.
pub open spec fn result_view(r: Result<(), String>) -> Result<(), Seq<char>> {
    match r {
        Ok(_) => Ok(()),
        Err(e) => Err(e@),
    }
}

impl View for InstallEvent {
    type V = EventView;

    open spec fn view(&self) -> EventView {
        match self {
            InstallEvent::Prepared(r) => EventView::Prepared(result_view(*r)),
            InstallEvent::Unpacked(r) => EventView::Unpacked(result_view(*r)),
            InstallEvent::Found(Ok(f)) => EventView::Found(Ok((f.path@, f.replaces))),
            InstallEvent::Found(Err(e)) => EventView::Found(Err(e@)),
            InstallEvent::SetAside(r) => EventView::SetAside(result_view(*r)),
            InstallEvent::Placed(r) => EventView::Placed(result_view(*r)),
            InstallEvent::Started(Ok(_)) => EventView::Started(Ok(())),
            InstallEvent::Started(Err(f)) => EventView::Started(Err((f.error@, f.message@))),
        }
    }
}

/// What is done next. Each action but the last is answered by the event of its
/// name.
pub enum InstallAction {
    /// Tells the user interface, ends the plugin that runs under the id, and takes
    /// the steps.
    Prepare { tell: Option<PluginInstallPhase>, steps: Vec<FileStep> },
    /// Unpacks the archive into a directory.
    Unpack(String),
    /// Looks for the directory of the plugin below another.
    Find { below: String, name: String },
    SetAside(Vec<FileStep>),
    Place(Vec<FileStep>),
    /// Starts the plugin in a directory.
    Start(String),
    /// Takes the steps and tells the user interface: the installation is over.
    Finish {
        steps: Vec<FileStep>,
        tell: Option<PluginInstallPhase>,
        result: Result<(), String>,
    },
    /// The event was not the one that was waited for. Nothing is done.
    Wait,
}

/// The model of an `InstallAction`.
pub enum ActionView {
    Prepare { tell: Option<PhaseView>, steps: Seq<StepView> },
    Unpack(Seq<char>),
    Find { below: Seq<char>, name: Seq<char> },
    SetAside(Seq<StepView>),
    Place(Seq<StepView>),
    Start(Seq<char>),
    Finish { steps: Seq<StepView>, tell: Option<PhaseView>, result: Result<(), Seq<char>> },
    Wait,
}

impl View for InstallAction {
    type V = ActionView;

    open spec fn view(&self) -> ActionView {
        match self {
            InstallAction::Prepare { tell, steps } => ActionView::Prepare {
                tell: ui::opt_phase(*tell),
                steps: install::steps_view(steps@),
            },
            InstallAction::Unpack(to) => ActionView::Unpack(to@),
            InstallAction::Find { below, name } => ActionView::Find { below: below@, name: name@ },
            InstallAction::SetAside(steps) => ActionView::SetAside(install::steps_view(steps@)),
            InstallAction::Place(steps) => ActionView::Place(install::steps_view(steps@)),
            InstallAction::Start(dir) => ActionView::Start(dir@),
            InstallAction::Finish { steps, tell, result } => ActionView::Finish {
                steps: install::steps_view(steps@),
                tell: ui::opt_phase(*tell),
                result: result_view(*result),
            },
            InstallAction::Wait => ActionView::Wait,
        }
    }
}

// ---------------------------------------------------------------------------
// The course
// ---------------------------------------------------------------------------

/// How an installation begins.
pub open spec fn first_step(kind: InstallKind, id: Seq<char>, p: PathsView) -> (
    StateView,
    ActionView,
) {
    (
        StateView {
            kind,
            id,
            phase: InstallPhase::Preparing,
            found: Seq::empty(),
            replaces: false,
        },
        ActionView::Prepare {
            tell: if kind == InstallKind::Plugin {
                Some(PhaseView::Started)
            } else {
                None
            },
            steps: install::preparation(p),
        },
    )
}

/// Begins an installation. The user interface is told that it has started.
pub fn begin_install(kind: InstallKind, id: &str, paths: &InstallPaths) -> (r: (
    InstallState,
    InstallAction,
))
    ensures
        (r.0@, r.1@) == first_step(kind, id@, paths@),
{
    let state = InstallState {
        kind,
        id: text::owned(id),
        phase: InstallPhase::Preparing,
        found: String::new(),
        replaces: false,
    };
    let tell = match kind {
        InstallKind::Plugin => Some(PluginInstallPhase::Started),
        InstallKind::IconPack => None,
    };
    let r = (state, InstallAction::Prepare { tell, steps: prepare_steps(paths) });
    assert(r.0@.found =~= Seq::<char>::empty());
    r
}

/// What the user interface is told at the end.
pub open spec fn last_news(kind: InstallKind, result: Result<(), Seq<char>>) -> Option<PhaseView> {
    if kind == InstallKind::Plugin {
        Some(
            PhaseView::Finished {
                ok: result is Ok,
                error: match result {
                    Ok(_) => None,
                    Err(e) => Some(e),
                },
            },
        )
    } else {
        None
    }
}

/// An installation that ends with some last steps.
pub open spec fn ending(s: StateView, steps: Seq<StepView>, result: Result<(), Seq<char>>) -> (
    StateView,
    ActionView,
) {
    (
        StateView { phase: InstallPhase::Over, ..s },
        ActionView::Finish { steps, tell: last_news(s.kind, result), result },
    )
}

/// What is done after an event. What was set aside is put back where the new
/// directory could not be moved into place or its plugin did not start.
pub open spec fn install_step(s: StateView, e: EventView, p: PathsView) -> (StateView, ActionView) {
    match (s.phase, e) {
        (InstallPhase::Preparing, EventView::Prepared(r)) => match r {
            Ok(_) => (
                StateView { phase: InstallPhase::Unpacking, ..s },
                ActionView::Unpack(p.extract_root),
            ),
            Err(m) => ending(s, Seq::empty(), Err(m)),
        },
        (InstallPhase::Unpacking, EventView::Unpacked(r)) => match r {
            Ok(_) => (
                StateView { phase: InstallPhase::Finding, ..s },
                ActionView::Find { below: p.extract_root, name: s.id },
            ),
            Err(m) => ending(s, seq![StepView::Remove(p.extract_root)], Err(m)),
        },
        (InstallPhase::Finding, EventView::Found(r)) => match r {
            Ok(f) => (
                StateView {
                    phase: InstallPhase::SettingAside,
                    found: f.0,
                    replaces: f.1,
                    ..s
                },
                ActionView::SetAside(install::setting_aside(p, f.1)),
            ),
            Err(m) => ending(s, Seq::empty(), Err(m)),
        },
        (InstallPhase::SettingAside, EventView::SetAside(r)) => match r {
            Ok(_) => (
                StateView { phase: InstallPhase::Placing, ..s },
                ActionView::Place(install::placement(p, s.found)),
            ),
            Err(m) => ending(s, Seq::empty(), Err(m)),
        },
        (InstallPhase::Placing, EventView::Placed(r)) => match r {
            Ok(_) => if s.kind == InstallKind::Plugin {
                (
                    StateView { phase: InstallPhase::Starting, ..s },
                    ActionView::Start(p.actual),
                )
            } else {
                ending(s, install::completion(p), Ok(()))
            },
            Err(m) => ending(s, install::restoration(p, s.replaces), Err(m)),
        },
        (InstallPhase::Starting, EventView::Started(r)) => match r {
            Ok(_) => ending(s, install::completion(p), Ok(())),
            Err(f) => ending(
                s,
                install::rollback(p, install::is_kept(f.0), s.replaces),
                Err(f.1),
            ),
        },
        _ => (s, ActionView::Wait),
    }
}

fn with_phase(s: InstallState, phase: InstallPhase) -> (r: InstallState)
    ensures
        r@ == (StateView { phase, ..s@ }),
{
    InstallState { kind: s.kind, id: s.id, phase, found: s.found, replaces: s.replaces }
}

fn end(s: InstallState, steps: Vec<FileStep>, result: Result<(), String>) -> (r: (
    InstallState,
    InstallAction,
))
    ensures
        (r.0@, r.1@) == ending(s@, install::steps_view(steps@), result_view(result)),
{
    let tell = match s.kind {
        InstallKind::Plugin => Some(
            match &result {
                Ok(_) => PluginInstallPhase::Finished { ok: true, error: None },
                Err(e) => PluginInstallPhase::Finished { ok: false, error: Some(e.clone()) },
            },
        ),
        InstallKind::IconPack => None,
    };
    (with_phase(s, InstallPhase::Over), InstallAction::Finish { steps, tell, result })
}

/// Decides what is done after an event of an installation.
pub fn next_install_step(state: InstallState, event: InstallEvent, paths: &InstallPaths) -> (r: (
    InstallState,
    InstallAction,
))
    ensures
        (r.0@, r.1@) == install_step(state@, event@, paths@),
{
    let none: Vec<FileStep> = Vec::new();
    assert(install::steps_view(none@) =~= Seq::<StepView>::empty());
    match (state.phase, event) {
        (InstallPhase::Preparing, InstallEvent::Prepared(r)) => match r {
            Ok(_) => (
                with_phase(state, InstallPhase::Unpacking),
                InstallAction::Unpack(paths.extract_root.clone()),
            ),
            Err(m) => end(state, none, Err(m)),
        },
        (InstallPhase::Unpacking, InstallEvent::Unpacked(r)) => match r {
            Ok(_) => {
                let name = state.id.clone();
                let below = paths.extract_root.clone();
                (with_phase(state, InstallPhase::Finding), InstallAction::Find { below, name })
            },
            Err(m) => {
                let mut steps: Vec<FileStep> = Vec::new();
                steps.push(FileStep::Remove(paths.extract_root.clone()));
                assert(install::steps_view(steps@) =~= seq![
                    StepView::Remove(paths@.extract_root),
                ]);
                end(state, steps, Err(m))
            },
        },
        (InstallPhase::Finding, InstallEvent::Found(r)) => match r {
            Ok(f) => (
                InstallState {
                    kind: state.kind,
                    id: state.id,
                    phase: InstallPhase::SettingAside,
                    found: f.path,
                    replaces: f.replaces,
                },
                InstallAction::SetAside(set_aside_steps(paths, f.replaces)),
            ),
            Err(m) => end(state, none, Err(m)),
        },
        (InstallPhase::SettingAside, InstallEvent::SetAside(r)) => match r {
            Ok(_) => {
                let steps = place_steps(paths, &state.found);
                (with_phase(state, InstallPhase::Placing), InstallAction::Place(steps))
            },
            Err(m) => end(state, none, Err(m)),
        },
        (InstallPhase::Placing, InstallEvent::Placed(r)) => match r {
            Ok(_) => match state.kind {
                InstallKind::Plugin => (
                    with_phase(state, InstallPhase::Starting),
                    InstallAction::Start(paths.actual.clone()),
                ),
                InstallKind::IconPack => end(state, finish_steps(paths), Ok(())),
            },
            Err(m) => {
                let steps = restore_steps(paths, state.replaces);
                end(state, steps, Err(m))
            },
        },
        (InstallPhase::Starting, InstallEvent::Started(r)) => match r {
            Ok(_) => end(state, finish_steps(paths), Ok(())),
            Err(f) => {
                let keep = keeps_failed_plugin(&f.error);
                let steps = rollback_steps(paths, keep, state.replaces);
                end(state, steps, Err(f.message))
            },
        },
        _ => (state, InstallAction::Wait),
    }
}

/// The directory at the end of a way that begins in `root`.
pub open spec fn end_of_way(root: Seq<char>, way: Seq<Seq<char>>) -> Seq<char>
    decreases way.len(),
{
    if way.len() == 0 {
        root
    } else {
        shared::joined(end_of_way(root, way.drop_last()), way.last())
    }
}

/// The directory that was found below `root`, or why there is none.
pub fn found_dir(root: &str, way: &Option<Vec<String>>, id: &str) -> (r: Result<String, String>)
    ensures
        match (*way, r) {
            (Some(w), Ok(p)) => p@ == end_of_way(root@, text::texts(w@)),
            (None, Err(m)) => m@ == "extracted archive did not contain "@ + id@,
            _ => false,
        },
{
    match way {
        Some(w) => {
            let mut p = text::owned(root);
            let mut i: usize = 0;
            let ghost names = text::texts(w@);
            assert(names.take(0) =~= Seq::<Seq<char>>::empty());
            while i < w.len()
                invariant
                    i <= w@.len(),
                    names == text::texts(w@),
                    p@ == end_of_way(root@, names.take(i as int)),
                decreases w@.len() - i,
            {
                p = join(&p, &w[i]);
                i = i + 1;
                assert(names[i - 1] == w@[i - 1]@);
                assert(names.take(i as int).drop_last() =~= names.take(i - 1));
            }
            assert(names.take(i as int) =~= names);
            Ok(p)
        },
        None => Err(concat2("extracted archive did not contain ", id)),
    }
}

// ---------------------------------------------------------------------------
// What becomes of the files
// ---------------------------------------------------------------------------

/// What each file holds, by the components of its path.
pub type Files = Map<Seq<Seq<char>>, int>;

/// What stands in a directory: the files below it, by what follows it in their
/// paths.
pub open spec fn held(fs: Files, dir: Seq<char>) -> Files {
    let d = path::path_components(dir);
    Map::new(
        |rest: Seq<Seq<char>>| fs.dom().contains(d + rest),
        |rest: Seq<Seq<char>>| fs[d + rest],
    )
}

/// The files once a directory is removed.
pub open spec fn without(fs: Files, dir: Seq<char>) -> Files {
    let d = path::path_components(dir);
    Map::new(
        |q: Seq<Seq<char>>| fs.dom().contains(q) && !d.is_prefix_of(q),
        |q: Seq<Seq<char>>| fs[q],
    )
}

/// The files once a directory is moved, with all that is below it.
pub open spec fn moved(fs: Files, from: Seq<char>, to: Seq<char>) -> Files {
    let f = path::path_components(from);
    let t = path::path_components(to);
    Map::new(
        |q: Seq<Seq<char>>|
            if t.is_prefix_of(q) {
                fs.dom().contains(f + q.skip(t.len() as int))
            } else {
                fs.dom().contains(q) && !f.is_prefix_of(q)
            },
        |q: Seq<Seq<char>>|
            if t.is_prefix_of(q) {
                fs[f + q.skip(t.len() as int)]
            } else {
                fs[q]
            },
    )
}

/// The files after a step that went well. `renames` tells whether a directory
/// that is to be moved or else removed could be moved. What a plugin writes that
/// is started again is not counted.
pub open spec fn after_step(fs: Files, step: StepView, renames: bool) -> Files {
    match step {
        StepView::Remove(p) => without(fs, p),
        StepView::Rename { from, to } | StepView::TryRename { from, to } => moved(fs, from, to),
        StepView::RenameOrRemove { from, to } => if renames {
            moved(fs, from, to)
        } else {
            without(fs, from)
        },
        StepView::Create(_) | StepView::Initialise(_) => fs,
    }
}

/// The files after the first `n` steps.
pub open spec fn after_steps(fs: Files, steps: Seq<StepView>, n: nat, renames: bool) -> Files
    decreases n,
{
    if n == 0 || n > steps.len() {
        fs
    } else {
        after_step(after_steps(fs, steps, (n - 1) as nat, renames), steps[n - 1], renames)
    }
}

/// Neither directory lies below the other.
pub open spec fn apart(a: Seq<char>, b: Seq<char>) -> bool {
    let x = path::path_components(a);
    let y = path::path_components(b);
    !x.is_prefix_of(y) && !y.is_prefix_of(x)
}

/// The directories of an installation lie apart.
pub open spec fn paths_apart(p: PathsView) -> bool {
    &&& apart(p.actual, p.backup)
    &&& apart(p.actual, p.bad)
    &&& apart(p.actual, p.extract_root)
    &&& apart(p.backup, p.bad)
    &&& apart(p.backup, p.extract_root)
}

/// One directory is another or lies below it.
pub open spec fn lies_below(a: Seq<char>, dir: Seq<char>) -> bool {
    path::path_components(dir).is_prefix_of(path::path_components(a))
}

/// Only files below a directory have changed.
pub open spec fn same_outside(before: Files, after: Files, dir: Seq<char>) -> bool {
    let d = path::path_components(dir);
    forall|q: Seq<Seq<char>>|
        !d.is_prefix_of(q) ==> #[trigger] after.dom().contains(q) == before.dom().contains(q)
            && after[q] == before[q]
}

/// Steps were taken, all of them or up to one that failed, which changed nothing.
pub open spec fn taken(before: Files, steps: Seq<StepView>, after: Files, ok: bool) -> bool {
    exists|k: nat|
        k <= steps.len() && after == #[trigger] after_steps(before, steps, k, true) && (ok <==> k
            == steps.len())
}

/// What may become of the files when an action is carried out, and the event that
/// answers it. Unpacking writes below its directory, and so does a plugin that is
/// started. What was found lies where the archive was unpacked.
pub open spec fn happens(
    a: ActionView,
    p: PathsView,
    before: Files,
    after: Files,
    e: EventView,
) -> bool {
    match (a, e) {
        (ActionView::Prepare { steps, .. }, EventView::Prepared(r)) => taken(
            before,
            steps,
            after,
            r is Ok,
        ),
        (ActionView::Unpack(to), EventView::Unpacked(_)) => same_outside(before, after, to),
        (ActionView::Find { below, .. }, EventView::Found(r)) => after == before && (r matches Ok(
            f,
        ) ==> lies_below(f.0, below) && (held(before, p.actual) != Map::<
            Seq<Seq<char>>,
            int,
        >::empty() ==> f.1)),
        (ActionView::SetAside(steps), EventView::SetAside(r)) => taken(
            before,
            steps,
            after,
            r is Ok,
        ),
        (ActionView::Place(steps), EventView::Placed(r)) => taken(before, steps, after, r is Ok),
        (ActionView::Start(dir), EventView::Started(_)) => same_outside(before, after, dir),
        _ => false,
    }
}

/// The state and the action after the first `n` events of an installation.
pub open spec fn course(
    kind: InstallKind,
    id: Seq<char>,
    p: PathsView,
    events: Seq<EventView>,
    n: nat,
) -> (StateView, ActionView)
    decreases n,
{
    if n == 0 || n > events.len() {
        first_step(kind, id, p)
    } else {
        install_step(course(kind, id, p, events, (n - 1) as nat).0, events[n - 1], p)
    }
}

/// A course of an installation: each event answers the action before it, and
/// `files` are those before the first action and after each that was answered.
pub open spec fn is_course(
    kind: InstallKind,
    id: Seq<char>,
    p: PathsView,
    events: Seq<EventView>,
    files: Seq<Files>,
) -> bool {
    &&& files.len() == events.len() + 1
    &&& forall|i: int|
        #![trigger events[i]]
        0 <= i < events.len() ==> happens(
            course(kind, id, p, events, i as nat).1,
            p,
            files[i],
            files[i + 1],
            events[i],
        )
}

/// What is known in each phase: up to its being set aside, what stood there
/// before still does; then it stands aside.
pub open spec fn keeps_old(s: StateView, a: ActionView, p: PathsView, old: Files, now: Files) -> bool {
    let before = held(old, p.actual);
    match s.phase {
        InstallPhase::Preparing => held(now, p.actual) == before && a == first_step(
            s.kind,
            s.id,
            p,
        ).1,
        InstallPhase::Unpacking => held(now, p.actual) == before && a == ActionView::Unpack(
            p.extract_root,
        ),
        InstallPhase::Finding => held(now, p.actual) == before && a == (ActionView::Find {
            below: p.extract_root,
            name: s.id,
        }),
        InstallPhase::SettingAside => {
            &&& held(now, p.actual) == before
            &&& a == ActionView::SetAside(install::setting_aside(p, s.replaces))
            &&& lies_below(s.found, p.extract_root)
            &&& !s.replaces ==> before == Map::<Seq<Seq<char>>, int>::empty()
        },
        InstallPhase::Placing => {
            &&& a == ActionView::Place(install::placement(p, s.found))
            &&& lies_below(s.found, p.extract_root)
            &&& s.replaces ==> held(now, p.backup) == before
            &&& !s.replaces ==> before == Map::<Seq<Seq<char>>, int>::empty()
        },
        InstallPhase::Starting => {
            &&& a == ActionView::Start(p.actual)
            &&& s.replaces ==> held(now, p.backup) == before
            &&& !s.replaces ==> before == Map::<Seq<Seq<char>>, int>::empty()
        },
        InstallPhase::Over => false,
    }
}

proof fn lemma_apart_below(a: Seq<Seq<char>>, b: Seq<Seq<char>>, rest: Seq<Seq<char>>)
    requires
        !a.is_prefix_of(b),
        !b.is_prefix_of(a),
    ensures
        !b.is_prefix_of(a + rest),
{
    if b.is_prefix_of(a + rest) {
        if b.len() <= a.len() {
            assert((a + rest).subrange(0, b.len() as int) =~= a.subrange(0, b.len() as int));
        } else {
            assert(b.subrange(0, a.len() as int) =~= a) by {
                assert forall|i: int| 0 <= i < a.len() implies b[i] == a[i] by {
                    assert((a + rest).subrange(0, b.len() as int)[i] == b[i]);
                }
            }
        }
    }
}

proof fn lemma_without_apart(fs: Files, dir: Seq<char>, d: Seq<char>)
    requires
        apart(d, dir),
    ensures
        held(without(fs, dir), d) == held(fs, d),
{
    let x = path::path_components(d);
    let y = path::path_components(dir);
    assert forall|rest: Seq<Seq<char>>| !y.is_prefix_of(#[trigger] (x + rest)) by {
        lemma_apart_below(x, y, rest);
    }
    assert(held(without(fs, dir), d) =~= held(fs, d));
}

proof fn lemma_moved_apart(fs: Files, from: Seq<char>, to: Seq<char>, d: Seq<char>)
    requires
        apart(d, from),
        apart(d, to),
    ensures
        held(moved(fs, from, to), d) == held(fs, d),
{
    let x = path::path_components(d);
    let f = path::path_components(from);
    let t = path::path_components(to);
    assert forall|rest: Seq<Seq<char>>|
        !f.is_prefix_of(#[trigger] (x + rest)) && !t.is_prefix_of(x + rest) by {
        lemma_apart_below(x, f, rest);
        lemma_apart_below(x, t, rest);
    }
    assert(held(moved(fs, from, to), d) =~= held(fs, d));
}

/// A directory that is moved stands with all that is below it where it was moved
/// to.
pub proof fn law_moved_directory_is_there(fs: Files, from: Seq<char>, to: Seq<char>)
    ensures
        held(moved(fs, from, to), to) == held(fs, from),
{
    let t = path::path_components(to);
    let f = path::path_components(from);
    assert forall|rest: Seq<Seq<char>>|
        t.is_prefix_of(#[trigger] (t + rest)) && (t + rest).skip(t.len() as int) == rest by {
        assert((t + rest).subrange(0, t.len() as int) =~= t);
        assert((t + rest).skip(t.len() as int) =~= rest);
    }
    assert(held(moved(fs, from, to), to) =~= held(fs, from));
}

/// Nothing stands where a directory was removed.
pub proof fn law_removed_directory_is_gone(fs: Files, dir: Seq<char>)
    ensures
        held(without(fs, dir), dir) == Map::<Seq<Seq<char>>, int>::empty(),
{
    let d = path::path_components(dir);
    assert forall|rest: Seq<Seq<char>>| d.is_prefix_of(#[trigger] (d + rest)) by {
        assert((d + rest).subrange(0, d.len() as int) =~= d);
    }
    assert(held(without(fs, dir), dir) =~= Map::<Seq<Seq<char>>, int>::empty());
}

proof fn lemma_same_outside(before: Files, after: Files, dir: Seq<char>, d: Seq<char>)
    requires
        same_outside(before, after, dir),
        apart(d, dir),
    ensures
        held(after, d) == held(before, d),
{
    let x = path::path_components(d);
    let y = path::path_components(dir);
    assert forall|rest: Seq<Seq<char>>| !y.is_prefix_of(#[trigger] (x + rest)) by {
        lemma_apart_below(x, y, rest);
    }
    assert forall|rest: Seq<Seq<char>>|
        after.dom().contains(#[trigger] (x + rest)) == before.dom().contains(x + rest) && after[x
            + rest] == before[x + rest] by {}
    assert(held(after, d) =~= held(before, d));
}

proof fn lemma_below_is_apart(found: Seq<char>, dir: Seq<char>, d: Seq<char>)
    requires
        apart(d, dir),
        lies_below(found, dir),
    ensures
        apart(d, found),
{
    let x = path::path_components(d);
    let y = path::path_components(dir);
    let f = path::path_components(found);
    let rest = f.skip(y.len() as int);
    assert(f =~= y + rest) by {
        assert(f.subrange(0, y.len() as int) == y);
    }
    lemma_apart_below(y, x, rest);
    if f.is_prefix_of(x) {
        assert(y.is_prefix_of(x)) by {
            assert(x.subrange(0, y.len() as int) =~= y) by {
                assert forall|i: int| 0 <= i < y.len() implies x[i] == y[i] by {
                    assert(x.subrange(0, f.len() as int)[i] == f[i]);
                }
            }
        }
    }
}

proof fn lemma_restored(p: PathsView, old: Files, now: Files, replaces: bool, renames: bool)
    requires
        paths_apart(p),
        replaces ==> held(now, p.backup) == held(old, p.actual),
        !replaces ==> held(old, p.actual) == Map::<Seq<Seq<char>>, int>::empty(),
    ensures
        ({
            let steps = install::restoration(p, replaces);
            held(after_steps(now, steps, steps.len(), renames), p.actual) == held(old, p.actual)
        }),
{
    reveal_with_fuel(after_steps, 4);
    let steps = install::restoration(p, replaces);
    let a = without(now, p.actual);
    law_removed_directory_is_gone(now, p.actual);
    lemma_without_apart(now, p.actual, p.backup);
    if replaces {
        let b = moved(a, p.backup, p.actual);
        law_moved_directory_is_there(a, p.backup, p.actual);
        lemma_without_apart(b, p.extract_root, p.actual);
        assert(after_steps(now, steps, 3, renames) == without(b, p.extract_root));
    } else {
        lemma_without_apart(a, p.extract_root, p.actual);
        assert(after_steps(now, steps, 2, renames) == without(a, p.extract_root));
    }
}

proof fn lemma_rolled_back(
    p: PathsView,
    old: Files,
    now: Files,
    keep: bool,
    replaces: bool,
    renames: bool,
)
    requires
        paths_apart(p),
        replaces ==> held(now, p.backup) == held(old, p.actual),
        !replaces ==> held(old, p.actual) == Map::<Seq<Seq<char>>, int>::empty(),
    ensures
        ({
            let steps = install::rollback(p, keep, replaces);
            held(after_steps(now, steps, steps.len(), renames), p.actual) == held(old, p.actual)
        }),
{
    reveal_with_fuel(after_steps, 6);
    let steps = install::rollback(p, keep, replaces);
    let gone = if keep {
        let a = without(now, p.bad);
        lemma_without_apart(now, p.bad, p.backup);
        lemma_without_apart(a, p.actual, p.backup);
        lemma_moved_apart(a, p.actual, p.bad, p.backup);
        law_removed_directory_is_gone(a, p.actual);
        lemma_moved_away(a, p.actual, p.bad);
        after_step(a, StepView::RenameOrRemove { from: p.actual, to: p.bad }, renames)
    } else {
        lemma_without_apart(now, p.actual, p.backup);
        law_removed_directory_is_gone(now, p.actual);
        without(now, p.actual)
    };
    assert(replaces ==> held(gone, p.backup) == held(old, p.actual));
    assert(held(gone, p.actual) == Map::<Seq<Seq<char>>, int>::empty());
    let back = moved(gone, p.backup, p.actual);
    law_moved_directory_is_there(gone, p.backup, p.actual);
    lemma_without_apart(back, p.extract_root, p.actual);
    lemma_without_apart(gone, p.extract_root, p.actual);
    if keep {
        assert(steps[0] == StepView::Remove(p.bad));
        assert(steps[1] == (StepView::RenameOrRemove { from: p.actual, to: p.bad }));
        assert(after_steps(now, steps, 2, renames) == gone);
        if replaces {
            assert(steps.len() == 5);
            assert(steps[2] == (StepView::TryRename { from: p.backup, to: p.actual }));
            assert(steps[3] == StepView::Initialise(p.actual));
            assert(steps[4] == StepView::Remove(p.extract_root));
            assert(after_steps(now, steps, 5, renames) == without(back, p.extract_root));
        } else {
            assert(steps.len() == 3);
            assert(steps[2] == StepView::Remove(p.extract_root));
            assert(after_steps(now, steps, 3, renames) == without(gone, p.extract_root));
        }
    } else {
        assert(steps[0] == StepView::Remove(p.actual));
        assert(after_steps(now, steps, 1, renames) == gone);
        if replaces {
            assert(steps.len() == 4);
            assert(steps[1] == (StepView::TryRename { from: p.backup, to: p.actual }));
            assert(steps[2] == StepView::Initialise(p.actual));
            assert(steps[3] == StepView::Remove(p.extract_root));
            assert(after_steps(now, steps, 4, renames) == without(back, p.extract_root));
        } else {
            assert(steps.len() == 2);
            assert(steps[1] == StepView::Remove(p.extract_root));
            assert(after_steps(now, steps, 2, renames) == without(gone, p.extract_root));
        }
    }
}

proof fn lemma_moved_away(fs: Files, from: Seq<char>, to: Seq<char>)
    requires
        apart(from, to),
    ensures
        held(moved(fs, from, to), from) == Map::<Seq<Seq<char>>, int>::empty(),
{
    let f = path::path_components(from);
    let t = path::path_components(to);
    assert forall|rest: Seq<Seq<char>>|
        !t.is_prefix_of(#[trigger] (f + rest)) && f.is_prefix_of(f + rest) by {
        lemma_apart_below(f, t, rest);
        assert((f + rest).subrange(0, f.len() as int) =~= f);
    }
    assert(held(moved(fs, from, to), from) =~= Map::<Seq<Seq<char>>, int>::empty());
}

proof fn lemma_next_keeps_old(
    s: StateView,
    a: ActionView,
    p: PathsView,
    old: Files,
    now: Files,
    next: Files,
    e: EventView,
    renames: bool,
)
    requires
        paths_apart(p),
        keeps_old(s, a, p, old, now),
        happens(a, p, now, next, e),
    ensures
        ({
            let (s2, a2) = install_step(s, e, p);
            match a2 {
                ActionView::Finish { steps, result, .. } => result is Err ==> held(
                    after_steps(next, steps, steps.len(), renames),
                    p.actual,
                ) == held(old, p.actual),
                _ => keeps_old(s2, a2, p, old, next),
            }
        }),
{
    reveal_with_fuel(after_steps, 4);
    match s.phase {
        InstallPhase::Preparing => {
            let steps = install::preparation(p);
            lemma_without_apart(now, p.extract_root, p.actual);
        },
        InstallPhase::Unpacking => {
            lemma_same_outside(now, next, p.extract_root, p.actual);
            lemma_without_apart(next, p.extract_root, p.actual);
            let steps = seq![StepView::Remove(p.extract_root)];
            assert(after_steps(next, steps, 1, renames) == without(next, p.extract_root));
        },
        InstallPhase::Finding => {},
        InstallPhase::SettingAside => {
            let a = without(now, p.backup);
            lemma_without_apart(now, p.backup, p.actual);
            law_moved_directory_is_there(a, p.actual, p.backup);
        },
        InstallPhase::Placing => {
            lemma_below_is_apart(s.found, p.extract_root, p.backup);
            lemma_moved_apart(now, s.found, p.actual, p.backup);
            lemma_restored(p, old, next, s.replaces, renames);
        },
        InstallPhase::Starting => {
            lemma_same_outside(now, next, p.actual, p.backup);
            match e {
                EventView::Started(Err(f)) => {
                    lemma_rolled_back(
                        p,
                        old,
                        next,
                        install::is_kept(f.0),
                        s.replaces,
                        renames,
                    );
                },
                _ => {},
            }
        },
        InstallPhase::Over => {},
    }
}

proof fn lemma_course_keeps_old(
    kind: InstallKind,
    id: Seq<char>,
    p: PathsView,
    events: Seq<EventView>,
    files: Seq<Files>,
    n: nat,
)
    requires
        paths_apart(p),
        is_course(kind, id, p, events, files),
        n <= events.len(),
    ensures
        ({
            let (s, a) = course(kind, id, p, events, n);
            a is Finish || keeps_old(s, a, p, files[0], files[n as int])
        }),
    decreases n,
{
    if n > 0 {
        lemma_course_keeps_old(kind, id, p, events, files, (n - 1) as nat);
        let (s, a) = course(kind, id, p, events, (n - 1) as nat);
        let e = events[n - 1];
        assert(happens(a, p, files[n - 1], files[n as int], e));
        if a is Finish {
        } else {
            lemma_next_keeps_old(
                s,
                a,
                p,
                files[0],
                files[n - 1],
                files[n as int],
                e,
                true,
            );
        }
    }
}

/// However an installation fails, in preparing, in unpacking, in finding, in
/// setting aside, in moving into place or in starting, what stood at the place of
/// the plugin before stands there at the end.
pub proof fn law_failed_install_restores(
    kind: InstallKind,
    id: Seq<char>,
    p: PathsView,
    events: Seq<EventView>,
    files: Seq<Files>,
    renames: bool,
)
    requires
        paths_apart(p),
        is_course(kind, id, p, events, files),
    ensures
        match course(kind, id, p, events, events.len()).1 {
            ActionView::Finish { steps, result, .. } => result is Err ==> held(
                after_steps(files[events.len() as int], steps, steps.len(), renames),
                p.actual,
            ) == held(files[0], p.actual),
            _ => true,
        },
{
    let n = events.len();
    if n > 0 {
        lemma_course_keeps_old(kind, id, p, events, files, (n - 1) as nat);
        let (s, a) = course(kind, id, p, events, (n - 1) as nat);
        assert(happens(a, p, files[n - 1], files[n as int], events[n - 1]));
        lemma_next_keeps_old(
            s,
            a,
            p,
            files[0],
            files[n - 1],
            files[n as int],
            events[n - 1],
            renames,
        );
    }
}

/// What an event says of how things went.
pub open spec fn outcome(e: EventView) -> Result<(), Seq<char>> {
    match e {
        EventView::Prepared(r) | EventView::Unpacked(r) | EventView::SetAside(r)
        | EventView::Placed(r) => r,
        EventView::Started(Ok(_)) => Ok(()),
        EventView::Started(Err(f)) => Err(f.1),
        EventView::Found(Ok(_)) => Ok(()),
        EventView::Found(Err(m)) => Err(m),
    }
}

/// What an action tells the user interface.
pub open spec fn told(a: ActionView) -> Option<PhaseView> {
    match a {
        ActionView::Prepare { tell, .. } => tell,
        ActionView::Finish { tell, .. } => tell,
        _ => None,
    }
}

/// The user interface is told first that the installation of a plugin has started,
/// and last that it has finished, with the error where there is one. Between the
/// two it is told nothing. An installation ends at the first thing that goes
/// wrong, with its message.
pub proof fn law_install_is_told(
    id: Seq<char>,
    p: PathsView,
    events: Seq<EventView>,
    files: Seq<Files>,
)
    requires
        paths_apart(p),
        is_course(InstallKind::Plugin, id, p, events, files),
    ensures
        told(course(InstallKind::Plugin, id, p, events, 0).1) == Some(PhaseView::Started),
        events.len() > 0 ==> ({
            let a = course(InstallKind::Plugin, id, p, events, events.len()).1;
            let r = outcome(events.last());
            match a {
                ActionView::Finish { tell, result, .. } => {
                    &&& result == r
                    &&& tell == Some(
                        PhaseView::Finished {
                            ok: r is Ok,
                            error: match r {
                                Ok(_) => None,
                                Err(m) => Some(m),
                            },
                        },
                    )
                },
                _ => r is Ok && told(a) is None,
            }
        }),
{
    if events.len() > 0 {
        let n = (events.len() - 1) as nat;
        lemma_course_keeps_old(InstallKind::Plugin, id, p, events, files, n);
        lemma_course_kind(InstallKind::Plugin, id, p, events, n);
        let (s, a) = course(InstallKind::Plugin, id, p, events, n);
        let e = events[n as int];
        assert(happens(a, p, files[n as int], files[n as int + 1], e));
        assert(events.last() == e);
        assert(course(InstallKind::Plugin, id, p, events, events.len()) == install_step(s, e, p));
        match outcome(e) {
            Ok(u) => {
                assert(u == ());
            },
            Err(_) => {},
        }
        assert(s.phase != InstallPhase::Over);
    }
}

proof fn lemma_course_kind(
    kind: InstallKind,
    id: Seq<char>,
    p: PathsView,
    events: Seq<EventView>,
    n: nat,
)
    ensures
        course(kind, id, p, events, n).0.kind == kind,
    decreases n,
{
    if 0 < n <= events.len() {
        lemma_course_kind(kind, id, p, events, (n - 1) as nat);
    }
}

/// Where a directory is moved into place and the installation ends well, all that
/// was found stands there, and nothing is left aside.
pub proof fn law_install_replaces(fs: Files, p: PathsView, found: Seq<char>, replaces: bool)
    requires
        paths_apart(p),
        lies_below(found, p.extract_root),
    ensures
        ({
            let aside = install::setting_aside(p, replaces);
            let cleared = after_steps(fs, aside, aside.len(), true);
            let placed = after_steps(cleared, install::placement(p, found), 2, true);
            let end = after_steps(placed, install::completion(p), 2, true);
            &&& held(placed, p.actual) == held(fs, found)
            &&& held(end, p.actual) == held(fs, found)
            &&& held(end, p.backup) == Map::<Seq<Seq<char>>, int>::empty()
            &&& held(end, p.extract_root) == Map::<Seq<Seq<char>>, int>::empty()
        }),
{
    reveal_with_fuel(after_steps, 4);
    lemma_below_is_apart(found, p.extract_root, p.backup);
    lemma_below_is_apart(found, p.extract_root, p.actual);
    let a = without(fs, p.backup);
    lemma_without_apart(fs, p.backup, found);
    lemma_moved_apart(a, p.actual, p.backup, found);
    let aside = install::setting_aside(p, replaces);
    let cleared = after_steps(fs, aside, aside.len(), true);
    assert(held(cleared, found) == held(fs, found));
    let place = install::placement(p, found);
    let placed = moved(cleared, found, p.actual);
    assert(after_steps(cleared, place, 2, true) == placed);
    law_moved_directory_is_there(cleared, found, p.actual);
    let x = without(placed, p.backup);
    let end = without(x, p.extract_root);
    assert(after_steps(placed, install::completion(p), 2, true) == end);
    lemma_without_apart(placed, p.backup, p.actual);
    lemma_without_apart(x, p.extract_root, p.actual);
    law_removed_directory_is_gone(placed, p.backup);
    lemma_without_apart(x, p.extract_root, p.backup);
    law_removed_directory_is_gone(x, p.extract_root);
}

/// What is found at the end of a way of names lies below the directory where the
/// way begins.
pub proof fn law_found_dir_lies_below(root: Seq<char>, way: Seq<Seq<char>>)
    requires
        forall|i: int| 0 <= i < way.len() ==> path::is_plain(#[trigger] way[i]),
    ensures
        lies_below(end_of_way(root, way), root),
    decreases way.len(),
{
    let r = path::path_components(root);
    if way.len() > 0 {
        law_found_dir_lies_below(root, way.drop_last());
        let before = end_of_way(root, way.drop_last());
        path::law_joined_components(before, way.last());
        let b = path::path_components(before);
        let all = b + text::split_on(way.last(), '/');
        assert(all.subrange(0, r.len() as int) =~= b.subrange(0, r.len() as int));
    } else {
        assert(r.subrange(0, r.len() as int) =~= r);
    }
}

proof fn lemma_replaced_has_none(s: Seq<char>, c: char, by: Seq<char>)
    requires
        !by.contains(c),
    ensures
        !text::replace_char(s, c, by).contains(c),
    decreases s.len(),
{
    if s.len() > 0 {
        lemma_replaced_has_none(s.drop_last(), c, by);
        let a = text::replace_char(s.drop_last(), c, by);
        let b = if s.last() == c {
            by
        } else {
            seq![s.last()]
        };
        assert forall|i: int| 0 <= i < (a + b).len() implies (a + b)[i] != c by {
            if i < a.len() {
                assert(a.contains(a[i]));
            } else if s.last() == c {
                assert(by.contains(b[i - a.len()]));
            }
        }
    }
}

/// The name of a directory for a time is one piece of a path, and begins as told.
proof fn lemma_temp_name(prefix: Seq<char>, id: Seq<char>, pid: u32)
    requires
        prefix.len() >= 2,
        !prefix.contains('/'),
    ensures
        ({
            let name = install::temp_name(prefix, id, pid);
            &&& path::is_plain(name)
            &&& text::split_on(name, '/') == seq![name]
            &&& prefix.is_prefix_of(name)
        }),
{
    let name = install::temp_name(prefix, id, pid);
    let flat = text::replace_char(id, '/', "_"@);
    reveal_strlit("_");
    assert(!"_"@.contains('/'));
    lemma_replaced_has_none(id, '/', "_"@);
    text::lemma_decimal(pid as nat);
    let d = text::decimal(pid as nat);
    assert forall|i: int| 0 <= i < name.len() implies name[i] != '/' by {
        let n = prefix.len();
        let m = n + flat.len();
        if i < n {
            assert(prefix.contains(prefix[i]));
        } else if i < m {
            assert(name[i] == flat[i - n]);
            assert(flat.contains(flat[i - n]));
        } else if i == m {
            assert(name[i] == '_');
        } else {
            assert(name[i] == d[i - m - 1]);
            assert(text::is_digit(d[i - m - 1]));
        }
    }
    assert(!name.contains('/'));
    text::lemma_split_on_none(name, '/');
    assert(text::split_on(name, '/') =~= seq![name]);
    assert(name.subrange(0, prefix.len() as int) =~= prefix);
    assert(name != seq!['.']);
}

proof fn lemma_apart_from(c: Seq<Seq<char>>, x: Seq<Seq<char>>, y: Seq<Seq<char>>)
    requires
        x.len() > 0,
        y.len() > 0,
        x[0] != y[0] || (x.len() == 2 && y.len() == 2 && x[1] != y[1]),
    ensures
        !(c + x).is_prefix_of(c + y),
        !(c + y).is_prefix_of(c + x),
{
    let n = c.len() as int;
    if (c + x).is_prefix_of(c + y) {
        assert((c + y).subrange(0, (c + x).len() as int)[n] == (c + x)[n]);
        if x.len() == 2 && y.len() == 2 {
            assert((c + y).subrange(0, (c + x).len() as int)[n + 1] == (c + x)[n + 1]);
        }
    }
    if (c + y).is_prefix_of(c + x) {
        assert((c + x).subrange(0, (c + y).len() as int)[n] == (c + y)[n]);
        if x.len() == 2 && y.len() == 2 {
            assert((c + x).subrange(0, (c + y).len() as int)[n + 1] == (c + y)[n + 1]);
        }
    }
}

/// The directories of an installation lie apart, for every id that is a plain
/// path.
pub proof fn law_install_paths_are_apart(
    config_dir: Seq<char>,
    kind: Seq<char>,
    tag: Seq<char>,
    id: Seq<char>,
    pid: u32,
)
    requires
        kind == "plugins"@ || kind == "icon_packs"@,
        !tag.contains('/'),
        path::is_plain(id),
    ensures
        paths_apart(install::paths_for(config_dir, kind, tag, id, pid)),
{
    let p = install::paths_for(config_dir, kind, tag, id, pid);
    let c = path::path_components(config_dir);
    reveal_strlit("plugins");
    reveal_strlit("icon_packs");
    reveal_strlit("temp");
    reveal_strlit("extract_");
    reveal_strlit("backup_");
    reveal_strlit("bad_");
    text::lemma_split_on_none(kind, '/');
    text::lemma_split_on_none("temp"@, '/');
    assert(text::split_on(kind, '/') =~= seq![kind]);
    assert(text::split_on("temp"@, '/') =~= seq!["temp"@]);
    assert(path::is_plain(kind));
    assert(path::is_plain("temp"@));
    assert(kind[0] != "temp"@[0]);
    path::law_joined_components(config_dir, kind);
    path::law_joined_components(config_dir, "temp"@);
    path::law_joined_components(p.parent, id);
    let pieces = text::split_on(id, '/');
    assert(path::path_components(p.actual) =~= c + (seq![kind] + pieces));
    let prefixes = seq!["extract_"@ + tag, "backup_"@ + tag, "bad_"@ + tag];
    assert forall|i: int| 0 <= i < 3 implies !(#[trigger] prefixes[i]).contains('/')
        && prefixes[i].len() >= 2 by {
        let head = if i == 0 {
            "extract_"@
        } else if i == 1 {
            "backup_"@
        } else {
            "bad_"@
        };
        assert(!head.contains('/'));
        assert forall|k: int| 0 <= k < prefixes[i].len() implies prefixes[i][k] != '/' by {
            if k < head.len() {
                assert(prefixes[i][k] == head[k]);
                assert(head.contains(head[k]));
            } else {
                assert(prefixes[i][k] == tag[k - head.len()]);
                assert(tag.contains(tag[k - head.len()]));
            }
        }
    }
    let e = install::temp_name(prefixes[0], id, pid);
    let b = install::temp_name(prefixes[1], id, pid);
    let x = install::temp_name(prefixes[2], id, pid);
    lemma_temp_name(prefixes[0], id, pid);
    lemma_temp_name(prefixes[1], id, pid);
    lemma_temp_name(prefixes[2], id, pid);
    path::law_joined_components(p.temp_root, e);
    path::law_joined_components(p.temp_root, b);
    path::law_joined_components(p.temp_root, x);
    assert(path::path_components(p.extract_root) =~= c + seq!["temp"@, e]);
    assert(path::path_components(p.backup) =~= c + seq!["temp"@, b]);
    assert(path::path_components(p.bad) =~= c + seq!["temp"@, x]);
    assert(e.subrange(0, prefixes[0].len() as int)[0] == 'e');
    assert(b.subrange(0, prefixes[1].len() as int)[0] == 'b');
    assert(b.subrange(0, prefixes[1].len() as int)[2] == 'c');
    assert(x.subrange(0, prefixes[2].len() as int)[0] == 'b');
    assert(x.subrange(0, prefixes[2].len() as int)[2] == 'd');
    assert(e[0] == 'e' && b[0] == 'b' && b[2] == 'c' && x[0] == 'b' && x[2] == 'd');
    let actual = seq![kind] + pieces;
    lemma_apart_from(c, actual, seq!["temp"@, e]);
    lemma_apart_from(c, actual, seq!["temp"@, b]);
    lemma_apart_from(c, actual, seq!["temp"@, x]);
    lemma_apart_from(c, seq!["temp"@, b], seq!["temp"@, x]);
    lemma_apart_from(c, seq!["temp"@, b], seq!["temp"@, e]);
}

/// An installation goes through its phases in their order as long as each goes well,
/// and ends well then: a plugin once it has started, an icon pack once it is in place.
pub proof fn law_install_goes_through(
    kind: InstallKind,
    id: Seq<char>,
    p: PathsView,
    found: Seq<char>,
    replaces: bool,
)
    ensures
        ({
            let s0 = first_step(kind, id, p).0;
            let s1 = install_step(s0, EventView::Prepared(Ok(())), p);
            let s2 = install_step(s1.0, EventView::Unpacked(Ok(())), p);
            let s3 = install_step(s2.0, EventView::Found(Ok((found, replaces))), p);
            let s4 = install_step(s3.0, EventView::SetAside(Ok(())), p);
            let s5 = install_step(s4.0, EventView::Placed(Ok(())), p);
            let s6 = install_step(s5.0, EventView::Started(Ok(())), p);
            &&& s1.1 == ActionView::Unpack(p.extract_root)
            &&& s2.1 == (ActionView::Find { below: p.extract_root, name: id })
            &&& s3.1 == ActionView::SetAside(install::setting_aside(p, replaces))
            &&& s4.1 == ActionView::Place(install::placement(p, found))
            &&& kind == InstallKind::Plugin ==> s5.1 == ActionView::Start(p.actual) && (
            s6.1 matches ActionView::Finish { steps, result, .. } && result is Ok && steps
                == install::completion(p))
            &&& kind != InstallKind::Plugin ==> (s5.1 matches ActionView::Finish {
                steps,
                result,
                tell,
            } && result is Ok && tell is None && steps == install::completion(p))
        }),
{
}

} // verus!
