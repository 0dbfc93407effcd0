//! What the user interface is told.
use vstd::prelude::*;
use crate::shared::{ActionContext, Context};
use crate::text;

verus! {

/// How far an installation has come.
pub enum PluginInstallPhase {
    Started,
    Finished { ok: bool, error: Option<String> },
}

/// The model of a `PluginInstallPhase`.
pub enum PhaseView {
    Started,
    Finished { ok: bool, error: Option<Seq<char>> },
}

impl View for PluginInstallPhase {
    type V = PhaseView;

    open spec fn view(&self) -> PhaseView {
        match self {
            PluginInstallPhase::Started => PhaseView::Started,
            PluginInstallPhase::Finished { ok, error } => PhaseView::Finished {
                ok: *ok,
                error: text::opt_text(*error),
            },
        }
    }
}

/// The model of a phase that there may be.
pub open spec fn opt_phase(p: Option<PluginInstallPhase>) -> Option<PhaseView> {
    match p {
        Some(p) => Some(p@),
        None => None,
    }
}

/// What the user interface is told.
#[allow(inconsistent_fields)]
pub enum UiEvent {
    DevicesUpdated,
    ApplicationsUpdated { applications: Vec<String> },
    SwitchProfile { device: String, profile: String },
    KeyMoved { context: Context, down: bool },
    ActionStateChanged { context: ActionContext },
    ShowAlert { context: Context },
    ShowOk { context: Context },
    DeviceBrightness { action: String, value: u8 },
    /// The images of a device are to be drawn again, for example after it was
    /// connected.
    RerenderImages { device: String },
    PluginInstall { id: String, phase: PluginInstallPhase },
}

/// The events that wait for the user interface; `None` before it has come up.
pub struct UiEvents {
    pub waiting: Option<Vec<UiEvent>>,
}

impl UiEvents {
    /// The user interface has come up. Only the first call has an effect.
    pub fn init(&mut self)
        ensures
            final(self).waiting is Some,
            old(self).waiting is Some ==> *final(self) == *old(self),
            old(self).waiting is None ==> final(self).waiting->0@.len() == 0,
    {
        if self.waiting.is_none() {
            self.waiting = Some(Vec::new());
        }
    }
}

/// Tells the user interface; nothing happens before it has come up.
pub fn emit(events: &mut UiEvents, event: UiEvent)
    ensures
        old(events).waiting is None ==> *final(events) == *old(events),
        old(events).waiting is Some ==> final(events).waiting is Some
            && final(events).waiting->0@ == old(events).waiting->0@.push(event),
{
    match &mut events.waiting {
        Some(waiting) => waiting.push(event),
        None => {},
    }
}

} // verus!
