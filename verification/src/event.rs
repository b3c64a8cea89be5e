//! Kinds of filesystem change notifications, and which of them may
//! trigger a restart.

use vstd::prelude::*;

verus! {

/// The kind of a filesystem change notification, as delivered by the
/// watch mechanism. Only the kind matters to the restart logic; the
/// affected paths are irrelevant.
#[derive(Clone, Copy, Debug, PartialEq, Eq, Structural)]
pub enum EventKind {
    Create,
    Modify,
    Remove,
    Other,
}

/// Create, Modify and Remove events are restart triggers; any other
/// kind is discarded without effect.
pub open spec fn is_trigger(kind: EventKind) -> bool {
    kind != EventKind::Other
}

impl EventKind {
    /// Decides whether this event kind is a restart trigger.
    pub fn triggers(&self) -> (r: bool)
        ensures
            r == is_trigger(*self),
    {
        match self {
            EventKind::Create => true,
            EventKind::Modify => true,
            EventKind::Remove => true,
            EventKind::Other => false,
        }
    }
}

} // verus!
