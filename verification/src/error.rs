//! The failures the engine reports.

use vstd::prelude::*;
use crate::support::KeySet;

verus! {

/// Why an operation of the machine failed. Failures are surfaced at once and
/// never retried.
#[derive(Debug)]
#[non_exhaustive]
pub enum Error {
    /// A trigger was raised while a synchronous transition was in flight, or
    /// another fault of the dispatch discipline.
    MachineError(String),
    /// A per-transition argument list is neither a single value nor as long
    /// as the number of transitions.
    ArgumentsError,
    /// Arguments that no constructor in the chain consumed.
    InheritanceError(KeySet, String),
    /// A model was bound without an initial state, and the machine has none.
    InitialStateError,
    /// The named state is not registered with the machine.
    RegisteredStateError(String),
    /// The machine knows no event of this name.
    UnknownEventError(String),
    /// The event (first) has no transition from the model's state (second).
    UnknownTriggerError(String, String),
    /// The trigger's name is the name of the model's state attribute.
    TriggerNameError(String),
    /// Ordered transitions were asked for over fewer than two states.
    InsufficientStatesError,
    /// The host could not resolve the callback identifier.
    CallableError(String),
    /// The state has not been added to the machine.
    UnknownStateError(String),
    /// The machine has no such attribute.
    MachineAttributeError(String, String),
    /// The event named in an attribute is not registered.
    MachineEventAttributeError(String, String),
}

/// An [`Error`] with its texts as mathematical sequences.
pub enum ErrorView {
    MachineError(Seq<char>),
    ArgumentsError,
    InheritanceError(Seq<Seq<char>>, Seq<char>),
    InitialStateError,
    RegisteredStateError(Seq<char>),
    UnknownEventError(Seq<char>),
    UnknownTriggerError(Seq<char>, Seq<char>),
    TriggerNameError(Seq<char>),
    InsufficientStatesError,
    CallableError(Seq<char>),
    UnknownStateError(Seq<char>),
    MachineAttributeError(Seq<char>, Seq<char>),
    MachineEventAttributeError(Seq<char>, Seq<char>),
}

impl View for Error {
    type V = ErrorView;

    open spec fn view(&self) -> ErrorView {
        match self {
            Error::MachineError(m) => ErrorView::MachineError(m@),
            Error::ArgumentsError => ErrorView::ArgumentsError,
            Error::InheritanceError(k, m) => ErrorView::InheritanceError(k@, m@),
            Error::InitialStateError => ErrorView::InitialStateError,
            Error::RegisteredStateError(s) => ErrorView::RegisteredStateError(s@),
            Error::UnknownEventError(e) => ErrorView::UnknownEventError(e@),
            Error::UnknownTriggerError(e, s) => ErrorView::UnknownTriggerError(e@, s@),
            Error::TriggerNameError(t) => ErrorView::TriggerNameError(t@),
            Error::InsufficientStatesError => ErrorView::InsufficientStatesError,
            Error::CallableError(c) => ErrorView::CallableError(c@),
            Error::UnknownStateError(s) => ErrorView::UnknownStateError(s@),
            Error::MachineAttributeError(a, m) => ErrorView::MachineAttributeError(a@, m@),
            Error::MachineEventAttributeError(e, m) => ErrorView::MachineEventAttributeError(e@, m@),
        }
    }
}

impl Clone for Error {
    fn clone(&self) -> (r: Self)
        ensures
            r@ == self@,
    {
        match self {
            Error::MachineError(m) => Error::MachineError(m.clone()),
            Error::ArgumentsError => Error::ArgumentsError,
            Error::InheritanceError(k, m) => Error::InheritanceError(k.clone(), m.clone()),
            Error::InitialStateError => Error::InitialStateError,
            Error::RegisteredStateError(s) => Error::RegisteredStateError(s.clone()),
            Error::UnknownEventError(e) => Error::UnknownEventError(e.clone()),
            Error::UnknownTriggerError(e, s) => Error::UnknownTriggerError(e.clone(), s.clone()),
            Error::TriggerNameError(t) => Error::TriggerNameError(t.clone()),
            Error::InsufficientStatesError => Error::InsufficientStatesError,
            Error::CallableError(c) => Error::CallableError(c.clone()),
            Error::UnknownStateError(s) => Error::UnknownStateError(s.clone()),
            Error::MachineAttributeError(a, m) => Error::MachineAttributeError(a.clone(), m.clone()),
            Error::MachineEventAttributeError(e, m) => Error::MachineEventAttributeError(
                e.clone(),
                m.clone(),
            ),
        }
    }
}

/// The outcome of an operation, with the error's texts as sequences.
pub open spec fn outcome_view<T>(r: Result<T, Error>) -> Result<T, ErrorView> {
    match r {
        Ok(v) => Ok(v),
        Err(e) => Err(e@),
    }
}

} // verus!
