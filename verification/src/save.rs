//! The save lifecycle of one write: which signal or write comes next, given
//! what has happened so far. The caller performs each action and reports
//! its outcome as the next event.

use crate::error::ContentError;
use vstd::prelude::*;

verus! {

/// The front end through which a write arrives.
#[derive(Clone, Copy, Debug, PartialEq, Eq)]
pub enum Surface {
    /// The desktop command surface, whose writes are announced to the UI.
    Desktop,
    /// The HTTP surface, whose writes emit no signal.
    Http,
}

/// A lifecycle signal to the UI.
#[derive(Clone, Copy, Debug, PartialEq, Eq)]
pub enum Signal {
    FileSaving,
    FileSaved,
}

/// Where a write stands.
#[derive(Clone, Copy, Debug, PartialEq, Eq)]
pub enum SaveState {
    /// Nothing has been asked for yet.
    Idle,
    /// Saving: `file-saving` is being emitted.
    Announcing,
    /// Saving: the document store is writing.
    Writing,
    /// The write is done and `file-saved` is being emitted.
    Confirming,
    /// The operation has ended well.
    Saved,
    /// The operation has ended with an error.
    Failed,
}

/// What happened outside.
#[derive(Clone, Debug, PartialEq, Eq)]
pub enum SaveEvent {
    /// A write was asked for.
    Requested,
    /// The signal in flight reached the UI.
    Delivered,
    /// The signal in flight could not be emitted, for the reason given.
    Undelivered(String),
    /// The document store wrote the document.
    Written,
    /// The document store failed, or the write had no target.
    Unwritten(ContentError),
}

/// What the caller is to do next.
#[derive(Debug, PartialEq, Eq)]
pub enum SaveAction {
    /// Emit the signal, then report `Delivered` or `Undelivered`.
    Emit(Signal),
    /// Hand the write to the document store, then report `Written` or
    /// `Unwritten`.
    Write,
    /// The operation is over: hand the result to the caller.
    Finish(Result<(), ContentError>),
    /// The event does not belong to the state: nothing to do.
    Ignore,
}

/// The state and the action that follow an event.
///
/// A desktop write is announced before it is attempted and confirmed after
/// it succeeded; an HTTP write is attempted at once. A signal that cannot
/// be emitted ends the operation with `SignalingFailure`: before the
/// write, the write is not attempted. A failed write ends the operation
/// with its error and no further signal.
pub open spec fn next(surface: Surface, state: SaveState, event: SaveEvent) -> (
    SaveState,
    SaveAction,
) {
    match (state, event) {
        (SaveState::Idle, SaveEvent::Requested) => match surface {
            Surface::Desktop => (SaveState::Announcing, SaveAction::Emit(Signal::FileSaving)),
            Surface::Http => (SaveState::Writing, SaveAction::Write),
        },
        (SaveState::Announcing, SaveEvent::Delivered) => (SaveState::Writing, SaveAction::Write),
        (SaveState::Announcing, SaveEvent::Undelivered(reason)) => (
            SaveState::Failed,
            SaveAction::Finish(Err(ContentError::SignalingFailure(reason))),
        ),
        (SaveState::Writing, SaveEvent::Written) => match surface {
            Surface::Desktop => (SaveState::Confirming, SaveAction::Emit(Signal::FileSaved)),
            Surface::Http => (SaveState::Saved, SaveAction::Finish(Ok(()))),
        },
        (SaveState::Writing, SaveEvent::Unwritten(error)) => (
            SaveState::Failed,
            SaveAction::Finish(Err(error)),
        ),
        (SaveState::Confirming, SaveEvent::Delivered) => (
            SaveState::Saved,
            SaveAction::Finish(Ok(())),
        ),
        (SaveState::Confirming, SaveEvent::Undelivered(reason)) => (
            SaveState::Failed,
            SaveAction::Finish(Err(ContentError::SignalingFailure(reason))),
        ),
        _ => (state, SaveAction::Ignore),
    }
}

/// The state after a sequence of events, from `Idle`.
pub open spec fn state_after(surface: Surface, events: Seq<SaveEvent>) -> SaveState
    decreases events.len(),
{
    if events.len() == 0 {
        SaveState::Idle
    } else {
        next(surface, state_after(surface, events.drop_last()), events.last()).0
    }
}

/// The action that answers the event at index `i` of a run from `Idle`.
pub open spec fn action_at(surface: Surface, events: Seq<SaveEvent>, i: int) -> SaveAction
    recommends
        0 <= i < events.len(),
{
    next(surface, state_after(surface, events.take(i)), events[i]).1
}

/// The name under which a signal is emitted.
pub open spec fn signal_name(signal: Signal) -> Seq<char> {
    match signal {
        Signal::FileSaving => "file-saving"@,
        Signal::FileSaved => "file-saved"@,
    }
}

impl Signal {
    /// The name under which the signal is emitted.
    pub fn name(&self) -> (name: &'static str)
        ensures
            name@ == signal_name(*self),
    {
        match self {
            Signal::FileSaving => "file-saving",
            Signal::FileSaved => "file-saved",
        }
    }
}

/// Advances a write by one event: gives the state that follows and what the
/// caller is to do next.
pub fn step(surface: Surface, state: SaveState, event: SaveEvent) -> (r: (SaveState, SaveAction))
    ensures
        r == next(surface, state, event),
{
    match state {
        SaveState::Idle => match event {
            SaveEvent::Requested => match surface {
                Surface::Desktop => (SaveState::Announcing, SaveAction::Emit(Signal::FileSaving)),
                Surface::Http => (SaveState::Writing, SaveAction::Write),
            },
            _ => (state, SaveAction::Ignore),
        },
        SaveState::Announcing => match event {
            SaveEvent::Delivered => (SaveState::Writing, SaveAction::Write),
            SaveEvent::Undelivered(reason) => (
                SaveState::Failed,
                SaveAction::Finish(Err(ContentError::SignalingFailure(reason))),
            ),
            _ => (state, SaveAction::Ignore),
        },
        SaveState::Writing => match event {
            SaveEvent::Written => match surface {
                Surface::Desktop => (SaveState::Confirming, SaveAction::Emit(Signal::FileSaved)),
                Surface::Http => (SaveState::Saved, SaveAction::Finish(Ok(()))),
            },
            SaveEvent::Unwritten(error) => (SaveState::Failed, SaveAction::Finish(Err(error))),
            _ => (state, SaveAction::Ignore),
        },
        SaveState::Confirming => match event {
            SaveEvent::Delivered => (SaveState::Saved, SaveAction::Finish(Ok(()))),
            SaveEvent::Undelivered(reason) => (
                SaveState::Failed,
                SaveAction::Finish(Err(ContentError::SignalingFailure(reason))),
            ),
            _ => (state, SaveAction::Ignore),
        },
        _ => (state, SaveAction::Ignore),
    }
}

/// Whether the run holds a write that the document store failed: an
/// `Unwritten` event that arrives while the write is under way.
pub open spec fn write_failed(surface: Surface, events: Seq<SaveEvent>) -> bool {
    exists|i: int|
        0 <= i < events.len() && state_after(surface, events.take(i)) == SaveState::Writing
            && #[trigger] events[i] is Unwritten
}

/// The states in which `file-saved` has not been asked for, nor can be
/// any more once the write has failed.
pub open spec fn before_confirmation(state: SaveState) -> bool {
    state == SaveState::Idle || state == SaveState::Announcing || state == SaveState::Writing
        || state == SaveState::Failed
}

/// The states in which no signal is in flight.
pub open spec fn signal_free(state: SaveState) -> bool {
    state != SaveState::Announcing && state != SaveState::Confirming
}

/// On the HTTP surface no signal is ever in flight.
pub proof fn lemma_http_emits_nothing(events: Seq<SaveEvent>)
    ensures
        signal_free(state_after(Surface::Http, events)),
        forall|j: int|
            0 <= j < events.len() ==> !(#[trigger] action_at(Surface::Http, events, j) is Emit),
    decreases events.len(),
{
    if events.len() > 0 {
        let front = events.drop_last();
        lemma_http_emits_nothing(front);
        let last_state = state_after(Surface::Http, front);
        lemma_next_cases(Surface::Http, last_state, events.last());
        assert forall|j: int| 0 <= j < events.len() implies !(#[trigger] action_at(
            Surface::Http,
            events,
            j,
        ) is Emit) by {
            if j < events.len() - 1 {
                assert(front.take(j) =~= events.take(j));
                assert(front[j] == events[j]);
                assert(action_at(Surface::Http, front, j) == action_at(Surface::Http, events, j));
            } else {
                assert(events.take(j) =~= front);
            }
        }
    }
}

/// What one step can and cannot do, case by case.
proof fn lemma_next_cases(surface: Surface, state: SaveState, event: SaveEvent)
    ensures
        next(surface, state, event).1 == SaveAction::Emit(Signal::FileSaved) ==> surface
            == Surface::Desktop && state == SaveState::Writing && event == SaveEvent::Written,
        next(surface, state, event).1 == SaveAction::Write ==> (state == SaveState::Announcing
            && event == SaveEvent::Delivered) || (surface == Surface::Http && state
            == SaveState::Idle && event == SaveEvent::Requested),
        surface == Surface::Http && signal_free(state) ==> !(next(surface, state, event).1 is Emit),
        next(surface, state, event).1 == SaveAction::Emit(Signal::FileSaved) ==> next(
            surface,
            state,
            event,
        ).0 == SaveState::Confirming,
        surface == Surface::Http && signal_free(state) ==> signal_free(
            next(surface, state, event).0,
        ),
        before_confirmation(next(surface, state, event).0) && next(surface, state, event).0
            != SaveState::Failed ==> before_confirmation(state) && state != SaveState::Failed,
        state == SaveState::Saved || state == SaveState::Failed ==> next(surface, state, event) == (
            state,
            SaveAction::Ignore,
        ),
        state == SaveState::Writing && event is Unwritten ==> next(surface, state, event).0
            == SaveState::Failed,
{
    match state {
        SaveState::Idle => match event {
            SaveEvent::Requested => {},
            _ => {},
        },
        SaveState::Announcing => match event {
            SaveEvent::Delivered => {},
            SaveEvent::Undelivered(_) => {},
            _ => {},
        },
        SaveState::Writing => match event {
            SaveEvent::Written => {},
            SaveEvent::Unwritten(_) => {},
            _ => {},
        },
        SaveState::Confirming => match event {
            SaveEvent::Delivered => {},
            SaveEvent::Undelivered(_) => {},
            _ => {},
        },
        _ => {},
    }
}

/// `file-saved` is asked for only in answer to a successful write on the
/// desktop surface.
pub proof fn lemma_saved_signal_answers_write(surface: Surface, events: Seq<SaveEvent>, i: int)
    requires
        0 <= i < events.len(),
        action_at(surface, events, i) == SaveAction::Emit(Signal::FileSaved),
    ensures
        surface == Surface::Desktop,
        state_after(surface, events.take(i)) == SaveState::Writing,
        events[i] == SaveEvent::Written,
{
    lemma_next_cases(surface, state_after(surface, events.take(i)), events[i]);
}

/// A write is attempted only once `file-saving` has been delivered, or at
/// once on the HTTP surface: never after a signal failed.
pub proof fn lemma_write_follows_announcement(surface: Surface, events: Seq<SaveEvent>, i: int)
    requires
        0 <= i < events.len(),
        action_at(surface, events, i) == SaveAction::Write,
    ensures
        match surface {
            Surface::Desktop => state_after(surface, events.take(i)) == SaveState::Announcing
                && events[i] == SaveEvent::Delivered,
            Surface::Http => state_after(surface, events.take(i)) == SaveState::Idle && events[i]
                == SaveEvent::Requested,
        },
{
    lemma_next_cases(surface, state_after(surface, events.take(i)), events[i]);
    if surface == Surface::Http {
        lemma_http_emits_nothing(events.take(i));
    }
}

/// Once a write has ended, in `Saved` or in `Failed`, no event moves it.
pub proof fn lemma_ended_stays(surface: Surface, events: Seq<SaveEvent>, i: int)
    requires
        0 <= i <= events.len(),
        state_after(surface, events.take(i)) == SaveState::Saved || state_after(
            surface,
            events.take(i),
        ) == SaveState::Failed,
    ensures
        state_after(surface, events) == state_after(surface, events.take(i)),
        forall|j: int| i <= j < events.len() ==> action_at(surface, events, j) == SaveAction::Ignore,
    decreases events.len() - i,
{
    if i == events.len() {
        assert(events.take(i) =~= events);
    } else {
        assert(events.take(i + 1).drop_last() =~= events.take(i));
        assert(events.take(i + 1).last() == events[i]);
        lemma_next_cases(surface, state_after(surface, events.take(i)), events[i]);
        lemma_ended_stays(surface, events, i + 1);
        assert forall|j: int| i <= j < events.len() implies action_at(surface, events, j)
            == SaveAction::Ignore by {
            if j == i {
            }
        }
    }
}

/// Where the document store fails a write, `file-saved` is never asked
/// for: not before the failure, and not after it.
pub proof fn lemma_failed_write_is_never_confirmed(surface: Surface, events: Seq<SaveEvent>)
    requires
        write_failed(surface, events),
    ensures
        forall|j: int|
            0 <= j < events.len() ==> action_at(surface, events, j) != SaveAction::Emit(
                Signal::FileSaved,
            ),
        state_after(surface, events) == SaveState::Failed,
{
    let i = choose|i: int|
        0 <= i < events.len() && state_after(surface, events.take(i)) == SaveState::Writing
            && #[trigger] events[i] is Unwritten;
    assert(events.take(i + 1).drop_last() =~= events.take(i));
    assert(events.take(i + 1).last() == events[i]);
    lemma_next_cases(surface, state_after(surface, events.take(i)), events[i]);
    assert(state_after(surface, events.take(i + 1)) == SaveState::Failed);
    lemma_ended_stays(surface, events, i + 1);
    lemma_writing_is_first(surface, events.take(i));
    assert forall|j: int| 0 <= j < events.len() implies action_at(surface, events, j)
        != SaveAction::Emit(Signal::FileSaved) by {
        if j < i {
            assert(events.take(i).take(j) =~= events.take(j));
            assert(events.take(i)[j] == events[j]);
            assert(action_at(surface, events.take(i), j) == action_at(surface, events, j));
        } else if j == i {
        } else {
            assert(action_at(surface, events, j) == SaveAction::Ignore);
        }
    }
}

/// A run that stands in `Writing` has asked for no `file-saved` yet: every
/// state on the way came before the confirmation.
proof fn lemma_writing_is_first(surface: Surface, events: Seq<SaveEvent>)
    requires
        before_confirmation(state_after(surface, events)),
        state_after(surface, events) != SaveState::Failed,
    ensures
        forall|j: int|
            0 <= j < events.len() ==> action_at(surface, events, j) != SaveAction::Emit(
                Signal::FileSaved,
            ),
    decreases events.len(),
{
    if events.len() > 0 {
        let front = events.drop_last();
        assert(events.take(events.len() - 1) =~= front);
        lemma_next_cases(surface, state_after(surface, front), events.last());
        lemma_writing_is_first(surface, front);
        assert forall|j: int| 0 <= j < events.len() implies action_at(surface, events, j)
            != SaveAction::Emit(Signal::FileSaved) by {
            if j < events.len() - 1 {
                assert(front.take(j) =~= events.take(j));
                assert(front[j] == events[j]);
                assert(action_at(surface, front, j) == action_at(surface, events, j));
            } else {
                assert(events.take(j) =~= front);
            }
        }
    }
}

} // verus!
