use notemancy_content::error::ContentError;
use notemancy_content::save::{step, SaveAction, SaveEvent, SaveState, Signal, Surface};

fn run(surface: Surface, events: Vec<SaveEvent>) -> (SaveState, Vec<SaveAction>) {
    let mut state = SaveState::Idle;
    let mut actions = Vec::new();
    for event in events {
        let (next, action) = step(surface, state, event);
        state = next;
        actions.push(action);
    }
    (state, actions)
}

#[test]
fn a_desktop_write_is_announced_and_confirmed() {
    let (state, actions) = run(
        Surface::Desktop,
        vec![SaveEvent::Requested, SaveEvent::Delivered, SaveEvent::Written, SaveEvent::Delivered],
    );
    assert_eq!(state, SaveState::Saved);
    assert_eq!(
        actions,
        vec![
            SaveAction::Emit(Signal::FileSaving),
            SaveAction::Write,
            SaveAction::Emit(Signal::FileSaved),
            SaveAction::Finish(Ok(())),
        ]
    );
}

#[test]
fn an_http_write_emits_nothing() {
    let (state, actions) = run(Surface::Http, vec![SaveEvent::Requested, SaveEvent::Written]);
    assert_eq!(state, SaveState::Saved);
    assert_eq!(actions, vec![SaveAction::Write, SaveAction::Finish(Ok(()))]);
}

#[test]
fn a_failed_write_is_never_confirmed() {
    let error = ContentError::CollaboratorError("read-only file system".to_string());
    let (state, actions) = run(
        Surface::Desktop,
        vec![
            SaveEvent::Requested,
            SaveEvent::Delivered,
            SaveEvent::Unwritten(error.clone()),
            SaveEvent::Delivered,
            SaveEvent::Written,
        ],
    );
    assert_eq!(state, SaveState::Failed);
    assert_eq!(
        actions,
        vec![
            SaveAction::Emit(Signal::FileSaving),
            SaveAction::Write,
            SaveAction::Finish(Err(error)),
            SaveAction::Ignore,
            SaveAction::Ignore,
        ]
    );
    assert!(!actions.contains(&SaveAction::Emit(Signal::FileSaved)));
}

#[test]
fn a_failed_http_write_reports_its_error() {
    let (state, actions) =
        run(Surface::Http, vec![SaveEvent::Requested, SaveEvent::Unwritten(ContentError::InvalidTarget)]);
    assert_eq!(state, SaveState::Failed);
    assert_eq!(actions, vec![SaveAction::Write, SaveAction::Finish(Err(ContentError::InvalidTarget))]);
}

#[test]
fn an_announcement_that_fails_skips_the_write() {
    let (state, actions) = run(
        Surface::Desktop,
        vec![SaveEvent::Requested, SaveEvent::Undelivered("no listener".to_string()), SaveEvent::Written],
    );
    assert_eq!(state, SaveState::Failed);
    assert_eq!(
        actions,
        vec![
            SaveAction::Emit(Signal::FileSaving),
            SaveAction::Finish(Err(ContentError::SignalingFailure("no listener".to_string()))),
            SaveAction::Ignore,
        ]
    );
    assert!(!actions.contains(&SaveAction::Write));
}

#[test]
fn a_confirmation_that_fails_is_reported() {
    let (state, actions) = run(
        Surface::Desktop,
        vec![
            SaveEvent::Requested,
            SaveEvent::Delivered,
            SaveEvent::Written,
            SaveEvent::Undelivered("closed".to_string()),
        ],
    );
    assert_eq!(state, SaveState::Failed);
    assert_eq!(
        actions[3],
        SaveAction::Finish(Err(ContentError::SignalingFailure("closed".to_string())))
    );
}

#[test]
fn events_out_of_turn_are_ignored() {
    assert_eq!(
        step(Surface::Desktop, SaveState::Idle, SaveEvent::Written),
        (SaveState::Idle, SaveAction::Ignore)
    );
    assert_eq!(
        step(Surface::Desktop, SaveState::Announcing, SaveEvent::Requested),
        (SaveState::Announcing, SaveAction::Ignore)
    );
    assert_eq!(
        step(Surface::Desktop, SaveState::Writing, SaveEvent::Delivered),
        (SaveState::Writing, SaveAction::Ignore)
    );
    assert_eq!(
        step(Surface::Desktop, SaveState::Confirming, SaveEvent::Written),
        (SaveState::Confirming, SaveAction::Ignore)
    );
    assert_eq!(
        step(Surface::Http, SaveState::Saved, SaveEvent::Requested),
        (SaveState::Saved, SaveAction::Ignore)
    );
    assert_eq!(
        step(Surface::Http, SaveState::Failed, SaveEvent::Requested),
        (SaveState::Failed, SaveAction::Ignore)
    );
}

#[test]
fn signals_have_their_names() {
    assert_eq!(Signal::FileSaving.name(), "file-saving");
    assert_eq!(Signal::FileSaved.name(), "file-saved");
}
