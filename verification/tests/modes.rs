use game_of_life::state::State;

#[test]
fn start_deploys_only_from_draft() {
    assert_eq!(State::Draft.start(), State::Running);
    assert_eq!(State::Running.start(), State::Running);
    assert_eq!(State::RunningPaused.start(), State::RunningPaused);
}

#[test]
fn pause_toggles_between_running_and_paused() {
    assert_eq!(State::Running.toggle_pause(), State::RunningPaused);
    assert_eq!(State::RunningPaused.toggle_pause(), State::Running);
    assert_eq!(State::Draft.toggle_pause(), State::Draft);
}

#[test]
fn reset_returns_to_draft_and_clears_only_from_draft() {
    assert_eq!(State::Running.reset(), (State::Draft, false));
    assert_eq!(State::RunningPaused.reset(), (State::Draft, false));
    assert_eq!(State::Draft.reset(), (State::Draft, true));
}

#[test]
fn editing_is_allowed_only_while_drafting() {
    assert!(State::Draft.allows_editing());
    assert!(!State::Running.allows_editing());
    assert!(!State::RunningPaused.allows_editing());
}

#[test]
fn generations_tick_only_while_running() {
    assert!(!State::Draft.is_running());
    assert!(State::Running.is_running());
    assert!(!State::RunningPaused.is_running());
}
