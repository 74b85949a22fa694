use pvp::lobby::{ReadyState, STARTUP_COUNTDOWN};

#[test]
fn lobby_starts_awaiting_clients() {
    let state = ReadyState::default();
    assert_eq!(state, ReadyState::AwaitingClients);
    assert!(state.accepts_ready());
}

#[test]
fn game_starts_when_both_players_are_ready() {
    let state = ReadyState::default();
    assert_eq!(state.start_game(&vec![true]), ReadyState::AwaitingClients);
    assert_eq!(state.start_game(&vec![true, false]), ReadyState::AwaitingClients);
    assert_eq!(state.start_game(&vec![true, true, true]), ReadyState::AwaitingClients);
    let started = state.start_game(&vec![true, true]);
    assert_eq!(started, ReadyState::Starting { countdown: STARTUP_COUNTDOWN });
    assert_eq!(STARTUP_COUNTDOWN, 5_000_000_000);
    assert!(!started.accepts_ready());
    assert_eq!(started.start_game(&vec![true, true]), started);
}

#[test]
fn countdown_runs_out() {
    let mut state = ReadyState::Starting { countdown: 5_000_000_000 };
    let frame = 1_000_000_000 / 64;
    let mut frames = 0;
    while let Some(next) = state.advance_countdown(frame) {
        state = next;
        frames += 1;
        assert!(frames <= 400);
    }
    assert_eq!(frames, 320);
}

#[test]
fn countdown_reaching_zero_still_counts() {
    let state = ReadyState::Starting { countdown: 10 };
    assert_eq!(state.advance_countdown(10), Some(ReadyState::Starting { countdown: 0 }));
    assert_eq!(state.advance_countdown(11), None);
    assert_eq!(ReadyState::AwaitingClients.advance_countdown(10), Some(ReadyState::AwaitingClients));
}
