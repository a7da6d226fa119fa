//! The supervisor's state machine and announce planning.

use seedcore::engine::{
    can_start, last_piece_length, next_state, plan_announce_urls, EngineEvent, EngineState,
};

#[test]
fn test_state_machine_happy_path() {
    let s = EngineState::Stopped;
    let s = next_state(s, EngineEvent::StartRequested { metadata_available: true });
    assert_eq!(s, EngineState::Starting);
    let s = next_state(s, EngineEvent::StartSucceeded);
    assert_eq!(s, EngineState::Downloading);
    let s = next_state(s, EngineEvent::DownloadCompleted);
    assert_eq!(s, EngineState::Seeding);
    let s = next_state(s, EngineEvent::StopRequested);
    assert_eq!(s, EngineState::Stopped);
}

#[test]
fn test_pause_resume() {
    let s = EngineState::Downloading;
    let s = next_state(s, EngineEvent::PauseRequested);
    assert_eq!(s, EngineState::Paused);
    let s = next_state(s, EngineEvent::ResumeRequested { complete: false });
    assert_eq!(s, EngineState::Downloading);
    let s = next_state(s, EngineEvent::PauseRequested);
    let s = next_state(s, EngineEvent::ResumeRequested { complete: true });
    assert_eq!(s, EngineState::Seeding);
}

#[test]
fn test_errors_are_sticky() {
    let s = next_state(EngineState::Downloading, EngineEvent::FatalError);
    assert_eq!(s, EngineState::Error);
    assert_eq!(next_state(s, EngineEvent::PauseRequested), EngineState::Error);
    assert_eq!(next_state(s, EngineEvent::DownloadCompleted), EngineState::Error);
    // Only a fresh start leaves Error.
    assert_eq!(
        next_state(s, EngineEvent::StartRequested { metadata_available: true }),
        EngineState::Starting
    );
}

#[test]
fn test_magnet_without_metadata_cannot_start() {
    let s = next_state(
        EngineState::Stopped,
        EngineEvent::StartRequested { metadata_available: false },
    );
    assert_eq!(s, EngineState::Error);
    assert!(can_start(0, 0).is_err());
    assert!(can_start(2, 20000).is_ok());
}

#[test]
fn test_last_piece_length() {
    assert_eq!(last_piece_length(20000, 16384), 3616);
    assert_eq!(last_piece_length(32768, 16384), 16384);
    assert_eq!(last_piece_length(5, 16384), 5);
}

#[test]
fn test_plan_announce_urls() {
    let primary = "http://primary/announce".to_string();
    let tiers = vec![
        vec!["udp://nope/announce".to_string(), "http://primary/announce".to_string()],
        vec!["https://backup/announce".to_string()],
    ];
    let urls = plan_announce_urls(&primary, &tiers);
    assert_eq!(
        urls,
        vec!["http://primary/announce".to_string(), "https://backup/announce".to_string()]
    );
}
