use spotiqueue_worker::entry::{validate_initialize, finish_initialize, plan_play_track, InitError, PlayError};

#[test]
fn play_before_initialization_is_refused() {
    let r = plan_play_track(false, Some("spotify:track:7lmeHLHBe4nmXzuXc0HDjk"));
    assert_eq!(r, Err(PlayError::NotInitialized));
}

#[test]
fn play_track_after_initialization_sends_the_uri() {
    let r = plan_play_track(true, Some("spotify:track:7lmeHLHBe4nmXzuXc0HDjk"));
    assert_eq!(r, Ok("spotify:track:7lmeHLHBe4nmXzuXc0HDjk".to_string()));
}

#[test]
fn play_album_is_refused() {
    assert_eq!(plan_play_track(true, Some("spotify:album:abc123")), Err(PlayError::NotATrack));
    assert_eq!(plan_play_track(false, Some("spotify:album:abc123")), Err(PlayError::NotATrack));
}

#[test]
fn play_corrupt_id_is_refused() {
    let r = plan_play_track(true, Some("spotify:track:7lmeHLHBe4nmXzuXc0HDj!"));
    assert_eq!(r, Err(PlayError::MalformedId));
}

#[test]
fn play_without_text_is_refused() {
    assert_eq!(plan_play_track(true, None), Err(PlayError::InvalidText));
}

#[test]
fn initialize_twice_is_refused() {
    assert_eq!(validate_initialize(true, Some("user"), Some("pass")), Err(InitError::AlreadyInitialized));
    assert_eq!(finish_initialize(true, false), Err(InitError::AlreadyInitialized));
}

#[test]
fn initialize_needs_both_credentials() {
    assert_eq!(validate_initialize(false, None, Some("pass")), Err(InitError::MissingCredentials));
    assert_eq!(validate_initialize(false, Some("user"), None), Err(InitError::MissingCredentials));
    assert_eq!(validate_initialize(false, Some(""), Some("pass")), Err(InitError::MissingCredentials));
    assert_eq!(validate_initialize(false, Some("user"), Some("")), Err(InitError::MissingCredentials));
    assert_eq!(validate_initialize(false, Some("user"), Some("pass")), Ok(()));
}

#[test]
fn initialize_ends_by_connect_and_publish() {
    assert_eq!(finish_initialize(false, false), Err(InitError::AuthenticationFailed));
    assert_eq!(finish_initialize(false, true), Err(InitError::AuthenticationFailed));
    assert_eq!(finish_initialize(true, true), Ok(()));
}
