use spotiqueue_worker::track_uri::{decode_track_id, track_id_from_spotify_uri, MalformedTrackId, TrackId};

#[test]
fn parses_track_uri() {
    let r = track_id_from_spotify_uri("spotify:track:7lmeHLHBe4nmXzuXc0HDjk");
    assert_eq!(r, Ok(Some(TrackId { id: 320765310229992627240483663246718007602 })));
}

#[test]
fn parsed_id_agrees_with_librespot() {
    let ours = track_id_from_spotify_uri("spotify:track:7lmeHLHBe4nmXzuXc0HDjk").unwrap().unwrap();
    let theirs = librespot::core::spotify_id::SpotifyId::from_base62("7lmeHLHBe4nmXzuXc0HDjk").unwrap();
    assert_eq!(ours.id, theirs.id);
}

#[test]
fn parsed_id_round_trips_through_base62() {
    for id in ["7lmeHLHBe4nmXzuXc0HDjk", "0000000000000000000001", "7N42dgm5tFLK9N8MT7fHC7"] {
        let uri = format!("spotify:track:{}", id);
        let t = track_id_from_spotify_uri(&uri).unwrap().unwrap();
        let s = librespot::core::spotify_id::SpotifyId {
            id: t.id,
            audio_type: librespot::core::spotify_id::SpotifyAudioType::Track,
        };
        assert_eq!(s.to_base62(), id);
    }
}

#[test]
fn any_scheme_is_accepted() {
    let r = track_id_from_spotify_uri("spötify:track:0000000000000000000001");
    assert_eq!(r, Ok(Some(TrackId { id: 1 })));
}

#[test]
fn largest_id_is_accepted() {
    let r = track_id_from_spotify_uri("x:track:7N42dgm5tFLK9N8MT7fHC7");
    assert_eq!(r, Ok(Some(TrackId { id: u128::MAX })));
}

#[test]
fn id_past_128_bits_is_malformed() {
    assert_eq!(track_id_from_spotify_uri("x:track:7N42dgm5tFLK9N8MT7fHC8"), Err(MalformedTrackId));
    assert_eq!(track_id_from_spotify_uri("x:track:ZZZZZZZZZZZZZZZZZZZZZZ"), Err(MalformedTrackId));
}

#[test]
fn album_uri_is_not_a_track() {
    assert_eq!(track_id_from_spotify_uri("spotify:album:abc123"), Ok(None));
}

#[test]
fn wrong_segment_count_is_not_a_track() {
    assert_eq!(track_id_from_spotify_uri(""), Ok(None));
    assert_eq!(track_id_from_spotify_uri("spotify"), Ok(None));
    assert_eq!(track_id_from_spotify_uri("track:7lmeHLHBe4nmXzuXc0HDjk"), Ok(None));
    assert_eq!(track_id_from_spotify_uri("spotify:track:7lmeHLHBe4nmXzuXc0HDjk:x"), Ok(None));
    assert_eq!(track_id_from_spotify_uri("spotify:track::"), Ok(None));
}

#[test]
fn middle_segment_must_be_track_exactly() {
    assert_eq!(track_id_from_spotify_uri("spotify:Track:7lmeHLHBe4nmXzuXc0HDjk"), Ok(None));
    assert_eq!(track_id_from_spotify_uri("spotify:tracks:7lmeHLHBe4nmXzuXc0HDjk"), Ok(None));
    assert_eq!(track_id_from_spotify_uri("spotify::7lmeHLHBe4nmXzuXc0HDjk"), Ok(None));
}

#[test]
fn corrupt_id_is_malformed() {
    assert_eq!(track_id_from_spotify_uri("spotify:track:7lmeHLHBe4nmXzuXc0HDj!"), Err(MalformedTrackId));
    assert_eq!(track_id_from_spotify_uri("spotify:track:7lme-HLHBe4nmXzuXc0HDjk"), Err(MalformedTrackId));
    assert_eq!(track_id_from_spotify_uri("spotify:track:7lmeHLHBe4nmXzuXc0HDjkk"), Err(MalformedTrackId));
}

#[test]
fn ids_of_any_length_are_accepted() {
    assert_eq!(track_id_from_spotify_uri("spotify:track:abc"), Ok(Some(TrackId { id: 39134 })));
    assert_eq!(
        track_id_from_spotify_uri("spotify:track:7lmeHLHBe4nmXzuXc0HDj"),
        Ok(Some(TrackId { id: 5173634035967623020007801020108354961 }))
    );
    assert_eq!(track_id_from_spotify_uri("spotify:track:"), Ok(Some(TrackId { id: 0 })));
}

#[test]
fn short_ids_agree_with_librespot() {
    for id in ["abc", "7lmeHLHBe4nmXzuXc0HDj", "", "Z"] {
        let uri = format!("spotify:track:{}", id);
        let ours = track_id_from_spotify_uri(&uri).unwrap().unwrap();
        let theirs = librespot::core::spotify_id::SpotifyId::from_base62(id).unwrap();
        assert_eq!(ours.id, theirs.id);
    }
}

#[test]
fn decodes_id_at_offset() {
    let b = b"ab0000000000000000000010";
    assert_eq!(decode_track_id(b, 2), Some(62));
    assert_eq!(decode_track_id(b, 1), None);
    assert_eq!(decode_track_id(b, 24), Some(0));
    assert_eq!(decode_track_id(b, 23), Some(0));
}
