use aria::audio_server::{content_range, mime_for, parse_range, route, serve_kind, AudioServer, Route, Serve};

#[test]
fn parses_the_ranges_media_elements_send() {
    assert_eq!(parse_range("bytes=0-", 1000), Some((0, 999)));
    assert_eq!(parse_range("bytes=500-999", 1000), Some((500, 999)));
    // An end past the file is clamped rather than rejected.
    assert_eq!(parse_range("bytes=500-5000", 1000), Some((500, 999)));
}

#[test]
fn rejects_nonsense_ranges() {
    assert_eq!(parse_range("bytes=999-500", 1000), None);
    assert_eq!(parse_range("bytes=2000-", 1000), None);
    assert_eq!(parse_range("items=0-10", 1000), None);
    assert_eq!(parse_range("garbage", 1000), None);
}

#[test]
fn an_open_range_of_an_empty_file_is_none() {
    assert_eq!(parse_range("bytes=0-", 0), None);
    assert_eq!(parse_range("  bytes= 5 - 9 ", 100), Some((5, 9)));
}

#[test]
fn the_media_type_follows_the_extension() {
    assert_eq!(mime_for("/a/b/song.WAV"), "audio/wav");
    assert_eq!(mime_for("song.flac"), "audio/flac");
    assert_eq!(mime_for("song.opus"), "audio/ogg");
    assert_eq!(mime_for("song.m4a"), "audio/mp4");
    assert_eq!(mime_for("song.mp3"), "audio/mpeg");
    assert_eq!(mime_for("song"), "audio/mpeg");
}

#[test]
fn the_base_url_carries_port_and_token() {
    let s = AudioServer { port: 4321, token: "abc".to_string() };
    assert_eq!(s.base_url(), "http://127.0.0.1:4321/abc");
}

#[test]
fn routes_need_the_token_and_a_track() {
    match route("/tok/track/id-1", "tok") {
        Route::Lookup { kind, id } => {
            assert_eq!(kind, "track");
            assert_eq!(id, "id-1");
        }
        Route::Denied { .. } => panic!("should route"),
    }
    match route("/other/track/id-1", "tok") {
        Route::Denied { code, why } => {
            assert_eq!(code, 403);
            assert_eq!(why, "bad token");
        }
        _ => panic!("should refuse"),
    }
    match route("tok/track/id", "tok") {
        Route::Denied { code, why } => {
            assert_eq!(code, 404);
            assert_eq!(why, "not found");
        }
        _ => panic!("should refuse"),
    }
    match route("/tok/track/", "tok") {
        Route::Denied { code, why } => {
            assert_eq!(code, 404);
            assert_eq!(why, "not a track url");
        }
        _ => panic!("should refuse"),
    }
    match route("/tok", "tok") {
        Route::Denied { code, .. } => assert_eq!(code, 404),
        _ => panic!("should refuse"),
    }
}

#[test]
fn art_and_audio_are_the_kinds_served() {
    assert!(matches!(serve_kind("art"), Serve::Art));
    assert!(matches!(serve_kind("track"), Serve::Audio));
    assert!(matches!(serve_kind("lyrics"), Serve::NotTrack));
}

#[test]
fn partial_replies_say_which_bytes() {
    assert_eq!(content_range(500, 999, 1000), "bytes 500-999/1000");
}
