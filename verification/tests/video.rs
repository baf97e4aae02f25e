use aria::video::{cover_png, support, SIZE};

#[test]
fn support_reports_a_reason_whenever_it_says_no() {
    // Whatever this machine has, the contract holds: unavailable always
    // carries something to show the user, available never does.
    for (version, encoders) in [
        (None, None),
        (Some("ffmpeg version 6".to_string()), None),
        (Some("ffmpeg version 6".to_string()), Some(" V..... libx264 H.264".to_string())),
        (Some("ffmpeg version 6".to_string()), Some(" V..... mpeg4".to_string())),
    ] {
        let s = support(version, encoders);
        assert_eq!(s.available, s.reason.is_none());
    }
}

#[test]
fn the_cover_is_a_png_at_the_encoder_s_size() {
    let png = cover_png("track-abc");
    assert_eq!(&png[1..4], b"PNG");
    // IHDR carries the dimensions, big-endian, right after the signature.
    assert_eq!(&png[16..20], &SIZE.to_be_bytes());
    assert_eq!(&png[20..24], &SIZE.to_be_bytes());
}

#[test]
fn video_needs_ffmpeg_and_its_h264_encoder() {
    let none = support(None, Some("libx264".to_string()));
    assert!(!none.available);
    assert!(none.reason.unwrap().contains("needs ffmpeg"));
    let bare = support(Some("v".to_string()), Some("mpeg4".to_string()));
    assert!(!bare.available);
    assert!(bare.reason.unwrap().contains("H.264"));
    assert!(support(Some("v".to_string()), Some("x libx264 y".to_string())).available);
}
