use aria::trim::{cut_wav, trim_format, wav_layout, TrimError, TrimFormat};

/// Ticks of 1/14 112 000 s, the unit MP3 cuts are measured in.
const TICKS: f64 = 14_112_000.0;

/// 16-bit mono at 44.1 kHz, so byte rate is 88200 and a frame is 2 bytes.
fn wav(seconds: f64) -> Vec<u8> {
    let byte_rate = 88_200usize;
    let data_len = (byte_rate as f64 * seconds) as usize / 2 * 2;
    let mut out = Vec::new();
    out.extend_from_slice(b"RIFF");
    out.extend_from_slice(&((36 + data_len) as u32).to_le_bytes());
    out.extend_from_slice(b"WAVE");
    out.extend_from_slice(b"fmt ");
    out.extend_from_slice(&16u32.to_le_bytes());
    out.extend_from_slice(&1u16.to_le_bytes()); // PCM
    out.extend_from_slice(&1u16.to_le_bytes()); // mono
    out.extend_from_slice(&44_100u32.to_le_bytes());
    out.extend_from_slice(&(byte_rate as u32).to_le_bytes());
    out.extend_from_slice(&2u16.to_le_bytes()); // block align
    out.extend_from_slice(&16u16.to_le_bytes());
    out.extend_from_slice(b"data");
    out.extend_from_slice(&(data_len as u32).to_le_bytes());
    out.extend(std::iter::repeat(0u8).take(data_len));
    out
}

/// MPEG1 Layer III, 320 kbps, 44.1 kHz — exactly what the engine writes.
/// Each frame is 1044 bytes and 1152 samples, so ~26.12 ms.
fn mp3(frames: usize, with_xing: bool) -> Vec<u8> {
    let len = 144 * 320_000 / 44_100; // 1044
    let mut out = Vec::new();
    for i in 0..frames {
        out.extend_from_slice(&[0xFF, 0xFB, 0xE0, 0x00]);
        let mut body = vec![0u8; len - 4];
        if i == 0 && with_xing {
            body[32..36].copy_from_slice(b"Xing");
        }
        out.extend_from_slice(&body);
    }
    out
}

/// Cut a WAV between two times in seconds, as the application does: the
/// times become byte offsets at the file's byte rate.
fn trim_wav(data: &[u8], start: f64, end: f64) -> Result<(Vec<u8>, f64), TrimError> {
    let layout = wav_layout(data)?;
    let rate = layout.byte_rate as f64;
    let raw = |secs: f64| (secs.max(0.0) * rate) as usize;
    let (out, kept) = cut_wav(data, &layout, raw(start), raw(end));
    Ok((out, kept as f64 / rate))
}

/// Cut an MP3 between two times in seconds, as the application does.
fn trim_mp3(data: &[u8], start: f64, end: f64) -> Result<(Vec<u8>, f64), TrimError> {
    let from = (start.max(0.0) * TICKS).floor() as u64;
    let to = (end * TICKS).ceil().max(0.0) as u64;
    let (out, ticks) = aria::trim::trim_mp3(data, from, to)?;
    Ok((out, ticks as f64 / TICKS))
}

#[test]
fn wav_is_cut_on_sample_boundaries() {
    let src = wav(4.0);
    let (out, secs) = trim_wav(&src, 1.0, 3.0).unwrap();
    assert!((secs - 2.0).abs() < 0.01, "got {secs}");
    assert_eq!(&out[0..4], b"RIFF");
    assert_eq!(&out[8..12], b"WAVE");
    // Header says what the file actually contains.
    let riff = u32::from_le_bytes([out[4], out[5], out[6], out[7]]) as usize;
    assert_eq!(riff, out.len() - 8);
    let data_len = u32::from_le_bytes([out[40], out[41], out[42], out[43]]) as usize;
    assert_eq!(data_len, out.len() - 44);
    assert_eq!(data_len % 2, 0, "must land on a whole sample frame");
}

#[test]
fn a_trim_past_the_end_stops_at_the_end() {
    let src = wav(2.0);
    let (_, secs) = trim_wav(&src, 1.0, 60.0).unwrap();
    assert!((secs - 1.0).abs() < 0.01, "got {secs}");
}

#[test]
fn mp3_is_cut_on_frame_boundaries() {
    let frame_secs = 1152.0 / 44_100.0;
    let src = mp3(200, false);
    let (out, secs) = trim_mp3(&src, 1.0, 3.0).unwrap();

    // Whole frames only: the output has to divide exactly.
    assert_eq!(out.len() % 1044, 0);
    assert!((secs - 2.0).abs() < frame_secs * 2.0, "got {secs}");
    // And it still starts with a valid frame header.
    assert_eq!(out[0], 0xFF);
    assert_eq!(out[1] & 0xE0, 0xE0);
}

#[test]
fn the_original_files_length_header_is_not_carried_over() {
    let src = mp3(100, true);
    let (out, _) = trim_mp3(&src, 0.0, 1.0).unwrap();
    // Carrying the Xing frame across would leave players reporting the
    // length of the song we just cut down.
    assert!(!out.windows(4).any(|w| w == b"Xing"));
}

#[test]
fn an_id3_tag_in_front_does_not_hide_the_audio() {
    let mut src = Vec::new();
    src.extend_from_slice(b"ID3\x03\x00\x00");
    // Syncsafe 200.
    src.extend_from_slice(&[0, 0, 1, 72]);
    src.extend(std::iter::repeat(0u8).take(200));
    src.extend_from_slice(&mp3(100, false));

    let (out, secs) = trim_mp3(&src, 0.0, 1.0).unwrap();
    assert_eq!(out[0], 0xFF);
    assert!(secs > 0.9 && secs < 1.1, "got {secs}");
}

#[test]
fn files_that_are_not_wavs_are_refused_with_a_reason() {
    assert!(matches!(wav_layout(b"RIFF\x00\x00\x00\x00AVI "), Err(TrimError::NotWav)));
    let mut no_fmt = b"RIFF\x10\x00\x00\x00WAVE".to_vec();
    no_fmt.extend_from_slice(b"data\x02\x00\x00\x00\x00\x00");
    assert!(matches!(wav_layout(&no_fmt), Err(TrimError::NoFormat)));
    let mut short = wav(0.1);
    short[16] = 8; // the format chunk now claims eight bytes
    assert!(wav_layout(&short).is_err());
    assert!(matches!(trim_mp3(&[0u8; 100], 0.0, 1.0), Err(TrimError::NoMp3Audio)));
    assert_eq!(
        TrimError::NoMp3Audio.message(),
        "Aria couldn't find any audio in that MP3."
    );
}

#[test]
fn only_wav_and_mp3_can_be_cut() {
    assert!(matches!(trim_format("/music/song.WAV"), TrimFormat::Wav));
    assert!(matches!(trim_format("song.mp3"), TrimFormat::Mp3));
    match trim_format("/music/song.flac") {
        TrimFormat::Other(ext) => {
            assert_eq!(ext, "flac");
            assert_eq!(
                TrimError::Unsupported(ext).message(),
                "Aria can trim its own songs, which are MP3 or WAV. This one is a flac file — export it and trim it in an audio editor."
            );
        }
        _ => panic!("flac is not cut"),
    }
    match trim_format("/music/song") {
        TrimFormat::Other(ext) => {
            assert_eq!(ext, "");
            assert!(TrimError::Unsupported(ext).message().contains("in an unknown format"));
        }
        _ => panic!("no extension is not cut"),
    }
}
