//! Turning a song into a shareable video: whether this machine can, and the
//! cover image handed to the encoder.
//!
//! Encoding needs ffmpeg with H.264, so the feature is offered only when both
//! are there. Asking ffmpeg is the application's part; what the answers mean
//! is decided here.

use vstd::prelude::*;
use crate::art::{cover_pixels, fnv1a, png_for};
use crate::png::png_spec;
use crate::text::{chars_of, contains, string_of, text_contains};
use vstd::string::StringSliceAdditionalSpecFns;

verus! {

/// Edge of the video, in pixels. Square, the way music platforms present audio.
pub const SIZE: u32 = 1280;

/// What the machine can currently do, so the interface offers only what works.
pub struct VideoSupport {
    pub available: bool,
    /// Shown when it isn't, so the answer isn't just a missing button.
    pub reason: Option<String>,
}

/// Why there is no video when ffmpeg is absent.
pub open spec fn no_ffmpeg_reason() -> Seq<char> {
    "Saving a song as a video needs ffmpeg, which isn't installed. Everything else in Aria works without it."@
}

/// Why there is no video when ffmpeg lacks the H.264 encoder.
pub open spec fn no_h264_reason() -> Seq<char> {
    "The ffmpeg on this computer was built without H.264 video support, so Aria can't make a video with it."@
}

/// What the machine supports, from what ffmpeg said: `version` is its answer
/// to `-version` (None when it could not be run), `encoders` its answer to
/// `-encoders` (None when that failed). Video needs ffmpeg and its libx264
/// encoder.
pub fn support(version: Option<String>, encoders: Option<String>) -> (s: VideoSupport)
    ensures
        s.available == (version is Some && encoders is Some && contains(encoders->0@, "libx264"@)),
        version is None ==> s.reason is Some && s.reason->0@ == no_ffmpeg_reason(),
        version is Some && !s.available ==> s.reason is Some && s.reason->0@ == no_h264_reason(),
        s.available == (s.reason is None),
{
    if version.is_none() {
        let msg = "Saving a song as a video needs ffmpeg, which isn't installed. Everything else in Aria works without it.";
        return VideoSupport { available: false, reason: Some(string_of(&chars_of(msg))) };
    }
    let listed = match encoders {
        Some(e) => {
            let ev = chars_of(e.as_str());
            text_contains(&ev, "libx264")
        },
        None => false,
    };
    if !listed {
        let msg = "The ffmpeg on this computer was built without H.264 video support, so Aria can't make a video with it.";
        return VideoSupport { available: false, reason: Some(string_of(&chars_of(msg))) };
    }
    VideoSupport { available: true, reason: None }
}

/// The video's cover: the track's raster cover at the encoder's size.
pub fn cover_png(track_id: &str) -> (png: Vec<u8>)
    ensures
        png@ == png_spec(
            SIZE,
            SIZE,
            cover_pixels(fnv1a(track_id.spec_bytes()), SIZE as nat, SIZE as nat),
        ),
{
    png_for(track_id, SIZE)
}

} // verus!
