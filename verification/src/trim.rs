//! Cutting a song down to a section by copying the bytes already there: a WAV
//! on whole sample frames, an MP3 on whole frames. Nothing is re-encoded, so
//! a trim cannot change how the rest of the song sounds.
//!
//! Positions come in as integers the application derives from the slider's
//! seconds: byte offsets into a WAV's audio (seconds times its byte rate), and
//! MP3 time in ticks of 1/14 112 000 s, a unit in which every MPEG frame has a
//! whole length.

use vstd::prelude::*;
use crate::bytes::{extend, le32, occurs_at, push_le32, slice_copy, matches_at};
use crate::path::extension;
use crate::text::{append_chars, ascii_lower_all, chars_of, lower_all, string_of};
use crate::path::path_extension;

verus! {

// ---------------------------------------------------------------- errors

/// Why a file could not be cut.
#[derive(Debug)]
pub enum TrimError {
    NotWav,
    NoFormat,
    NoAudio,
    ShortFormat,
    BadRate,
    NoMp3Audio,
    /// A format Aria cannot cut, by its lower-cased extension (maybe empty).
    Unsupported(String),
}

/// The message shown for an unsupported format with lower-cased extension `ext`.
pub open spec fn unsupported_message(ext: Seq<char>) -> Seq<char> {
    "Aria can trim its own songs, which are MP3 or WAV. This one is "@ + (if ext.len() == 0 {
        "in an unknown format"@
    } else {
        "a "@ + ext + " file"@
    }) + " — export it and trim it in an audio editor."@
}

impl TrimError {
    /// What the user is told.
    pub open spec fn message_spec(&self) -> Seq<char> {
        match self {
            TrimError::NotWav => "That file isn't a WAV Aria can read."@,
            TrimError::NoFormat => "That WAV has no format chunk."@,
            TrimError::NoAudio => "That WAV has no audio in it."@,
            TrimError::ShortFormat => "That WAV's format chunk is too short to read."@,
            TrimError::BadRate => "That WAV declares a rate Aria can't work with."@,
            TrimError::NoMp3Audio => "Aria couldn't find any audio in that MP3."@,
            TrimError::Unsupported(ext) => unsupported_message(ext@),
        }
    }

    /// What the user is told.
    pub fn message(&self) -> (m: String)
        ensures
            m@ == self.message_spec(),
    {
        match self {
            TrimError::NotWav => string_of(&chars_of("That file isn't a WAV Aria can read.")),
            TrimError::NoFormat => string_of(&chars_of("That WAV has no format chunk.")),
            TrimError::NoAudio => string_of(&chars_of("That WAV has no audio in it.")),
            TrimError::ShortFormat => string_of(
                &chars_of("That WAV's format chunk is too short to read."),
            ),
            TrimError::BadRate => string_of(
                &chars_of("That WAV declares a rate Aria can't work with."),
            ),
            TrimError::NoMp3Audio => string_of(
                &chars_of("Aria couldn't find any audio in that MP3."),
            ),
            TrimError::Unsupported(ext) => {
                let mut v = chars_of("Aria can trim its own songs, which are MP3 or WAV. This one is ");
                let e = chars_of(ext.as_str());
                if e.len() == 0 {
                    append_chars(&mut v, &chars_of("in an unknown format"));
                } else {
                    append_chars(&mut v, &chars_of("a "));
                    append_chars(&mut v, &e);
                    append_chars(&mut v, &chars_of(" file"));
                }
                append_chars(&mut v, &chars_of(" — export it and trim it in an audio editor."));
                proof {
                    if ext@.len() == 0 {
                        assert(v@ =~= unsupported_message(ext@));
                    } else {
                        assert(v@ =~= unsupported_message(ext@));
                    }
                }
                string_of(&v)
            },
        }
    }
}

// ---------------------------------------------------------------- format

/// How a file is cut, by its extension.
#[derive(Debug)]
pub enum TrimFormat {
    Wav,
    Mp3,
    /// Anything else, with its lower-cased extension (empty when it has none).
    Other(String),
}

/// The lower-cased extension of `path`, empty when it has none.
pub open spec fn lower_extension(path: Seq<char>) -> Seq<char> {
    match extension(path) {
        Some(e) => ascii_lower_all(e),
        None => Seq::empty(),
    }
}

/// Which cutter a file goes to, by its lower-cased extension.
pub fn trim_format(path: &str) -> (f: TrimFormat)
    ensures
        lower_extension(path@) == "wav"@ ==> f is Wav,
        lower_extension(path@) == "mp3"@ ==> f is Mp3,
        lower_extension(path@) != "wav"@ && lower_extension(path@) != "mp3"@ ==> f is Other
            && f->0@ == lower_extension(path@),
{
    proof {
        reveal_strlit("wav");
        reveal_strlit("mp3");
        assert("mp3"@[0] != "wav"@[0]);
        assert("mp3"@ != "wav"@);
    }
    let ext: Vec<char> = match path_extension(path) {
        Some(e) => lower_all(&e),
        None => Vec::new(),
    };
    assert(ext@ == lower_extension(path@));
    let wav = chars_of("wav");
    let mp3 = chars_of("mp3");
    if crate::text::chars_eq(&ext, &wav) {
        TrimFormat::Wav
    } else if crate::text::chars_eq(&ext, &mp3) {
        TrimFormat::Mp3
    } else {
        TrimFormat::Other(string_of(&ext))
    }
}

// ---------------------------------------------------------------- WAV

pub open spec fn riff_tag() -> Seq<u8> {
    seq![0x52u8, 0x49u8, 0x46u8, 0x46u8]
}

pub open spec fn wave_tag() -> Seq<u8> {
    seq![0x57u8, 0x41u8, 0x56u8, 0x45u8]
}

pub open spec fn fmt_tag() -> Seq<u8> {
    seq![0x66u8, 0x6du8, 0x74u8, 0x20u8]
}

pub open spec fn data_tag() -> Seq<u8> {
    seq![0x64u8, 0x61u8, 0x74u8, 0x61u8]
}

/// The little-endian 32-bit value at `p`.
pub open spec fn le32_at(d: Seq<u8>, p: int) -> int {
    d[p] + 256 * d[p + 1] + 65536 * d[p + 2] + 16777216 * d[p + 3]
}

/// The little-endian 16-bit value at `p`.
pub open spec fn le16_at(d: Seq<u8>, p: int) -> int {
    d[p] + 256 * d[p + 1]
}

/// The smaller of two integers.
pub open spec fn min_int(a: int, b: int) -> int {
    if a <= b {
        a
    } else {
        b
    }
}

/// The larger of two integers.
pub open spec fn max_int(a: int, b: int) -> int {
    if a >= b {
        a
    } else {
        b
    }
}

/// Walk the RIFF chunks from `pos`, remembering the body of the last `fmt `
/// and the last `data` chunk seen. A chunk's body runs for its declared size,
/// cut short at the end of the file; chunks are padded to an even length.
pub open spec fn chunk_walk(d: Seq<u8>, pos: int, fmt: Option<(int, int)>, audio: Option<(int, int)>) -> (
    Option<(int, int)>,
    Option<(int, int)>,
)
    decreases d.len() - pos,
{
    if pos < 0 || pos + 8 > d.len() {
        (fmt, audio)
    } else {
        let size = le32_at(d, pos + 4);
        let body = (pos + 8, min_int(pos + 8 + size, d.len() as int));
        let id = d.subrange(pos, pos + 4);
        let fmt2 = if id == fmt_tag() {
            Some(body)
        } else {
            fmt
        };
        let audio2 = if id == data_tag() {
            Some(body)
        } else {
            audio
        };
        let next = pos + 8 + size + size % 2;
        if next > d.len() {
            (fmt2, audio2)
        } else {
            chunk_walk(d, next, fmt2, audio2)
        }
    }
}

/// Where a WAV's format and audio bytes sit, and how its samples are framed.
#[derive(Debug)]
pub struct WavLayout {
    pub fmt_start: usize,
    pub fmt_end: usize,
    pub audio_start: usize,
    pub audio_end: usize,
    /// Bytes per second of audio.
    pub byte_rate: u32,
    /// Bytes per sample frame (all channels).
    pub block_align: u16,
}

impl WavLayout {
    /// The layout describes a part of a file of `len` bytes with a readable
    /// format chunk.
    pub open spec fn fits(&self, len: int) -> bool {
        &&& self.fmt_start <= self.fmt_end <= len
        &&& self.fmt_end - self.fmt_start >= 16
        &&& self.audio_start <= self.audio_end <= len
        &&& self.byte_rate > 0
        &&& self.block_align > 0
    }
}

/// The layout of the WAV file `d`, or why it cannot be cut.
pub open spec fn wav_layout_spec(d: Seq<u8>) -> Result<WavLayout, TrimError> {
    if d.len() < 12 || d.subrange(0, 4) != riff_tag() || d.subrange(8, 12) != wave_tag() {
        Err(TrimError::NotWav)
    } else {
        let (fmt, audio) = chunk_walk(d, 12, None, None);
        match fmt {
            None => Err(TrimError::NoFormat),
            Some((fs, fe)) => match audio {
                None => Err(TrimError::NoAudio),
                Some((a_s, a_e)) => if fe - fs < 16 {
                    Err(TrimError::ShortFormat)
                } else if le32_at(d, fs + 8) == 0 || le16_at(d, fs + 12) == 0 {
                    Err(TrimError::BadRate)
                } else {
                    Ok(
                        WavLayout {
                            fmt_start: fs as usize,
                            fmt_end: fe as usize,
                            audio_start: a_s as usize,
                            audio_end: a_e as usize,
                            byte_rate: le32_at(d, fs + 8) as u32,
                            block_align: le16_at(d, fs + 12) as u16,
                        },
                    )
                },
            },
        }
    }
}

fn read_le32(d: &[u8], p: usize) -> (v: u32)
    requires
        p + 4 <= d@.len(),
    ensures
        v == le32_at(d@, p as int),
{
    (d[p] as u32) + 256 * (d[p + 1] as u32) + 65536 * (d[p + 2] as u32) + 16777216 * (d[p + 3] as u32)
}

fn read_le16(d: &[u8], p: usize) -> (v: u16)
    requires
        p + 2 <= d@.len(),
    ensures
        v == le16_at(d@, p as int),
{
    (d[p] as u16) + 256 * (d[p + 1] as u16)
}

/// Where the format and audio chunks of the WAV file `data` are, and its byte
/// rate and frame size; or why it cannot be cut.
pub fn wav_layout(data: &[u8]) -> (r: Result<WavLayout, TrimError>)
    ensures
        r == wav_layout_spec(data@),
        r matches Ok(l) ==> l.fits(data@.len() as int),
{
    let riff: [u8; 4] = [0x52, 0x49, 0x46, 0x46];
    let wave: [u8; 4] = [0x57, 0x41, 0x56, 0x45];
    let fmt_id: [u8; 4] = [0x66, 0x6d, 0x74, 0x20];
    let data_id: [u8; 4] = [0x64, 0x61, 0x74, 0x61];
    assert(riff@ =~= riff_tag());
    assert(wave@ =~= wave_tag());
    assert(fmt_id@ =~= fmt_tag());
    assert(data_id@ =~= data_tag());
    if data.len() < 12 || !matches_at(data, riff.as_slice(), 0) || !matches_at(
        data,
        wave.as_slice(),
        8,
    ) {
        return Err(TrimError::NotWav);
    }
    let ghost d = data@;
    let len = data.len();
    let mut fmt: Option<(usize, usize)> = None;
    let mut audio: Option<(usize, usize)> = None;
    let mut pos: usize = 12;
    loop
        invariant
            d == data@,
            len == d.len(),
            12 <= pos,
            fmt matches Some(f) ==> f.0 <= f.1 <= len,
            audio matches Some(a) ==> a.0 <= a.1 <= len,
            fmt_id@ == fmt_tag(),
            data_id@ == data_tag(),
            chunk_walk(d, pos as int, opt_range(fmt), opt_range(audio)) == chunk_walk(
                d,
                12,
                None,
                None,
            ),
        ensures
            fmt matches Some(f) ==> f.0 <= f.1 <= len,
            audio matches Some(a) ==> a.0 <= a.1 <= len,
            chunk_walk(d, 12, None, None) == (opt_range(fmt), opt_range(audio)),
        decreases len - pos,
    {
        if pos > len || len - pos < 8 {
            break;
        }
        let size = read_le32(data, pos + 4) as usize;
        let body_start = pos + 8;
        let body_end = if size <= len - body_start {
            body_start + size
        } else {
            len
        };
        let fmt2 = if matches_at(data, fmt_id.as_slice(), pos) {
            Some((body_start, body_end))
        } else {
            fmt
        };
        let audio2 = if matches_at(data, data_id.as_slice(), pos) {
            Some((body_start, body_end))
        } else {
            audio
        };
        assert(occurs_at(d, fmt_tag(), pos as int) == (d.subrange(pos as int, pos + 4) == fmt_tag()));
        assert(occurs_at(d, data_tag(), pos as int) == (d.subrange(pos as int, pos + 4) == data_tag()));
        assert(opt_range(fmt2) == if d.subrange(pos as int, pos + 4) == fmt_tag() {
            Some((pos + 8, min_int(pos + 8 + size, len as int)))
        } else {
            opt_range(fmt)
        });
        assert(opt_range(audio2) == if d.subrange(pos as int, pos + 4) == data_tag() {
            Some((pos + 8, min_int(pos + 8 + size, len as int)))
        } else {
            opt_range(audio)
        });
        fmt = fmt2;
        audio = audio2;
        let pad = size % 2;
        if size > len - body_start || pad > len - body_start - size {
            break;
        }
        pos = body_start + size + pad;
    }
    let ghost walked = chunk_walk(d, 12, None, None);
    assert(walked == (opt_range(fmt), opt_range(audio)));
    let (fs, fe) = match fmt {
        None => {
            return Err(TrimError::NoFormat);
        },
        Some(f) => f,
    };
    let (a_s, a_e) = match audio {
        None => {
            return Err(TrimError::NoAudio);
        },
        Some(a) => a,
    };
    if fe - fs < 16 {
        return Err(TrimError::ShortFormat);
    }
    let byte_rate = read_le32(data, fs + 8);
    let block_align = read_le16(data, fs + 12);
    if byte_rate == 0 || block_align == 0 {
        return Err(TrimError::BadRate);
    }
    Ok(
        WavLayout {
            fmt_start: fs,
            fmt_end: fe,
            audio_start: a_s,
            audio_end: a_e,
            byte_rate,
            block_align,
        },
    )
}

/// A pair of `usize` bounds as integers.
pub open spec fn opt_range(r: Option<(usize, usize)>) -> Option<(int, int)> {
    match r {
        Some(p) => Some((p.0 as int, p.1 as int)),
        None => None,
    }
}

/// A byte offset snapped down to a whole sample frame of `ba` bytes, and kept
/// within the last whole frame of `alen` bytes of audio.
pub open spec fn snap(raw: int, ba: int, alen: int) -> int {
    min_int(raw / ba * ba, alen / ba * ba)
}

/// Where the cut starts in the audio, from the raw offset `raw_from`.
pub open spec fn cut_from(raw_from: int, ba: int, alen: int) -> int {
    snap(raw_from, ba, alen)
}

/// Where the cut ends: at least one frame after its start, never past the audio.
pub open spec fn cut_to(raw_from: int, raw_to: int, ba: int, alen: int) -> int {
    min_int(max_int(snap(raw_to, ba, alen), cut_from(raw_from, ba, alen) + ba), alen)
}

/// A WAV file holding the format chunk body `fmt` and the audio `cut`.
pub open spec fn wav_file(fmt: Seq<u8>, cut: Seq<u8>) -> Seq<u8> {
    riff_tag() + le32((20 + fmt.len() + cut.len()) as u32) + wave_tag() + fmt_tag() + le32(
        fmt.len() as u32,
    ) + fmt + data_tag() + le32(cut.len() as u32) + cut
}

proof fn lemma_round_down(x: int, b: int)
    requires
        x >= 0,
        b > 0,
    ensures
        0 <= x / b * b <= x,
        (x / b * b) % b == 0,
{
    assert(0 <= x / b * b <= x) by (nonlinear_arith)
        requires
            x >= 0,
            b > 0,
    ;
    assert((x / b * b) % b == 0) by (nonlinear_arith)
        requires
            b > 0,
    ;
}

/// The WAV made from `data` (laid out as `layout`) by cutting its audio
/// between the raw byte offsets `raw_from` and `raw_to`, each snapped down to
/// a whole sample frame; and the length of audio kept. The format chunk is
/// copied byte for byte.
#[verifier::rlimit(40)]
#[verifier::spinoff_prover]
pub fn cut_wav(data: &[u8], layout: &WavLayout, raw_from: usize, raw_to: usize) -> (r: (
    Vec<u8>,
    usize,
))
    requires
        layout.fits(data@.len() as int),
    ensures
        ({
            let ba = layout.block_align as int;
            let alen = layout.audio_end - layout.audio_start;
            let from = cut_from(raw_from as int, ba, alen);
            let to = cut_to(raw_from as int, raw_to as int, ba, alen);
            let audio = data@.subrange(layout.audio_start as int, layout.audio_end as int);
            &&& 0 <= from <= to <= alen
            &&& r.1 == to - from
            &&& r.0@ == wav_file(
                data@.subrange(layout.fmt_start as int, layout.fmt_end as int),
                audio.subrange(from, to),
            )
        }),
{
    let ba = layout.block_align as usize;
    let alen = layout.audio_end - layout.audio_start;
    proof {
        lemma_round_down(alen as int, ba as int);
        lemma_round_down(raw_from as int, ba as int);
        lemma_round_down(raw_to as int, ba as int);
    }
    let cap = alen / ba * ba;
    let lo = raw_from / ba * ba;
    let from = if lo <= cap {
        lo
    } else {
        cap
    };
    let hi = raw_to / ba * ba;
    let snapped_to = if hi <= cap {
        hi
    } else {
        cap
    };
    let to = if alen - from < ba {
        alen
    } else if snapped_to >= from + ba {
        snapped_to
    } else {
        from + ba
    };
    let fmt = slice_copy(data, layout.fmt_start, layout.fmt_end);
    let cut = slice_copy(data, layout.audio_start + from, layout.audio_start + to);
    let mut rest: Vec<u8> = vec![0x57, 0x41, 0x56, 0x45, 0x66, 0x6d, 0x74, 0x20];
    assert(rest@ =~= wave_tag() + fmt_tag());
    push_le32(&mut rest, fmt.len() as u32);
    extend(&mut rest, fmt.as_slice());
    extend(&mut rest, &[0x64u8, 0x61u8, 0x74u8, 0x61u8]);
    push_le32(&mut rest, cut.len() as u32);
    extend(&mut rest, cut.as_slice());
    let mut out: Vec<u8> = vec![0x52, 0x49, 0x46, 0x46];
    push_le32(&mut out, rest.len() as u32);
    extend(&mut out, rest.as_slice());
    proof {
        let audio = data@.subrange(layout.audio_start as int, layout.audio_end as int);
        assert(cut@ =~= audio.subrange(from as int, to as int));
        assert(rest@.len() == 20 + fmt@.len() + cut@.len());
        assert(out@ =~= wav_file(fmt@, cut@));
    }
    (out, to - from)
}

// ---------------------------------------------------------------- MP3

/// The "ID3" marker that opens an ID3v2 tag.
pub open spec fn id3_tag() -> Seq<u8> {
    seq![0x49u8, 0x44u8, 0x33u8]
}

/// Where the audio of `d` begins: past an ID3v2 tag, if one leads the file.
/// The tag's size is a syncsafe integer (seven bits per byte) counting what
/// follows its ten-byte header; a footer adds ten more. Clamped to the file.
pub open spec fn id3_end(d: Seq<u8>) -> int {
    if d.len() < 10 || d.subrange(0, 3) != id3_tag() {
        0
    } else {
        let size = (d[6] % 128) * 2097152 + (d[7] % 128) * 16384 + (d[8] % 128) * 128 + d[9] % 128;
        let footer: int = if (d[5] / 16) % 2 == 1 {
            10
        } else {
            0
        };
        min_int(10 + size + footer, d.len() as int)
    }
}

/// The bytes of `data` after any leading ID3v2 tag.
pub fn skip_id3v2(data: &[u8]) -> (body: Vec<u8>)
    ensures
        body@ == data@.skip(id3_end(data@)),
        0 <= id3_end(data@) <= data@.len(),
{
    let id3: [u8; 3] = [0x49, 0x44, 0x33];
    assert(id3@ =~= id3_tag());
    if data.len() < 10 || !matches_at(data, id3.as_slice(), 0) {
        assert(data@.skip(0) =~= data@);
        return slice_copy(data, 0, data.len());
    }
    let size: usize = ((data[6] % 128) as usize) * 2097152 + ((data[7] % 128) as usize) * 16384
        + ((data[8] % 128) as usize) * 128 + (data[9] % 128) as usize;
    let flags = data[5];
    assert((flags & 0x10u8 != 0u8) == ((flags / 16u8) % 2u8 == 1u8)) by (bit_vector);
    let footer: usize = if flags & 0x10 != 0 {
        10
    } else {
        0
    };
    let want = 10 + size + footer;
    let end = if want <= data.len() {
        want
    } else {
        data.len()
    };
    let body = slice_copy(data, end, data.len());
    assert(body@ =~= data@.skip(end as int));
    body
}

/// One MPEG audio frame: where it starts in the audio, its length in bytes,
/// how many samples it carries, and its sample rate.
pub struct Frame {
    pub offset: usize,
    pub len: usize,
    pub samples: usize,
    pub rate: usize,
}

impl View for Frame {
    type V = (int, int, int, int);

    open spec fn view(&self) -> (int, int, int, int) {
        (self.offset as int, self.len as int, self.samples as int, self.rate as int)
    }
}

/// MPEG-1 Layer III bit rates, kbit/s, by index.
pub open spec fn mpeg1_kbps(i: int) -> int {
    if i == 1 {
        32
    } else if i == 2 {
        40
    } else if i == 3 {
        48
    } else if i == 4 {
        56
    } else if i == 5 {
        64
    } else if i == 6 {
        80
    } else if i == 7 {
        96
    } else if i == 8 {
        112
    } else if i == 9 {
        128
    } else if i == 10 {
        160
    } else if i == 11 {
        192
    } else if i == 12 {
        224
    } else if i == 13 {
        256
    } else if i == 14 {
        320
    } else {
        0
    }
}

/// MPEG-2 and 2.5 Layer III bit rates, kbit/s, by index.
pub open spec fn mpeg2_kbps(i: int) -> int {
    if i == 1 {
        8
    } else if i == 2 {
        16
    } else if i == 3 {
        24
    } else if i == 4 {
        32
    } else if i == 5 {
        40
    } else if i == 6 {
        48
    } else if i == 7 {
        56
    } else if i == 8 {
        64
    } else if i == 9 {
        80
    } else if i == 10 {
        96
    } else if i == 11 {
        112
    } else if i == 12 {
        128
    } else if i == 13 {
        144
    } else if i == 14 {
        160
    } else {
        0
    }
}

/// Sample rate by version (0 MPEG-2.5, 1 reserved, 2 MPEG-2, 3 MPEG-1) and index.
pub open spec fn sample_rate(version: int, i: int) -> int {
    if i < 0 || i > 2 {
        0
    } else if version == 3 {
        if i == 0 {
            44100
        } else if i == 1 {
            48000
        } else {
            32000
        }
    } else if version == 2 {
        if i == 0 {
            22050
        } else if i == 1 {
            24000
        } else {
            16000
        }
    } else if version == 0 {
        if i == 0 {
            11025
        } else if i == 1 {
            12000
        } else {
            8000
        }
    } else {
        0
    }
}

fn kbps(mpeg1: bool, i: u8) -> (r: usize)
    ensures
        r == (if mpeg1 {
            mpeg1_kbps(i as int)
        } else {
            mpeg2_kbps(i as int)
        }),
{
    if mpeg1 {
        match i {
            1 => 32,
            2 => 40,
            3 => 48,
            4 => 56,
            5 => 64,
            6 => 80,
            7 => 96,
            8 => 112,
            9 => 128,
            10 => 160,
            11 => 192,
            12 => 224,
            13 => 256,
            14 => 320,
            _ => 0,
        }
    } else {
        match i {
            1 => 8,
            2 => 16,
            3 => 24,
            4 => 32,
            5 => 40,
            6 => 48,
            7 => 56,
            8 => 64,
            9 => 80,
            10 => 96,
            11 => 112,
            12 => 128,
            13 => 144,
            14 => 160,
            _ => 0,
        }
    }
}

fn rate_of(version: u8, i: u8) -> (r: usize)
    ensures
        r == sample_rate(version as int, i as int),
{
    if i > 2 {
        0
    } else if version == 3 {
        if i == 0 {
            44100
        } else if i == 1 {
            48000
        } else {
            32000
        }
    } else if version == 2 {
        if i == 0 {
            22050
        } else if i == 1 {
            24000
        } else {
            16000
        }
    } else if version == 0 {
        if i == 0 {
            11025
        } else if i == 1 {
            12000
        } else {
            8000
        }
    } else {
        0
    }
}

/// The Layer III frame whose header starts at `pos` in `b`, as (offset,
/// length, samples, rate); None when the bytes there are not one, or the frame
/// would run past the end.
pub open spec fn frame_spec(b: Seq<u8>, pos: int) -> Option<(int, int, int, int)> {
    if pos < 0 || pos + 4 > b.len() {
        None
    } else {
        let h0 = b[pos];
        let h1 = b[pos + 1];
        let h2 = b[pos + 2];
        let version = (h1 >> 3u8) & 3u8;
        let layer = (h1 >> 1u8) & 3u8;
        let bi = h2 >> 4u8;
        let ri = (h2 >> 2u8) & 3u8;
        let padding = (h2 >> 1u8) & 1u8;
        let mpeg1 = version == 3;
        let bitrate = (if mpeg1 {
            mpeg1_kbps(bi as int)
        } else {
            mpeg2_kbps(bi as int)
        }) * 1000;
        let rate = sample_rate(version as int, ri as int);
        let coef: int = if mpeg1 {
            144
        } else {
            72
        };
        let samples: int = if mpeg1 {
            1152
        } else {
            576
        };
        if h0 != 0xFF || (h1 & 0xE0u8) != 0xE0u8 {
            None
        } else if version == 1 || layer != 1 {
            None
        } else if bi == 0 || bi == 15 || ri == 3 {
            None
        } else if rate == 0 {
            None
        } else {
            let len = coef * bitrate / rate + padding;
            if len < 4 || pos + len > b.len() {
                None
            } else {
                Some((pos, len, samples, rate))
            }
        }
    }
}

/// The frame whose header starts at `pos` in `body`, if there is one.
pub fn frame_at(body: &[u8], pos: usize) -> (r: Option<Frame>)
    ensures
        match r {
            Some(f) => frame_spec(body@, pos as int) == Some(f@),
            None => frame_spec(body@, pos as int) is None,
        },
{
    if pos > body.len() || body.len() - pos < 4 {
        return None;
    }
    let h0 = body[pos];
    let h1 = body[pos + 1];
    let h2 = body[pos + 2];
    if h0 != 0xFF || h1 & 0xE0 != 0xE0 {
        return None;
    }
    let version = (h1 >> 3) & 0x03;
    let layer = (h1 >> 1) & 0x03;
    if version == 1 || layer != 1 {
        return None;
    }
    let bitrate_index = h2 >> 4;
    let rate_index = (h2 >> 2) & 0x03;
    let padding = ((h2 >> 1) & 0x01) as usize;
    if bitrate_index == 0 || bitrate_index == 15 || rate_index == 3 {
        return None;
    }
    let is_mpeg1 = version == 3;
    assert(bitrate_index < 16) by (bit_vector)
        requires
            bitrate_index == h2 >> 4u8,
    ;
    let bitrate = kbps(is_mpeg1, bitrate_index) * 1000;
    let rate = rate_of(version, rate_index);
    if rate == 0 {
        return None;
    }
    let (coefficient, samples): (usize, usize) = if is_mpeg1 {
        (144, 1152)
    } else {
        (72, 576)
    };
    let len = coefficient * bitrate / rate + padding;
    if len < 4 || len > body.len() - pos {
        return None;
    }
    Some(Frame { offset: pos, len, samples, rate })
}

/// The frames of `b` from `pos` on: where a frame header parses, the frame
/// and then what follows it; elsewhere one byte is skipped in search of the
/// next sync, so junk between frames (or a trailing tag) is stepped over.
pub open spec fn frames_from(b: Seq<u8>, pos: int) -> Seq<(int, int, int, int)>
    decreases b.len() - pos,
{
    if pos < 0 || pos + 4 > b.len() {
        Seq::empty()
    } else {
        match frame_spec(b, pos) {
            Some(f) => if f.1 >= 4 {
                seq![f] + frames_from(b, pos + f.1)
            } else {
                Seq::empty()
            },
            None => frames_from(b, pos + 1),
        }
    }
}

/// What every parsed frame satisfies: it lies inside the audio, has a
/// Layer III sample count and a real sample rate.
pub open spec fn frame_ok(b: Seq<u8>, f: (int, int, int, int)) -> bool {
    &&& 0 <= f.0
    &&& 4 <= f.1
    &&& f.0 + f.1 <= b.len()
    &&& (f.2 == 576 || f.2 == 1152)
    &&& (f.3 == 44100 || f.3 == 48000 || f.3 == 32000 || f.3 == 22050 || f.3 == 24000 || f.3
        == 16000 || f.3 == 11025 || f.3 == 12000 || f.3 == 8000)
}

proof fn lemma_frame_spec_ok(b: Seq<u8>, pos: int)
    ensures
        frame_spec(b, pos) matches Some(f) ==> frame_ok(b, f) && f.0 == pos,
{
}

proof fn lemma_frames_ok(b: Seq<u8>, pos: int)
    ensures
        forall|k: int|
            0 <= k < frames_from(b, pos).len() ==> frame_ok(b, #[trigger] frames_from(b, pos)[k]),
    decreases b.len() - pos,
{
    if pos < 0 || pos + 4 > b.len() {
    } else {
        lemma_frame_spec_ok(b, pos);
        match frame_spec(b, pos) {
            Some(f) => {
                if f.1 >= 4 {
                    lemma_frames_ok(b, pos + f.1);
                    let rest = frames_from(b, pos + f.1);
                    assert(frames_from(b, pos) == seq![f] + rest);
                    assert(frames_from(b, pos)[0] == f);
                    assert forall|k: int|
                        0 <= k < frames_from(b, pos).len() implies frame_ok(
                        b,
                        #[trigger] frames_from(b, pos)[k],
                    ) by {
                        if k > 0 {
                            assert(frames_from(b, pos)[k] == rest[k - 1]);
                        }
                    }
                }
            },
            None => {
                lemma_frames_ok(b, pos + 1);
                assert(frames_from(b, pos) == frames_from(b, pos + 1));
            },
        }
    }
}

/// Every frame header in `body`, in order; see `frames_from`.
pub fn parse_frames(body: &[u8]) -> (frames: Vec<Frame>)
    ensures
        frames@.map_values(|f: Frame| f@) == frames_from(body@, 0),
{
    let ghost b = body@;
    let mut frames: Vec<Frame> = Vec::new();
    let mut pos: usize = 0;
    assert(frames@.map_values(|f: Frame| f@) + frames_from(b, 0) =~= frames_from(b, 0));
    while pos <= body.len() && body.len() - pos >= 4
        invariant
            b == body@,
            pos <= b.len() + 1,
            frames@.map_values(|f: Frame| f@) + frames_from(b, pos as int) == frames_from(b, 0),
        decreases body.len() + 1 - pos,
    {
        let ghost before = frames@.map_values(|f: Frame| f@);
        match frame_at(body, pos) {
            Some(f) => {
                proof {
                    lemma_frame_spec_ok(b, pos as int);
                }
                let step = f.len;
                let ghost fv = f@;
                frames.push(f);
                assert(frames@.map_values(|f: Frame| f@) =~= before.push(fv));
                assert(frames_from(b, pos as int) == seq![fv] + frames_from(b, pos + step));
                assert(before.push(fv) + frames_from(b, pos + step) =~= before + (seq![fv]
                    + frames_from(b, pos + step)));
                pos += step;
            },
            None => {
                pos += 1;
            },
        }
    }
    assert(frames_from(b, pos as int) =~= Seq::<(int, int, int, int)>::empty());
    assert(frames@.map_values(|f: Frame| f@) + Seq::<(int, int, int, int)>::empty() =~= frames@.map_values(
        |f: Frame| f@,
    ));
    frames
}

pub open spec fn xing_tag() -> Seq<u8> {
    seq![0x58u8, 0x69u8, 0x6eu8, 0x67u8]
}

pub open spec fn info_tag() -> Seq<u8> {
    seq![0x49u8, 0x6eu8, 0x66u8, 0x6fu8]
}

pub open spec fn vbri_tag() -> Seq<u8> {
    seq![0x56u8, 0x42u8, 0x52u8, 0x49u8]
}

/// The bytes searched for a metadata marker: the frame's first 48 bytes (or
/// fewer, where the frame or the audio ends first).
pub open spec fn frame_head(b: Seq<u8>, f: (int, int, int, int)) -> Seq<u8> {
    b.subrange(f.0, min_int(min_int(f.0 + f.1, b.len() as int), f.0 + 48))
}

/// A Xing, Info or VBRI marker sits in the frame's head: the frame describes
/// the file rather than carrying audio.
pub open spec fn info_frame(b: Seq<u8>, f: (int, int, int, int)) -> bool {
    exists|k: int|
        #![trigger occurs_at(frame_head(b, f), xing_tag(), k)]
        occurs_at(frame_head(b, f), xing_tag(), k) || occurs_at(frame_head(b, f), info_tag(), k)
            || occurs_at(frame_head(b, f), vbri_tag(), k)
}

/// Whether `f` is a Xing/Info/VBRI metadata frame rather than audio.
pub fn is_info_frame(body: &[u8], f: &Frame) -> (r: bool)
    requires
        f.offset + f.len <= body@.len(),
    ensures
        r == info_frame(body@, f@),
{
    let blen = body.len();
    assert(f.offset + f.len <= blen);
    let end = f.offset + f.len;
    let stop = if end - f.offset <= 48 {
        end
    } else {
        f.offset + 48
    };
    let head = slice_copy(body, f.offset, stop);
    assert(head@ =~= frame_head(body@, f@));
    let xing: [u8; 4] = [0x58, 0x69, 0x6e, 0x67];
    let info: [u8; 4] = [0x49, 0x6e, 0x66, 0x6f];
    let vbri: [u8; 4] = [0x56, 0x42, 0x52, 0x49];
    assert(xing@ =~= xing_tag());
    assert(info@ =~= info_tag());
    assert(vbri@ =~= vbri_tag());
    let ghost h = frame_head(body@, f@);
    let mut k: usize = 0;
    while k < head.len()
        invariant
            head@ == h,
            h == frame_head(body@, f@),
            xing@ == xing_tag(),
            info@ == info_tag(),
            vbri@ == vbri_tag(),
            k <= head@.len(),
            forall|j: int|
                0 <= j < k ==> !occurs_at(h, xing_tag(), j) && !occurs_at(h, info_tag(), j)
                    && !occurs_at(h, vbri_tag(), j),
        decreases head.len() - k,
    {
        let x = matches_at(head.as_slice(), xing.as_slice(), k);
        let i = matches_at(head.as_slice(), info.as_slice(), k);
        let v = matches_at(head.as_slice(), vbri.as_slice(), k);
        if x || i || v {
            assert(occurs_at(frame_head(body@, f@), xing_tag(), k as int) || occurs_at(
                frame_head(body@, f@),
                info_tag(),
                k as int,
            ) || occurs_at(frame_head(body@, f@), vbri_tag(), k as int));
            return true;
        }
        k += 1;
    }
    assert forall|j: int|
        !(occurs_at(h, xing_tag(), j) || occurs_at(h, info_tag(), j) || occurs_at(
            h,
            vbri_tag(),
            j,
        )) by {
        if j >= k || j < 0 {
        }
    }
    false
}

// ---------------------------------------------------------------- cutting an MP3

/// The length of frame `f` in ticks of 1/14 112 000 s.
pub open spec fn frame_ticks(f: (int, int, int, int)) -> int {
    f.2 * (14112000int / f.3)
}

/// Ticks from the start of the audio to the start of frame `i`.
pub open spec fn elapsed(fs: Seq<(int, int, int, int)>, i: int) -> int
    decreases i,
{
    if i <= 0 {
        0
    } else {
        elapsed(fs, i - 1) + frame_ticks(fs[i - 1])
    }
}

/// The first frame from `i` on that is still playing after tick `start`, or
/// `dflt` when none is.
pub open spec fn first_frame(fs: Seq<(int, int, int, int)>, i: int, start: int, dflt: int) -> int
    decreases fs.len() - i,
{
    if i < 0 || i >= fs.len() {
        dflt
    } else if elapsed(fs, i) + frame_ticks(fs[i]) > start {
        i
    } else {
        first_frame(fs, i + 1, start, dflt)
    }
}

/// Walking from frame `i` while frames begin before tick `end`, the last one
/// passed (`cur` if the walk takes none).
pub open spec fn last_frame(fs: Seq<(int, int, int, int)>, i: int, end: int, cur: int) -> int
    decreases fs.len() - i,
{
    if 0 <= i < fs.len() && elapsed(fs, i) < end {
        last_frame(fs, i + 1, end, i)
    } else {
        cur
    }
}

/// The bytes of frames `from` through `to` of `b`, in order.
pub open spec fn frame_bytes(b: Seq<u8>, fs: Seq<(int, int, int, int)>, from: int, to: int) -> Seq<u8>
    decreases to - from + 1,
{
    if to < from {
        Seq::empty()
    } else {
        frame_bytes(b, fs, from, to - 1) + b.subrange(fs[to].0, fs[to].0 + fs[to].1)
    }
}

/// The audio of an MP3 file `d` after its tag.
pub open spec fn mp3_body(d: Seq<u8>) -> Seq<u8> {
    d.skip(id3_end(d))
}

/// The frame a cut may not start before: past a leading metadata frame.
pub open spec fn audio_start(d: Seq<u8>) -> int {
    let b = mp3_body(d);
    let fs = frames_from(b, 0);
    if fs.len() > 0 && info_frame(b, fs[0]) {
        1
    } else {
        0
    }
}

/// An MP3 whose only frame is a metadata frame: there is no audio frame to
/// keep, and no cut can be made.
pub open spec fn lone_info_frame(d: Seq<u8>) -> bool {
    let b = mp3_body(d);
    let fs = frames_from(b, 0);
    fs.len() == 1 && info_frame(b, fs[0])
}

/// The cut of the MP3 `d` between ticks `start` and `end`: whole frames from
/// the first still playing after `start` (never a leading metadata frame,
/// whose length and seek table describe the uncut file) through the last
/// beginning before `end`, with their length in ticks.
pub open spec fn mp3_cut_spec(d: Seq<u8>, start: int, end: int) -> Result<(Seq<u8>, int), TrimError> {
    let b = mp3_body(d);
    let fs = frames_from(b, 0);
    if fs.len() == 0 {
        Err(TrimError::NoMp3Audio)
    } else {
        let skip = audio_start(d);
        let first = first_frame(fs, skip, start, skip);
        let last = last_frame(fs, first, end, first);
        Ok((frame_bytes(b, fs, first, last), elapsed(fs, last + 1) - elapsed(fs, first)))
    }
}

proof fn lemma_frame_ticks(b: Seq<u8>, f: (int, int, int, int))
    requires
        frame_ok(b, f),
    ensures
        0 < frame_ticks(f) <= 2032128,
{
}

proof fn lemma_elapsed(b: Seq<u8>, fs: Seq<(int, int, int, int)>, i: int)
    requires
        0 <= i <= fs.len(),
        forall|k: int| 0 <= k < fs.len() ==> frame_ok(b, #[trigger] fs[k]),
    ensures
        0 <= elapsed(fs, i) <= i * 2032128,
        forall|j: int| 0 <= j < i ==> elapsed(fs, j) < elapsed(fs, i),
    decreases i,
{
    if i > 0 {
        lemma_elapsed(b, fs, i - 1);
        lemma_frame_ticks(b, fs[i - 1]);
    }
}

/// Tick counts of up to `n` frames fit in 128 bits.
spec fn n_bound(n: int) -> bool {
    n * 2032128 < 0x1_0000_0000_0000_0000_0000_0000_0000_0000
}

fn ticks_of(f: &Frame) -> (t: u128)
    requires
        f.rate > 0,
        f.samples <= 1152,
        f.rate >= 8000,
    ensures
        t == frame_ticks(f@),
{
    let per: usize = 14112000 / f.rate;
    assert(per <= 1764) by (nonlinear_arith)
        requires
            per == 14112000int / (f.rate as int),
            f.rate >= 8000,
    ;
    assert((f.samples as int) * (per as int) <= 1152 * 1764) by (nonlinear_arith)
        requires
            f.samples <= 1152,
            per <= 1764,
    ;
    (f.samples as u128) * (per as u128)
}

proof fn lemma_first_frame(fs: Seq<(int, int, int, int)>, i: int, start: int, dflt: int)
    requires
        0 <= i,
    ensures
        first_frame(fs, i, start, dflt) == dflt || (i <= first_frame(fs, i, start, dflt) < fs.len()),
    decreases fs.len() - i,
{
    if i < fs.len() && !(elapsed(fs, i) + frame_ticks(fs[i]) > start) {
        lemma_first_frame(fs, i + 1, start, dflt);
    }
}

proof fn lemma_last_frame(fs: Seq<(int, int, int, int)>, i: int, end: int, cur: int)
    requires
        0 <= cur < fs.len(),
        cur <= i,
    ensures
        cur <= last_frame(fs, i, end, cur) < fs.len(),
    decreases fs.len() - i,
{
    if 0 <= i < fs.len() && elapsed(fs, i) < end {
        lemma_last_frame(fs, i + 1, end, i);
    }
}

/// Cut the MP3 `data` between ticks `start` and `end` (see `mp3_cut_spec`):
/// the kept frames' bytes and their length in ticks.
#[verifier::rlimit(40)]
#[verifier::spinoff_prover]
pub fn trim_mp3(data: &[u8], start: u64, end: u64) -> (r: Result<(Vec<u8>, u128), TrimError>)
    requires
        !lone_info_frame(data@),
    ensures
        match r {
            Ok((bytes, ticks)) => mp3_cut_spec(data@, start as int, end as int) == Ok::<
                (Seq<u8>, int),
                TrimError,
            >((bytes@, ticks as int)),
            Err(e) => mp3_cut_spec(data@, start as int, end as int) == Err::<(Seq<u8>, int), TrimError>(
                e,
            ),
        },
{
    let body = skip_id3v2(data);
    let ghost b = body@;
    let frames = parse_frames(body.as_slice());
    let ghost fs = frames@.map_values(|f: Frame| f@);
    assert(b == mp3_body(data@));
    assert(n_bound(frames@.len() as int)) by {
        assert(frames@.len() * 2032128 < 0x1_0000_0000_0000_0000_0000_0000_0000_0000) by (nonlinear_arith)
            requires
                frames@.len() <= usize::MAX,
                usize::MAX < 0x1_0000_0000_0000_0000,
        ;
    }
    assert(fs == frames_from(b, 0));
    if frames.len() == 0 {
        return Err(TrimError::NoMp3Audio);
    }
    proof {
        lemma_frames_ok(b, 0);
        assert forall|k: int| 0 <= k < fs.len() implies frame_ok(b, #[trigger] fs[k]) by {
            assert(fs[k] == frames_from(b, 0)[k]);
        }
        lemma_elapsed(b, fs, fs.len() as int);
    }
    let n = frames.len();
    let mut times: Vec<u128> = Vec::new();
    let mut total: u128 = 0;
    let mut i: usize = 0;
    while i < n
        invariant
            n == frames@.len(),
            fs == frames@.map_values(|f: Frame| f@),
            forall|k: int| 0 <= k < fs.len() ==> frame_ok(b, #[trigger] fs[k]),
            i <= n,
            times@.len() == i,
            forall|k: int| 0 <= k < i ==> times@[k] == elapsed(fs, k),
            total == elapsed(fs, i as int),
            0 <= elapsed(fs, n as int) <= n * 2032128,
            n_bound(n as int),
            forall|j: int| 0 <= j < n ==> elapsed(fs, j) < elapsed(fs, n as int),
        decreases n - i,
    {
        times.push(total);
        assert(frame_ok(b, fs[i as int]));
        assert(fs[i as int] == frames@[i as int]@);
        let t = ticks_of(&frames[i]);
        assert(elapsed(fs, i + 1) == total + t);
        assert(elapsed(fs, i + 1) <= elapsed(fs, n as int)) by {
            if i + 1 < n {
                assert(elapsed(fs, i + 1) < elapsed(fs, n as int));
            }
        }
        total = total + t;
        i += 1;
    }
    assert(frame_ok(b, fs[0]));
    assert(fs[0] == frames@[0]@);
    let skip: usize = if is_info_frame(body.as_slice(), &frames[0]) {
        1
    } else {
        0
    };
    assert(skip == audio_start(data@));
    // The first frame still sounding after `start`.
    let mut first = skip;
    let mut k = skip;
    while k < n
        invariant_except_break
            first == skip,
        invariant
            n == fs.len(),
            skip <= k <= n,
            times@.len() == n,
            forall|j: int| 0 <= j < n ==> times@[j] == elapsed(fs, j),
            fs == frames@.map_values(|f: Frame| f@),
            forall|j: int| 0 <= j < fs.len() ==> frame_ok(b, #[trigger] fs[j]),
            0 <= elapsed(fs, n as int) <= n * 2032128,
            n_bound(n as int),
            forall|j: int| 0 <= j < n ==> elapsed(fs, j) < elapsed(fs, n as int),
            first_frame(fs, k as int, start as int, skip as int) == first_frame(
                fs,
                skip as int,
                start as int,
                skip as int,
            ),
        ensures
            first == first_frame(fs, skip as int, start as int, skip as int),
        decreases n - k,
    {
        assert(frame_ok(b, fs[k as int]));
        assert(fs[k as int] == frames@[k as int]@);
        let t = ticks_of(&frames[k]);
        assert(elapsed(fs, k + 1) == times@[k as int] + t);
        assert(elapsed(fs, k + 1) <= elapsed(fs, n as int)) by {
            if k + 1 < n {
                assert(elapsed(fs, k + 1) < elapsed(fs, n as int));
            }
        }
        if times[k] + t > start as u128 {
            first = k;
            break;
        }
        k += 1;
    }
    proof {
        lemma_first_frame(fs, skip as int, start as int, skip as int);
    }
    // Through the last frame that begins before `end`.
    let mut last = first;
    let mut j = first;
    while j < n && times[j] < end as u128
        invariant
            n == fs.len(),
            first < n,
            first <= last < n,
            last <= j <= n,
            j == first || last + 1 == j,
            times@.len() == n,
            forall|m: int| 0 <= m < n ==> times@[m] == elapsed(fs, m),
            last_frame(fs, j as int, end as int, last as int) == last_frame(
                fs,
                first as int,
                end as int,
                first as int,
            ),
        decreases n - j,
    {
        last = j;
        j += 1;
    }
    assert(last_frame(fs, j as int, end as int, last as int) == last as int);
    assert(frame_ok(b, fs[last as int]));
    assert(fs[last as int] == frames@[last as int]@);
    let tl = ticks_of(&frames[last]);
    assert(times@[last as int] == elapsed(fs, last as int));
    assert(tl == frame_ticks(fs[last as int]));
    assert(elapsed(fs, last + 1) == elapsed(fs, last as int) + frame_ticks(fs[last as int]));
    assert(elapsed(fs, first as int) <= elapsed(fs, last as int)) by {
        if first < last {
            lemma_elapsed(b, fs, last as int);
        }
    }
    let dur = times[last] + tl - times[first];
    // Copy the chosen frames.
    let mut out: Vec<u8> = Vec::new();
    let mut m = first;
    while m <= last
        invariant
            n == fs.len(),
            first <= m <= last + 1,
            last < n,
            b == body@,
            fs == frames@.map_values(|f: Frame| f@),
            forall|q: int| 0 <= q < fs.len() ==> frame_ok(b, #[trigger] fs[q]),
            out@ == frame_bytes(b, fs, first as int, m - 1),
        decreases last + 1 - m,
    {
        assert(frame_ok(b, fs[m as int]));
        assert(fs[m as int] == frames@[m as int]@);
        let f = &frames[m];
        assert(f.offset + f.len <= body.len());
        let piece = slice_copy(body.as_slice(), f.offset, f.offset + f.len);
        extend(&mut out, piece.as_slice());
        assert(frame_bytes(b, fs, first as int, m as int) == frame_bytes(b, fs, first as int, m - 1)
            + b.subrange(fs[m as int].0, fs[m as int].0 + fs[m as int].1));
        m += 1;
    }
    Ok((out, dur))
}

// ---------------------------------------------------------------- laws

/// A WAV cut of audio that is whole sample frames starts and ends on a
/// frame; started inside the audio, it keeps at least one frame.
pub proof fn lemma_wav_cut_on_frames(raw_from: int, raw_to: int, ba: int, alen: int)
    requires
        raw_from >= 0,
        raw_to >= 0,
        ba > 0,
        raw_from < alen,
        alen % ba == 0,
    ensures
        cut_from(raw_from, ba, alen) % ba == 0,
        (cut_to(raw_from, raw_to, ba, alen) - cut_from(raw_from, ba, alen)) % ba == 0,
        0 <= cut_from(raw_from, ba, alen) < cut_to(raw_from, raw_to, ba, alen) <= alen,
{
    lemma_round_down(raw_from, ba);
    lemma_round_down(raw_to, ba);
    lemma_round_down(alen, ba);
    let cap = alen / ba * ba;
    assert(cap == alen) by (nonlinear_arith)
        requires
            alen % ba == 0,
            ba > 0,
            cap == alen / ba * ba,
    ;
    let from = cut_from(raw_from, ba, alen);
    let to = cut_to(raw_from, raw_to, ba, alen);
    assert(from % ba == 0);
    if from + ba <= alen {
        let s = snap(raw_to, ba, alen);
        assert(s % ba == 0);
        assert(to == max_int(s, from + ba));
        assert((from + ba) % ba == 0) by (nonlinear_arith)
            requires
                from % ba == 0,
                ba > 0,
        ;
        let q1 = to / ba;
        let q2 = from / ba;
        vstd::arithmetic::div_mod::lemma_fundamental_div_mod(to, ba);
        vstd::arithmetic::div_mod::lemma_fundamental_div_mod(from, ba);
        assert(to - from == (q1 - q2) * ba) by (nonlinear_arith)
            requires
                to == ba * q1,
                from == ba * q2,
        ;
        vstd::arithmetic::div_mod::lemma_fundamental_div_mod_converse_mod(to - from, ba, q1 - q2, 0);
    } else {
        assert(raw_from / ba * ba + ba <= alen) by (nonlinear_arith)
            requires
                raw_from < alen,
                alen % ba == 0,
                ba > 0,
                raw_from >= 0,
        ;
    }
}

/// The header of a cut WAV says what the file holds: its RIFF size is the
/// file's length less eight, and the data chunk's size is the audio's length.
pub proof fn lemma_wav_header(fmt: Seq<u8>, cut: Seq<u8>)
    requires
        20 + fmt.len() + cut.len() < 0x1_0000_0000,
    ensures
        wav_file(fmt, cut).len() == 28 + fmt.len() + cut.len(),
        wav_file(fmt, cut).subrange(0, 4) == riff_tag(),
        wav_file(fmt, cut).subrange(4, 8) == le32((wav_file(fmt, cut).len() - 8) as u32),
        wav_file(fmt, cut).subrange(8, 12) == wave_tag(),
        wav_file(fmt, cut).subrange(20, 20 + fmt.len() as int) == fmt,
        wav_file(fmt, cut).subrange(24 + fmt.len() as int, 28 + fmt.len() as int) == le32(cut.len() as u32),
        wav_file(fmt, cut).skip(28 + fmt.len() as int) == cut,
{
    let w = wav_file(fmt, cut);
    let riff = le32((20 + fmt.len() + cut.len()) as u32);
    let fl = le32(fmt.len() as u32);
    let cl = le32(cut.len() as u32);
    assert(w =~= riff_tag() + riff + wave_tag() + fmt_tag() + fl + fmt + data_tag() + cl + cut);
    assert(w.subrange(0, 4) =~= riff_tag());
    assert(w.subrange(4, 8) =~= riff);
    assert(w.subrange(8, 12) =~= wave_tag());
    assert(w.subrange(20, 20 + fmt.len() as int) =~= fmt);
    assert(w.subrange(24 + fmt.len() as int, 28 + fmt.len() as int) =~= cl);
    assert(w.skip(28 + fmt.len() as int) =~= cut);
}

/// An MP3 cut keeps whole frames, at least one, and never starts on a
/// leading metadata frame: the kept run lies within the frames that follow
/// it.
pub proof fn lemma_mp3_cut_frames(d: Seq<u8>, start: int, end: int)
    requires
        !lone_info_frame(d),
        frames_from(mp3_body(d), 0).len() > 0,
    ensures
        ({
            let fs = frames_from(mp3_body(d), 0);
            let skip = audio_start(d);
            let first = first_frame(fs, skip, start, skip);
            let last = last_frame(fs, first, end, first);
            &&& skip <= first <= last < fs.len()
            &&& (info_frame(mp3_body(d), fs[0]) ==> first >= 1)
        }),
{
    let fs = frames_from(mp3_body(d), 0);
    let skip = audio_start(d);
    lemma_first_frame(fs, skip, start, skip);
    let first = first_frame(fs, skip, start, skip);
    lemma_last_frame(fs, first, end, first);
}

// ---------------------------------------------------------------- laws of the chunk walk

/// The position of the chunk `k` chunks on from the one at `pos` in a RIFF
/// file: each chunk takes its 8-byte header, the body size it declares, and
/// one pad byte after an odd-sized body.
pub open spec fn riff_chunk_after(d: Seq<u8>, pos: int, k: nat) -> int
    decreases k,
{
    if k == 0 {
        pos
    } else {
        let size = le32_at(d, pos + 4);
        riff_chunk_after(d, pos + 8 + size + (if size % 2 == 1 { 1int } else { 0int }), (k - 1) as nat)
    }
}

proof fn lemma_walk_keeps_audio(d: Seq<u8>, pos: int, fmt: Option<(int, int)>, audio: Option<(int, int)>)
    requires
        audio is Some,
    ensures
        chunk_walk(d, pos, fmt, audio).1 is Some,
    decreases d.len() - pos,
{
    if pos >= 0 && pos + 8 <= d.len() {
        let size = le32_at(d, pos + 4);
        let next = pos + 8 + size + size % 2;
        let body = (pos + 8, min_int(pos + 8 + size, d.len() as int));
        let id = d.subrange(pos, pos + 4);
        let fmt2 = if id == fmt_tag() { Some(body) } else { fmt };
        let audio2 = if id == data_tag() { Some(body) } else { audio };
        if next <= d.len() {
            lemma_walk_keeps_audio(d, next, fmt2, audio2);
        }
    }
}

proof fn lemma_walk_finds_data(
    d: Seq<u8>,
    pos: int,
    k: nat,
    fmt: Option<(int, int)>,
    audio: Option<(int, int)>,
)
    requires
        pos >= 0,
        forall|j: nat| j <= k ==> #[trigger] riff_chunk_after(d, pos, j) + 8 <= d.len(),
        d.subrange(riff_chunk_after(d, pos, k), riff_chunk_after(d, pos, k) + 4) == data_tag(),
    ensures
        chunk_walk(d, pos, fmt, audio).1 is Some,
    decreases k,
{
    assert(riff_chunk_after(d, pos, 0) == pos);
    assert(pos + 8 <= d.len());
    let size = le32_at(d, pos + 4);
    let next = pos + 8 + size + size % 2;
    let body = (pos + 8, min_int(pos + 8 + size, d.len() as int));
    let id = d.subrange(pos, pos + 4);
    let fmt2 = if id == fmt_tag() { Some(body) } else { fmt };
    let audio2 = if id == data_tag() { Some(body) } else { audio };
    if k == 0 {
        if next <= d.len() {
            lemma_walk_keeps_audio(d, next, fmt2, audio2);
        }
    } else {
        assert(next == pos + 8 + size + (if size % 2 == 1 { 1int } else { 0int }));
        assert forall|j: nat| j <= (k - 1) as nat implies #[trigger] riff_chunk_after(d, next, j) + 8
            <= d.len() by {
            assert(riff_chunk_after(d, pos, j + 1) == riff_chunk_after(d, next, j));
        }
        assert(riff_chunk_after(d, pos, k) == riff_chunk_after(d, next, (k - 1) as nat));
        assert(riff_chunk_after(d, next, 0) == next);
        lemma_walk_finds_data(d, next, (k - 1) as nat, fmt2, audio2);
    }
}

/// A WAV's audio is found wherever its `data` chunk sits in the chain of
/// chunks after the header, each chunk followed by a pad byte when its size
/// is odd: such a file is never refused for having no audio.
pub proof fn lemma_wav_data_is_found(d: Seq<u8>, k: nat)
    requires
        forall|j: nat| j <= k ==> #[trigger] riff_chunk_after(d, 12, j) + 8 <= d.len(),
        d.subrange(riff_chunk_after(d, 12, k), riff_chunk_after(d, 12, k) + 4) == data_tag(),
    ensures
        chunk_walk(d, 12, None, None).1 is Some,
        !(wav_layout_spec(d) matches Err(TrimError::NoAudio)),
{
    lemma_walk_finds_data(d, 12, k, None, None);
}

// ---------------------------------------------------------------- laws of the MP3 cut

proof fn lemma_first_frame_found(fs: Seq<(int, int, int, int)>, i: int, start: int, dflt: int)
    requires
        0 <= i,
    ensures
        ({
            let r = first_frame(fs, i, start, dflt);
            ||| (r == dflt && forall|j: int| i <= j < fs.len() ==> elapsed(fs, j) + frame_ticks(
                #[trigger] fs[j],
            ) <= start)
            ||| (i <= r < fs.len() && elapsed(fs, r) + frame_ticks(fs[r]) > start && forall|j: int|
                i <= j < r ==> elapsed(fs, j) + frame_ticks(#[trigger] fs[j]) <= start)
        }),
    decreases fs.len() - i,
{
    if i < fs.len() && !(elapsed(fs, i) + frame_ticks(fs[i]) > start) {
        lemma_first_frame_found(fs, i + 1, start, dflt);
    }
}

proof fn lemma_last_frame_found(
    b: Seq<u8>,
    fs: Seq<(int, int, int, int)>,
    i: int,
    end: int,
    cur: int,
)
    requires
        0 <= cur < fs.len(),
        i == cur + 1 || i == cur,
        i == cur + 1 ==> elapsed(fs, cur) < end,
        forall|k: int| 0 <= k < fs.len() ==> frame_ok(b, #[trigger] fs[k]),
    ensures
        ({
            let r = last_frame(fs, i, end, cur);
            &&& cur <= r < fs.len()
            &&& forall|j: int| cur < j <= r ==> elapsed(fs, j) < end
            &&& r + 1 < fs.len() ==> elapsed(fs, r + 1) >= end
        }),
    decreases fs.len() - i,
{
    lemma_last_frame(fs, i, end, cur);
    if 0 <= i < fs.len() && elapsed(fs, i) < end {
        lemma_last_frame_found(b, fs, i + 1, end, i);
    } else {
        if cur + 1 < fs.len() {
            lemma_elapsed(b, fs, cur + 1);
            if i == cur {
                assert(elapsed(fs, cur) >= end);
            }
        }
    }
}

/// An MP3 cut from tick `start` to tick `end` keeps a run of whole frames,
/// `first` through `last`, after any leading metadata frame: its bytes are
/// exactly those frames' bytes, and its length is exactly their playing
/// time. No frame that stops sounding at or before `start` is kept (unless
/// nothing sounds after `start`, when the cut starts at the first audio
/// frame); `first` is still sounding after `start`; every other kept frame
/// begins before `end`; and the frame after `last`, if any, begins at or
/// after `end`.
#[verifier::rlimit(30)]
pub proof fn lemma_mp3_cut_keeps_the_section(d: Seq<u8>, start: int, end: int)
    requires
        !lone_info_frame(d),
        frames_from(mp3_body(d), 0).len() > 0,
    ensures
        ({
            let b = mp3_body(d);
            let fs = frames_from(b, 0);
            let skip = audio_start(d);
            exists|first: int, last: int|
                #![trigger frame_bytes(b, fs, first, last)]
                {
                    &&& skip <= first <= last < fs.len()
                    &&& mp3_cut_spec(d, start, end) == Ok::<(Seq<u8>, int), TrimError>(
                        (frame_bytes(b, fs, first, last), elapsed(fs, last + 1) - elapsed(fs, first)),
                    )
                    &&& forall|j: int|
                        skip <= j < first ==> elapsed(fs, j) + frame_ticks(#[trigger] fs[j]) <= start
                    &&& (elapsed(fs, first) + frame_ticks(fs[first]) > start || (first == skip
                        && forall|j: int|
                        skip <= j < fs.len() ==> elapsed(fs, j) + frame_ticks(#[trigger] fs[j])
                            <= start))
                    &&& forall|j: int| first < j <= last ==> elapsed(fs, j) < end
                    &&& last + 1 < fs.len() ==> elapsed(fs, last + 1) >= end
                }
        }),
{
    let b = mp3_body(d);
    let fs = frames_from(b, 0);
    let skip = audio_start(d);
    lemma_frames_ok(b, 0);
    lemma_mp3_cut_frames(d, start, end);
    lemma_first_frame_found(fs, skip, start, skip);
    let first = first_frame(fs, skip, start, skip);
    lemma_last_frame_found(b, fs, first, end, first);
    let last = last_frame(fs, first, end, first);
    assert(frame_bytes(b, fs, first, last) == frame_bytes(b, fs, first, last));
}

} // verus!
