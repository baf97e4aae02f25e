//! What the library makes of the engine's replies: job status words and the
//! `multipart/mixed` bodies that carry rendered audio, latents and analyses.
//! The HTTP exchange itself lives with the application.

use vstd::prelude::*;
use crate::bytes::{
    contains_bytes, ends_with_bytes, find_bytes, first_occurrence, lemma_first_occurrence,
    lower_bytes, lowered, occurs_at, slice_copy,
};
use crate::engine::texts;
use crate::text::{chars_of, chars_eq, string_of, trim, trimmed};

verus! {

/// The state of an engine job.
#[derive(Debug, Clone, Copy, PartialEq, Eq, Structural)]
pub enum JobStatus {
    Queued,
    Running,
    Done,
    Failed,
    Cancelled,
}

impl JobStatus {
    /// A job in this state will not change again.
    pub open spec fn terminal(self) -> bool {
        self is Done || self is Failed || self is Cancelled
    }

    /// Whether the job has finished, one way or another.
    pub fn is_terminal(self) -> (r: bool)
        ensures
            r == self.terminal(),
    {
        match self {
            JobStatus::Done | JobStatus::Failed | JobStatus::Cancelled => true,
            _ => false,
        }
    }
}

/// The status a job-status word names.
pub open spec fn status_spec(word: Seq<char>) -> Option<JobStatus> {
    if word == "done"@ {
        Some(JobStatus::Done)
    } else if word == "running"@ {
        Some(JobStatus::Running)
    } else if word == "queued"@ {
        Some(JobStatus::Queued)
    } else if word == "failed"@ {
        Some(JobStatus::Failed)
    } else if word == "cancelled"@ {
        Some(JobStatus::Cancelled)
    } else {
        None
    }
}

fn same_text(v: &Vec<char>, w: &str) -> (r: bool)
    ensures
        r == (v@ == w@),
{
    let wv = chars_of(w);
    chars_eq(v, &wv)
}

/// The status named by the engine's `status` field. Any other word is
/// refused rather than guessed at.
pub fn status_from_word(word: &str) -> (r: Option<JobStatus>)
    ensures
        r == status_spec(word@),
{
    let v = chars_of(word);
    if same_text(&v, "done") {
        Some(JobStatus::Done)
    } else if same_text(&v, "running") {
        Some(JobStatus::Running)
    } else if same_text(&v, "queued") {
        Some(JobStatus::Queued)
    } else if same_text(&v, "failed") {
        Some(JobStatus::Failed)
    } else if same_text(&v, "cancelled") {
        Some(JobStatus::Cancelled)
    } else {
        None
    }
}

/// Why a poll of a job gave no status.
#[derive(Debug)]
pub enum PollError {
    /// An empty reply: the engine died, usually from a lost GPU device.
    Silent,
    /// A reply that is not JSON.
    Malformed,
    /// A `status` field missing, or holding a word that names no status.
    Unknown(Option<String>),
}

/// What a poll reply means, in the abstract.
pub enum PollView {
    Status(JobStatus),
    Silent,
    Malformed,
    Unknown(Option<Seq<char>>),
}

/// A poll reply `text` whose JSON reading is `parsed` (None when it is not
/// JSON, else the `status` string if there is one): blank text first means a
/// dead engine, then unreadable JSON, then the status word, which must be a
/// known one.
pub open spec fn poll_spec(text: Seq<char>, parsed: Option<Option<Seq<char>>>) -> PollView {
    if trim(text).len() == 0 {
        PollView::Silent
    } else {
        match parsed {
            None => PollView::Malformed,
            Some(None) => PollView::Unknown(None),
            Some(Some(w)) => match status_spec(w) {
                Some(st) => PollView::Status(st),
                None => PollView::Unknown(Some(w)),
            },
        }
    }
}

/// The view of a poll's result.
pub open spec fn poll_view(r: Result<JobStatus, PollError>) -> PollView {
    match r {
        Ok(st) => PollView::Status(st),
        Err(PollError::Silent) => PollView::Silent,
        Err(PollError::Malformed) => PollView::Malformed,
        Err(PollError::Unknown(None)) => PollView::Unknown(None),
        Err(PollError::Unknown(Some(w))) => PollView::Unknown(Some(w@)),
    }
}

/// The views of an optional parsed status.
pub open spec fn parsed_view(parsed: Option<Option<String>>) -> Option<Option<Seq<char>>> {
    match parsed {
        None => None,
        Some(None) => Some(None),
        Some(Some(w)) => Some(Some(w@)),
    }
}

/// Read a poll reply: `text` is its body, `parsed` its JSON reading (see
/// `poll_text`, which makes that reading).
pub fn poll_reply(text: &str, parsed: Option<Option<String>>) -> (r: Result<JobStatus, PollError>)
    ensures
        poll_view(r) == poll_spec(text@, parsed_view(parsed)),
{
    let t = trimmed(&chars_of(text));
    if t.len() == 0 {
        return Err(PollError::Silent);
    }
    match parsed {
        None => Err(PollError::Malformed),
        Some(None) => Err(PollError::Unknown(None)),
        Some(Some(w)) => match status_from_word(w.as_str()) {
            Some(st) => Ok(st),
            None => Err(PollError::Unknown(Some(w))),
        },
    }
}

/// What `serde_json` reads from `text` under `key`: None when `text` is not
/// JSON; otherwise the string held under `key` when `text` is an object that
/// has one there, and `Some(None)` when it is not an object, lacks the key,
/// or holds something other than a string under it.
pub uninterp spec fn json_string_field(text: Seq<char>, key: Seq<char>) -> Option<Option<Seq<char>>>;

/// `serde_json::from_str` into a `serde_json::Value`, then `Value::get(key)`
/// and `Value::as_str`. Claimed: the result is `json_string_field` of the
/// text and the key, the same on every call; what that reading is on given
/// text is left to serde_json and not stated here.
#[verifier::external_body]
fn read_string_field(text: &str, key: &str) -> (r: Option<Option<String>>)
    ensures
        parsed_view(r) == json_string_field(text@, key@),
{
    match serde_json::from_str::<serde_json::Value>(text) {
        Ok(v) => Some(v.get(key).and_then(serde_json::Value::as_str).map(String::from)),
        Err(_) => None,
    }
}

/// Read the body of a poll reply: blank means the engine died, then the body
/// must be JSON, and its `status` field a known status word.
pub fn poll_text(text: &str) -> (r: Result<JobStatus, PollError>)
    ensures
        poll_view(r) == poll_spec(text@, json_string_field(text@, "status"@)),
{
    let parsed = read_string_field(text, "status");
    poll_reply(text, parsed)
}

/// The string the JSON reply `text` holds under `key`, if it holds one.
pub fn string_field(text: &str, key: &str) -> (r: Option<String>)
    ensures
        match json_string_field(text@, key@) {
            Some(Some(v)) => r matches Some(x) && x@ == v,
            _ => r is None,
        },
{
    match read_string_field(text, key) {
        Some(Some(v)) => Some(v),
        _ => None,
    }
}

/// The job id in the reply to a submitted job: its `id` string.
pub fn reply_job_id(text: &str) -> (r: Option<String>)
    ensures
        match json_string_field(text@, "id"@) {
            Some(Some(v)) => r matches Some(x) && x@ == v,
            _ => r is None,
        },
{
    string_field(text, "id")
}

/// What `serde_json` reads from `text` under `key` as a whole number: None
/// when `text` is not JSON; `Some(Some(n))` when it is an object holding an
/// integer that fits an `i64` there; `Some(None)` otherwise.
pub uninterp spec fn json_int_field(text: Seq<char>, key: Seq<char>) -> Option<Option<i64>>;

/// `serde_json::from_str` into a `serde_json::Value`, then `Value::get(key)`
/// and `Value::as_i64`. Claimed: the result is `json_int_field` of the text
/// and the key; what that reading is on given text is left to serde_json.
#[verifier::external_body]
fn read_int_field(text: &str, key: &str) -> (r: Option<Option<i64>>)
    ensures
        r == json_int_field(text@, key@),
{
    match serde_json::from_str::<serde_json::Value>(text) {
        Ok(v) => Some(v.get(key).and_then(serde_json::Value::as_i64)),
        Err(_) => None,
    }
}

/// The whole number the JSON reply `text` holds under `key`, if it holds one.
pub fn int_field(text: &str, key: &str) -> (r: Option<i64>)
    ensures
        match json_int_field(text@, key@) {
            Some(Some(n)) => r == Some(n),
            _ => r is None,
        },
{
    match read_int_field(text, key) {
        Some(Some(n)) => Some(n),
        _ => None,
    }
}

/// What `serde_json` reads from `text` as a whole: None when it is not JSON;
/// `Ok` with the JSON text of each item when it is an array; `Err` with the
/// JSON text of the value when it is anything else.
pub uninterp spec fn json_shape(text: Seq<char>) -> Option<Result<Seq<Seq<char>>, Seq<char>>>;

/// The same reading of raw bytes, which must also be UTF-8.
pub uninterp spec fn json_bytes_shape(bytes: Seq<u8>) -> Option<Result<Seq<Seq<char>>, Seq<char>>>;

/// The view of a JSON reading.
pub open spec fn shape_view(r: Option<Result<Vec<String>, String>>) -> Option<
    Result<Seq<Seq<char>>, Seq<char>>,
> {
    match r {
        None => None,
        Some(Ok(items)) => Some(Ok(texts(items@))),
        Some(Err(v)) => Some(Err(v@)),
    }
}

/// `serde_json::from_str` into a `serde_json::Value`; an array is handed out
/// as its items and anything else as itself, each written back as JSON text
/// by `Value`'s `Display`. Claimed: the result is `json_shape` of the text.
#[verifier::external_body]
pub(crate) fn read_shape(text: &str) -> (r: Option<Result<Vec<String>, String>>)
    ensures
        shape_view(r) == json_shape(text@),
{
    match serde_json::from_str::<serde_json::Value>(text) {
        Ok(serde_json::Value::Array(items)) => Some(Ok(items.iter().map(|v| v.to_string()).collect())),
        Ok(v) => Some(Err(v.to_string())),
        Err(_) => None,
    }
}

/// `serde_json::from_slice` into a `serde_json::Value`, handed out as
/// `read_shape` does. Claimed: the result is `json_bytes_shape` of the bytes.
#[verifier::external_body]
fn read_bytes_shape(bytes: &[u8]) -> (r: Option<Result<Vec<String>, String>>)
    ensures
        shape_view(r) == json_bytes_shape(bytes@),
{
    match serde_json::from_slice::<serde_json::Value>(bytes) {
        Ok(serde_json::Value::Array(items)) => Some(Ok(items.iter().map(|v| v.to_string()).collect())),
        Ok(v) => Some(Err(v.to_string())),
        Err(_) => None,
    }
}

/// What `serde_json` reads from `text` under `key`, as JSON text: None when
/// `text` is not JSON; `Some(None)` when it is not an object or lacks the
/// key; else the JSON text of the value there.
pub uninterp spec fn json_field_text(text: Seq<char>, key: Seq<char>) -> Option<Option<Seq<char>>>;

/// `serde_json::from_str` into a `serde_json::Value`, then `Value::get(key)`,
/// written back as JSON text by `Value`'s `Display`. Claimed: the result is
/// `json_field_text` of the text and the key.
#[verifier::external_body]
fn read_field_text(text: &str, key: &str) -> (r: Option<Option<String>>)
    ensures
        parsed_view(r) == json_field_text(text@, key@),
{
    match serde_json::from_str::<serde_json::Value>(text) {
        Ok(v) => Some(v.get(key).map(|x| x.to_string())),
        Err(_) => None,
    }
}

/// The JSON text of the value the JSON reply `text` holds under `key`.
pub fn field_text(text: &str, key: &str) -> (r: Option<String>)
    ensures
        match json_field_text(text@, key@) {
            Some(Some(v)) => r matches Some(x) && x@ == v,
            _ => r is None,
        },
{
    match read_field_text(text, key) {
        Some(Some(v)) => Some(v),
        _ => None,
    }
}

/// Why a job's JSON result could not be used.
#[derive(Debug, Clone, Copy, PartialEq, Eq, Structural)]
pub enum ResultError {
    /// The reply, or one of its JSON parts, is not JSON.
    NotJson,
    /// The reply is an empty array, or holds no JSON part at all.
    Nothing,
}

/// The enriched requests in an `/lm` result `text`, one per take, each as
/// JSON text: the items of a non-empty array, or the one value when the
/// reply is not an array. An empty array is no result.
pub fn lm_results_text(text: &str) -> (r: Result<Vec<String>, ResultError>)
    ensures
        match json_shape(text@) {
            None => r == Err::<Vec<String>, ResultError>(ResultError::NotJson),
            Some(Ok(items)) => if items.len() > 0 {
                r matches Ok(v) && texts(v@) == items
            } else {
                r == Err::<Vec<String>, ResultError>(ResultError::Nothing)
            },
            Some(Err(one)) => r matches Ok(v) && texts(v@) == seq![one],
        },
{
    match read_shape(text) {
        None => Err(ResultError::NotJson),
        Some(Ok(items)) => if items.len() > 0 {
            Ok(items)
        } else {
            Err(ResultError::Nothing)
        },
        Some(Err(one)) => {
            let mut v: Vec<String> = Vec::new();
            v.push(one);
            proof {
                assert(texts(v@) =~= seq![one@]);
            }
            Ok(v)
        },
    }
}

/// `[]`, the JSON text of an empty array.
pub open spec fn empty_array() -> Seq<char> {
    seq!['[', ']']
}

/// The analysis a JSON part read as `shape` gives: the first item of a
/// non-empty array, else the value itself.
pub open spec fn analysis_of(shape: Result<Seq<Seq<char>>, Seq<char>>) -> Seq<char> {
    match shape {
        Ok(items) => if items.len() > 0 {
            items[0]
        } else {
            empty_array()
        },
        Err(v) => v,
    }
}

/// The analysis in an `/understand` result whose JSON parts are `parts`:
/// every part must be JSON, and the last one gives the analysis.
pub open spec fn analysis_spec(parts: Seq<Seq<u8>>) -> Result<Seq<char>, ResultError> {
    if exists|i: int| 0 <= i < parts.len() && json_bytes_shape(#[trigger] parts[i]) is None {
        Err(ResultError::NotJson)
    } else if parts.len() == 0 {
        Err(ResultError::Nothing)
    } else {
        Ok(analysis_of(json_bytes_shape(parts.last())->0))
    }
}

/// The analysis (tempo, key, caption, lyrics) in the JSON parts of an
/// `/understand` result, as JSON text.
pub fn analysis_text(parts: &Vec<Vec<u8>>) -> (r: Result<String, ResultError>)
    ensures
        match r {
            Ok(a) => analysis_spec(parts@.map_values(|p: Vec<u8>| p@)) == Ok::<Seq<char>, ResultError>(a@),
            Err(e) => analysis_spec(parts@.map_values(|p: Vec<u8>| p@)) == Err::<Seq<char>, ResultError>(e),
        },
{
    let ghost ps = parts@.map_values(|p: Vec<u8>| p@);
    let mut found: Option<String> = None;
    let mut i: usize = 0;
    while i < parts.len()
        invariant
            i <= parts@.len(),
            ps == parts@.map_values(|p: Vec<u8>| p@),
            forall|k: int| 0 <= k < i ==> json_bytes_shape(#[trigger] ps[k]) is Some,
            match found {
                None => i == 0,
                Some(a) => i > 0 && a@ == analysis_of(json_bytes_shape(ps[i - 1])->0),
            },
        decreases parts.len() - i,
    {
        assert(ps[i as int] == parts@[i as int]@);
        match read_bytes_shape(parts[i].as_slice()) {
            None => {
                proof {
                    assert(json_bytes_shape(ps[i as int]) is None);
                }
                return Err(ResultError::NotJson);
            },
            Some(Ok(items)) => {
                if items.len() > 0 {
                    let first = items[0].clone();
                    proof {
                        assert(texts(items@)[0] == items@[0]@);
                    }
                    found = Some(first);
                } else {
                    found = Some(string_of(&chars_of("[]")));
                    proof {
                        reveal_strlit("[]");
                        assert("[]"@ =~= empty_array());
                    }
                }
            },
            Some(Err(v)) => {
                found = Some(v);
            },
        }
        i += 1;
    }
    match found {
        None => Err(ResultError::Nothing),
        Some(a) => {
            assert(ps.last() == ps[i - 1]);
            Ok(a)
        },
    }
}

/// A rendered track: the audio plus the latent the engine cached for it.
pub struct SynthOutput {
    pub audio: Vec<u8>,
    pub latent: Option<Vec<u8>>,
}

/// Audio handed to a synth job: the source being transformed, and/or a
/// reference whose voice and timbre should be borrowed.
pub struct SynthSources {
    pub audio: Option<Vec<u8>>,
    pub latent: Option<Vec<u8>>,
    pub ref_audio: Option<Vec<u8>>,
    pub ref_latent: Option<Vec<u8>>,
}

/// Why an engine reply could not be used.
#[derive(Debug, Clone, Copy, PartialEq, Eq, Structural)]
pub enum ReplyError {
    /// A synth reply held no audio part.
    NoAudio,
}

// ---------------------------------------------------------------- splitting

/// `--ace-batch-boundary`, the engine's fixed multipart boundary.
pub open spec fn boundary() -> Seq<u8> {
    seq![45u8, 45, 97, 99, 101, 45, 98, 97, 116, 99, 104, 45, 98, 111, 117, 110, 100, 97, 114, 121]
}

fn boundary_bytes() -> (b: Vec<u8>)
    ensures
        b@ == boundary(),
{
    let b: Vec<u8> = vec![45, 45, 97, 99, 101, 45, 98, 97, 116, 99, 104, 45, 98, 111, 117, 110, 100, 97, 114, 121];
    assert(b@ =~= boundary());
    b
}

/// The position of the first `needle` in `haystack`.
pub fn find(haystack: &[u8], needle: &[u8]) -> (r: Option<usize>)
    requires
        needle@.len() > 0,
    ensures
        match r {
            Some(i) => i as int == first_occurrence(haystack@, needle@),
            None => first_occurrence(haystack@, needle@) < 0,
        },
{
    find_bytes(haystack, needle)
}

/// The pieces of `data` between occurrences of `sep`, empty pieces left out.
pub open spec fn split_spec(data: Seq<u8>, sep: Seq<u8>) -> Seq<Seq<u8>>
    decreases data.len(),
{
    let p = first_occurrence(data, sep);
    if sep.len() == 0 || p < 0 {
        if data.len() > 0 {
            seq![data]
        } else {
            Seq::empty()
        }
    } else {
        proof {
            lemma_first_occurrence(data, sep);
        }
        let head: Seq<Seq<u8>> = if p > 0 {
            seq![data.take(p)]
        } else {
            Seq::empty()
        };
        head + split_spec(data.skip(p + sep.len()), sep)
    }
}

/// Split `data` on every `sep`, dropping empty pieces.
pub fn split_on(data: &[u8], sep: &[u8]) -> (out: Vec<Vec<u8>>)
    requires
        sep@.len() > 0,
    ensures
        out@.len() == split_spec(data@, sep@).len(),
        forall|k: int| 0 <= k < out@.len() ==> (#[trigger] out@[k])@ == split_spec(data@, sep@)[k],
{
    let mut out: Vec<Vec<u8>> = Vec::new();
    let mut start: usize = 0;
    let ghost acc: Seq<Seq<u8>> = Seq::empty();
    assert(data@.skip(0) =~= data@);
    loop
        invariant
            sep@.len() > 0,
            start <= data@.len(),
            out@.len() == acc.len(),
            forall|k: int| 0 <= k < out@.len() ==> (#[trigger] out@[k])@ == acc[k],
            acc + split_spec(data@.skip(start as int), sep@) == split_spec(data@, sep@),
        decreases data@.len() - start,
    {
        let ghost rest = data@.skip(start as int);
        let tail = slice_copy(data, start, data.len());
        assert(tail@ =~= rest);
        match find(tail.as_slice(), sep) {
            Some(pos) => {
                proof {
                    lemma_first_occurrence(rest, sep@);
                }
                let abs = start + pos;
                if abs > start {
                    let piece = slice_copy(data, start, abs);
                    assert(piece@ =~= rest.take(pos as int));
                    out.push(piece);
                    proof {
                        acc = acc.push(rest.take(pos as int));
                    }
                }
                assert(rest.skip(pos + sep@.len()) =~= data@.skip(abs + sep@.len()));
                assert(acc + split_spec(data@.skip(abs + sep@.len()), sep@) =~= split_spec(
                    data@,
                    sep@,
                ));
                start = abs + sep.len();
            },
            None => {
                if start < data.len() {
                    out.push(tail);
                    proof {
                        acc = acc.push(rest);
                    }
                }
                assert(acc =~= split_spec(data@, sep@));
                return out;
            },
        }
    }
}

// ---------------------------------------------------------------- parts

/// CR LF CR LF, which ends a part's headers.
pub open spec fn header_end() -> Seq<u8> {
    seq![13u8, 10, 13, 10]
}

/// CR LF.
pub open spec fn crlf() -> Seq<u8> {
    seq![13u8, 10]
}

/// `audio/`
pub open spec fn audio_mark() -> Seq<u8> {
    seq![97u8, 117, 100, 105, 111, 47]
}

/// `latent`
pub open spec fn latent_mark() -> Seq<u8> {
    seq![108u8, 97, 116, 101, 110, 116]
}

/// `octet-stream`
pub open spec fn octet_mark() -> Seq<u8> {
    seq![111u8, 99, 116, 101, 116, 45, 115, 116, 114, 101, 97, 109]
}

/// `application/json`
pub open spec fn json_mark() -> Seq<u8> {
    seq![97u8, 112, 112, 108, 105, 99, 97, 116, 105, 111, 110, 47, 106, 115, 111, 110]
}

/// A part's headers, lower-cased, when it has a blank line ending them.
/// Matching ASCII words in these bytes is the same as matching them in the
/// headers read as (lossy) UTF-8 text and lower-cased.
pub open spec fn part_headers(part: Seq<u8>) -> Option<Seq<u8>> {
    let h = first_occurrence(part, header_end());
    if h < 0 {
        None
    } else {
        Some(lower_bytes(part.take(h)))
    }
}

/// A part's body: what follows the blank line, less the CR LF the sender puts
/// before the next boundary.
pub open spec fn part_body(part: Seq<u8>) -> Seq<u8> {
    let h = first_occurrence(part, header_end());
    let body = part.skip(h + 4);
    if ends_with_bytes(body, crlf()) {
        body.take(body.len() - 2)
    } else {
        body
    }
}

/// The audio and latent a synth reply's parts leave behind, later parts
/// replacing earlier ones. Parts without a header block, or with a body under
/// 64 bytes, carry nothing.
pub open spec fn synth_parts(parts: Seq<Seq<u8>>) -> (Option<Seq<u8>>, Option<Seq<u8>>)
    decreases parts.len(),
{
    if parts.len() == 0 {
        (None, None)
    } else {
        let (audio, latent) = synth_parts(parts.drop_last());
        let part = parts.last();
        match part_headers(part) {
            None => (audio, latent),
            Some(h) => {
                let body = part_body(part);
                if body.len() < 64 {
                    (audio, latent)
                } else if contains_bytes(h, audio_mark()) {
                    (Some(body), latent)
                } else if contains_bytes(h, latent_mark()) || contains_bytes(h, octet_mark()) {
                    (audio, Some(body))
                } else {
                    (audio, latent)
                }
            },
        }
    }
}

/// The outcome of reading a synth reply.
pub open spec fn multipart_spec(data: Seq<u8>) -> Option<(Seq<u8>, Option<Seq<u8>>)> {
    let (audio, latent) = synth_parts(split_spec(data, boundary()));
    match audio {
        Some(a) => Some((a, latent)),
        None => None,
    }
}

/// The headers (lower-cased) and body of one part, if it has a header block.
fn read_part(part: &Vec<u8>) -> (r: Option<(Vec<u8>, Vec<u8>)>)
    ensures
        match r {
            Some((h, b)) => part_headers(part@) == Some(h@) && b@ == part_body(part@),
            None => part_headers(part@) is None,
        },
{
    let sep: Vec<u8> = vec![13, 10, 13, 10];
    assert(sep@ =~= header_end());
    let hdr_end = match find(part.as_slice(), sep.as_slice()) {
        Some(h) => h,
        None => return None,
    };
    proof {
        lemma_first_occurrence(part@, header_end());
    }
    assert(occurs_at(part@, header_end(), hdr_end as int));
    assert(hdr_end + 4 <= part.len());
    let headers = lowered(part.as_slice(), 0, hdr_end);
    assert(part@.subrange(0, hdr_end as int) =~= part@.take(hdr_end as int));
    let mut body = slice_copy(part.as_slice(), hdr_end + 4, part.len());
    assert(body@ =~= part@.skip(hdr_end + 4));
    let n = body.len();
    if n >= 2 && body[n - 2] == 13 && body[n - 1] == 10 {
        body.truncate(n - 2);
        assert(part@.skip(hdr_end + 4).skip(n - 2) =~= crlf());
        assert(body@ =~= part@.skip(hdr_end + 4).take(n - 2));
    } else {
        proof {
            let b = part@.skip(hdr_end + 4);
            if ends_with_bytes(b, crlf()) {
                assert(b.skip(b.len() - 2)[0] == b[n - 2]);
                assert(b.skip(b.len() - 2)[1] == b[n - 1]);
            }
        }
    }
    Some((headers, body))
}

fn mark_in(h: &Vec<u8>, mark: Vec<u8>) -> (r: bool)
    ensures
        r == contains_bytes(h@, mark@),
{
    match find_bytes(h.as_slice(), mark.as_slice()) {
        Some(_) => true,
        None => false,
    }
}

/// Split the engine's `multipart/mixed` reply into its audio and latent parts.
pub fn parse_multipart(data: &[u8]) -> (r: Result<SynthOutput, ReplyError>)
    ensures
        match r {
            Ok(out) => multipart_spec(data@) == Some((out.audio@, match out.latent {
                Some(l) => Some(l@),
                None => None,
            })),
            Err(e) => e == ReplyError::NoAudio && multipart_spec(data@) is None,
        },
{
    let b = boundary_bytes();
    let parts = split_on(data, b.as_slice());
    let ghost ps = split_spec(data@, boundary());
    let mut audio: Option<Vec<u8>> = None;
    let mut latent: Option<Vec<u8>> = None;
    let mut i: usize = 0;
    while i < parts.len()
        invariant
            i <= parts@.len(),
            parts@.len() == ps.len(),
            forall|k: int| 0 <= k < parts@.len() ==> (#[trigger] parts@[k])@ == ps[k],
            synth_parts(ps.take(i as int)) == (
                match audio {
                    Some(a) => Some(a@),
                    None => None,
                },
                match latent {
                    Some(l) => Some(l@),
                    None => None,
                },
            ),
        decreases parts.len() - i,
    {
        let ghost pre = ps.take(i as int);
        assert(ps.take(i + 1).drop_last() =~= pre);
        assert(ps.take(i + 1).last() == parts@[i as int]@);
        match read_part(&parts[i]) {
            None => {},
            Some((headers, body)) => {
                if body.len() < 64 {
                } else if mark_in(&headers, vec![97, 117, 100, 105, 111, 47]) {
                    audio = Some(body);
                } else if mark_in(&headers, vec![108, 97, 116, 101, 110, 116]) || mark_in(
                    &headers,
                    vec![111, 99, 116, 101, 116, 45, 115, 116, 114, 101, 97, 109],
                ) {
                    latent = Some(body);
                }
            },
        }
        proof {
            assert(seq![97u8, 117, 100, 105, 111, 47] =~= audio_mark());
            assert(seq![108u8, 97, 116, 101, 110, 116] =~= latent_mark());
            assert(seq![111u8, 99, 116, 101, 116, 45, 115, 116, 114, 101, 97, 109] =~= octet_mark());
        }
        i += 1;
    }
    assert(ps.take(ps.len() as int) =~= ps);
    match audio {
        Some(a) => Ok(SynthOutput { audio: a, latent }),
        None => Err(ReplyError::NoAudio),
    }
}

/// The JSON bodies (in order) and the latent an analysis reply's parts hold:
/// a part whose headers name `application/json` is JSON, any other non-empty
/// part is the latent, a later one replacing an earlier one.
pub open spec fn understand_spec(parts: Seq<Seq<u8>>) -> (Seq<Seq<u8>>, Option<Seq<u8>>)
    decreases parts.len(),
{
    if parts.len() == 0 {
        (Seq::empty(), None)
    } else {
        let (jsons, latent) = understand_spec(parts.drop_last());
        let part = parts.last();
        match part_headers(part) {
            None => (jsons, latent),
            Some(h) => {
                let body = part_body(part);
                if body.len() == 0 {
                    (jsons, latent)
                } else if contains_bytes(h, json_mark()) {
                    (jsons.push(body), latent)
                } else {
                    (jsons, Some(body))
                }
            },
        }
    }
}

/// What an `/understand` reply carries.
pub struct UnderstandParts {
    /// The JSON bodies, in the order they came.
    pub json: Vec<Vec<u8>>,
    /// The source latent, if the reply held one.
    pub latent: Option<Vec<u8>>,
}

/// Sort an `/understand` reply into its JSON parts and its latent. The JSON
/// itself is read by the caller; the analysis is the first element of the
/// last JSON part when that part is an array.
pub fn understand_parts(data: &[u8]) -> (r: UnderstandParts)
    ensures
        r.json@.len() == understand_spec(split_spec(data@, boundary())).0.len(),
        forall|k: int|
            0 <= k < r.json@.len() ==> (#[trigger] r.json@[k])@ == understand_spec(
                split_spec(data@, boundary()),
            ).0[k],
        (match r.latent {
            Some(l) => Some(l@),
            None => None,
        }) == understand_spec(split_spec(data@, boundary())).1,
{
    let b = boundary_bytes();
    let parts = split_on(data, b.as_slice());
    let ghost ps = split_spec(data@, boundary());
    let mut json: Vec<Vec<u8>> = Vec::new();
    let mut latent: Option<Vec<u8>> = None;
    let mut i: usize = 0;
    while i < parts.len()
        invariant
            i <= parts@.len(),
            parts@.len() == ps.len(),
            forall|k: int| 0 <= k < parts@.len() ==> (#[trigger] parts@[k])@ == ps[k],
            json@.len() == understand_spec(ps.take(i as int)).0.len(),
            forall|k: int|
                0 <= k < json@.len() ==> (#[trigger] json@[k])@ == understand_spec(
                    ps.take(i as int),
                ).0[k],
            (match latent {
                Some(l) => Some(l@),
                None => None,
            }) == understand_spec(ps.take(i as int)).1,
        decreases parts.len() - i,
    {
        let ghost pre = ps.take(i as int);
        assert(ps.take(i + 1).drop_last() =~= pre);
        assert(ps.take(i + 1).last() == parts@[i as int]@);
        match read_part(&parts[i]) {
            None => {},
            Some((headers, body)) => {
                if body.len() == 0 {
                } else if mark_in(
                    &headers,
                    vec![97, 112, 112, 108, 105, 99, 97, 116, 105, 111, 110, 47, 106, 115, 111, 110],
                ) {
                    json.push(body);
                } else {
                    latent = Some(body);
                }
            },
        }
        proof {
            assert(seq![97u8, 112, 112, 108, 105, 99, 97, 116, 105, 111, 110, 47, 106, 115, 111, 110]
                =~= json_mark());
        }
        i += 1;
    }
    assert(ps.take(ps.len() as int) =~= ps);
    UnderstandParts { json, latent }
}

// ---------------------------------------------------------------- uploads

/// One file part of a synth upload: form field, file name, media type, bytes.
pub struct UploadPart {
    pub field: &'static str,
    pub file_name: &'static str,
    pub mime: &'static str,
    pub data: Vec<u8>,
}

/// An upload part as plain values.
pub open spec fn part_view(p: UploadPart) -> (Seq<char>, Seq<char>, Seq<char>, Seq<u8>) {
    (p.field@, p.file_name@, p.mime@, p.data@)
}

/// The audio parts of a synth upload. The source goes as its cached latent
/// when there is one (replaying it skips an encode), else as audio; the voice
/// reference likewise. Either may be absent: a plain generation borrowing a
/// voice has no source.
pub open spec fn upload_spec(
    audio: Option<Seq<u8>>,
    latent: Option<Seq<u8>>,
    ref_audio: Option<Seq<u8>>,
    ref_latent: Option<Seq<u8>>,
) -> Seq<(Seq<char>, Seq<char>, Seq<char>, Seq<u8>)> {
    let source: Seq<(Seq<char>, Seq<char>, Seq<char>, Seq<u8>)> = match latent {
        Some(l) => seq![("src_latents"@, "source.latent"@, "application/octet-stream"@, l)],
        None => match audio {
            Some(a) => seq![("audio"@, "source.mp3"@, "audio/mpeg"@, a)],
            None => Seq::empty(),
        },
    };
    let voice: Seq<(Seq<char>, Seq<char>, Seq<char>, Seq<u8>)> = match ref_latent {
        Some(l) => seq![("ref_latents"@, "voice.latent"@, "application/octet-stream"@, l)],
        None => match ref_audio {
            Some(a) => seq![("ref_audio"@, "voice.mp3"@, "audio/mpeg"@, a)],
            None => Seq::empty(),
        },
    };
    source + voice
}

/// The bytes held by an optional buffer.
pub open spec fn opt_bytes(o: Option<Vec<u8>>) -> Option<Seq<u8>> {
    match o {
        Some(v) => Some(v@),
        None => None,
    }
}

/// The file parts a synth job with `sources` uploads, in order.
pub fn upload_parts(sources: SynthSources) -> (v: Vec<UploadPart>)
    ensures
        v@.map_values(|p: UploadPart| part_view(p)) == upload_spec(
            opt_bytes(sources.audio),
            opt_bytes(sources.latent),
            opt_bytes(sources.ref_audio),
            opt_bytes(sources.ref_latent),
        ),
{
    let ghost want = upload_spec(
        opt_bytes(sources.audio),
        opt_bytes(sources.latent),
        opt_bytes(sources.ref_audio),
        opt_bytes(sources.ref_latent),
    );
    let SynthSources { audio, latent, ref_audio, ref_latent } = sources;
    let mut v: Vec<UploadPart> = Vec::new();
    match latent {
        Some(l) => {
            v.push(
                UploadPart {
                    field: "src_latents",
                    file_name: "source.latent",
                    mime: "application/octet-stream",
                    data: l,
                },
            );
        },
        None => match audio {
            Some(a) => {
                v.push(UploadPart { field: "audio", file_name: "source.mp3", mime: "audio/mpeg", data: a });
            },
            None => {},
        },
    }
    match ref_latent {
        Some(l) => {
            v.push(
                UploadPart {
                    field: "ref_latents",
                    file_name: "voice.latent",
                    mime: "application/octet-stream",
                    data: l,
                },
            );
        },
        None => match ref_audio {
            Some(a) => {
                v.push(
                    UploadPart { field: "ref_audio", file_name: "voice.mp3", mime: "audio/mpeg", data: a },
                );
            },
            None => {},
        },
    }
    assert(v@.map_values(|p: UploadPart| part_view(p)) =~= want);
    v
}

} // verus!
