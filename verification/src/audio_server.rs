//! The loopback audio server's addressing and request parsing: the base URL
//! the webview uses, the media type that follows a file's extension, and the
//! single byte range a media element asks for.

use vstd::prelude::*;
use crate::path::{extension, path_extension};
use crate::text::{
    ascii_lower_all, chars_of, decimal, decimal_chars, lower_all, parse_u64, parse_u64_spec,
    position, find_char, lemma_find_char, starts_with, string_of, sub_chars, text_starts_with,
    trim, trimmed, append_chars, all_digits, digits_value, is_digit, is_space, trim_start, trim_end,
};

verus! {

/// A running audio server: the port it listens on and the per-run token that
/// every URL carries.
pub struct AudioServer {
    pub port: u16,
    pub token: String,
}

/// The URL prefix under which a server on `port` with `token` serves tracks.
pub open spec fn base_url_spec(port: u16, token: Seq<char>) -> Seq<char> {
    "http://127.0.0.1:"@ + decimal(port as nat) + seq!['/'] + token
}

impl AudioServer {
    /// Base URL the webview should use.
    pub fn base_url(&self) -> (u: String)
        ensures
            u@ == base_url_spec(self.port, self.token@),
    {
        let mut v = chars_of("http://127.0.0.1:");
        let digits = decimal_chars(self.port as u64);
        append_chars(&mut v, &digits);
        v.push('/');
        let t = chars_of(self.token.as_str());
        append_chars(&mut v, &t);
        string_of(&v)
    }
}

/// The media type served for a file: by its extension, case-insensitively,
/// and MP3 for anything unrecognised.
pub open spec fn mime_spec(path: Seq<char>) -> Seq<char> {
    let e = match extension(path) {
        Some(e) => ascii_lower_all(e),
        None => Seq::empty(),
    };
    if e == "wav"@ {
        "audio/wav"@
    } else if e == "flac"@ {
        "audio/flac"@
    } else if e == "ogg"@ || e == "opus"@ {
        "audio/ogg"@
    } else if e == "m4a"@ || e == "aac"@ {
        "audio/mp4"@
    } else {
        "audio/mpeg"@
    }
}

fn is_word(v: &Vec<char>, w: &str) -> (r: bool)
    ensures
        r == (v@ == w@),
{
    let wv = chars_of(w);
    crate::text::chars_eq(v, &wv)
}

/// Tracks can be saved lossless, so the type follows the file rather than
/// always claiming MP3: a WAV served as audio/mpeg won't play.
pub fn mime_for(path: &str) -> (m: &'static str)
    ensures
        m@ == mime_spec(path@),
{
    let e = match path_extension(path) {
        Some(e) => lower_all(&e),
        None => Vec::new(),
    };
    if is_word(&e, "wav") {
        "audio/wav"
    } else if is_word(&e, "flac") {
        "audio/flac"
    } else if is_word(&e, "ogg") || is_word(&e, "opus") {
        "audio/ogg"
    } else if is_word(&e, "m4a") || is_word(&e, "aac") {
        "audio/mp4"
    } else {
        "audio/mpeg"
    }
}

/// The range a `Range` header asks for within a file of `total` bytes:
/// `bytes=START-END` or `bytes=START-`, surrounding whitespace ignored. The
/// end is clamped to the last byte; a start past the end of the file, a start
/// after the end, an empty file with an open end, or anything unparseable is
/// no range at all.
pub open spec fn range_spec(raw: Seq<char>, total: u64) -> Option<(u64, u64)> {
    let t = trim(raw);
    if !starts_with(t, "bytes="@) {
        None
    } else {
        let spec = t.skip(6);
        let dash = find_char(spec, '-');
        if dash < 0 {
            None
        } else {
            let a = trim(spec.take(dash));
            let b = trim(spec.skip(dash + 1));
            match parse_u64_spec(a) {
                None => None,
                Some(start) => {
                    let end: Option<u64> = if b.len() == 0 {
                        if total == 0 {
                            None
                        } else {
                            Some((total - 1) as u64)
                        }
                    } else {
                        parse_u64_spec(b)
                    };
                    match end {
                        None => None,
                        Some(end) => if start > end || start >= total {
                            None
                        } else {
                            Some(
                                (
                                    start,
                                    if end < total - 1 {
                                        end
                                    } else {
                                        (total - 1) as u64
                                    },
                                ),
                            )
                        },
                    }
                },
            }
        }
    }
}

/// "bytes=0-" or "bytes=500-999". Only a single range, which is all a media
/// element ever asks for.
pub fn parse_range(raw: &str, total: u64) -> (r: Option<(u64, u64)>)
    ensures
        r == range_spec(raw@, total),
        r matches Some((s, e)) ==> s <= e < total,
{
    proof {
        reveal_strlit("bytes=");
    }
    let v = chars_of(raw);
    let t = trimmed(&v);
    if !text_starts_with(&t, "bytes=") {
        return None;
    }
    let spec = sub_chars(&t, 6, t.len());
    assert(spec@ =~= t@.skip(6));
    let dash = match position(&spec, '-') {
        Some(d) => d,
        None => return None,
    };
    proof {
        lemma_find_char(spec@, '-');
    }
    let a = sub_chars(&spec, 0, dash);
    let b = sub_chars(&spec, dash + 1, spec.len());
    assert(a@ =~= spec@.take(dash as int));
    assert(b@ =~= spec@.skip(dash + 1));
    let a = trimmed(&a);
    let b = trimmed(&b);
    let start = match parse_u64(&a) {
        Some(s) => s,
        None => return None,
    };
    let end = if b.len() == 0 {
        if total == 0 {
            return None;
        }
        total - 1
    } else {
        match parse_u64(&b) {
            Some(e) => e,
            None => return None,
        }
    };
    if start > end || start >= total {
        return None;
    }
    let last = total - 1;
    Some((start, if end < last { end } else { last }))
}

// ---------------------------------------------------------------- routing

/// The text before and after the first `c` in `s`, if it holds one.
pub open spec fn split_once(s: Seq<char>, c: char) -> Option<(Seq<char>, Seq<char>)> {
    let i = find_char(s, c);
    if i < 0 {
        None
    } else {
        Some((s.take(i), s.skip(i + 1)))
    }
}

/// Where a request goes, in the abstract.
pub enum RouteView {
    Denied(u16, Seq<char>),
    Lookup(Seq<char>, Seq<char>),
}

/// Where a request for `url` goes, given the run's `token`. URLs read
/// `/<token>/<kind>/<id>`: a wrong token is forbidden, a malformed path is not
/// found, and a well-formed one names what to look up.
pub open spec fn route_spec(url: Seq<char>, token: Seq<char>) -> RouteView {
    if url.len() == 0 || url[0] != '/' {
        RouteView::Denied(404, "not found"@)
    } else {
        match split_once(url.skip(1), '/') {
            None => RouteView::Denied(404, "not found"@),
            Some((t, rest)) => if t != token {
                RouteView::Denied(403, "bad token"@)
            } else {
                match split_once(rest, '/') {
                    Some((k, i)) => if i.len() > 0 {
                        RouteView::Lookup(k, i)
                    } else {
                        RouteView::Denied(404, "not a track url"@)
                    },
                    None => RouteView::Denied(404, "not a track url"@),
                }
            },
        }
    }
}

/// Nothing is served without the run's token: a request routed to a lookup
/// has a path that begins with `/`, the token, and `/`.
pub proof fn lemma_route_needs_token(url: Seq<char>, token: Seq<char>)
    ensures
        route_spec(url, token) is Lookup ==> url.len() > token.len() + 1 && url[0] == '/'
            && url.subrange(1, token.len() + 1 as int) == token && url[token.len() + 1 as int] == '/',
{
    if route_spec(url, token) is Lookup {
        let u = url.skip(1);
        lemma_find_char(u, '/');
        let i = find_char(u, '/');
        assert(u.take(i) == token);
        assert(url.subrange(1, token.len() + 1 as int) =~= u.take(i));
        assert(url[token.len() + 1 as int] == u[i]);
    }
}

/// Where a request goes.
pub enum Route {
    /// Refused with this status and reason.
    Denied { code: u16, why: String },
    /// Look up track `id`, to serve it as `kind` (its audio, or its art).
    Lookup { kind: String, id: String },
}

impl Route {
    pub open spec fn view(&self) -> RouteView {
        match self {
            Route::Denied { code, why } => RouteView::Denied(*code, why@),
            Route::Lookup { kind, id } => RouteView::Lookup(kind@, id@),
        }
    }
}

fn split_at_char(v: &Vec<char>, c: char) -> (r: Option<(Vec<char>, Vec<char>)>)
    ensures
        match r {
            Some((a, b)) => split_once(v@, c) == Some((a@, b@)),
            None => split_once(v@, c) is None,
        },
{
    match position(v, c) {
        None => None,
        Some(i) => {
            proof {
                lemma_find_char(v@, c);
            }
            assert(i < v.len());
            let a = sub_chars(v, 0, i);
            let b = sub_chars(v, i + 1, v.len());
            assert(a@ =~= v@.take(i as int));
            assert(b@ =~= v@.skip(i + 1));
            Some((a, b))
        },
    }
}

fn denied(code: u16, why: &str) -> (r: Route)
    ensures
        r.view() == RouteView::Denied(code, why@),
{
    Route::Denied { code, why: string_of(&chars_of(why)) }
}

/// Where a request for `url` goes, given the run's `token`.
pub fn route(url: &str, token: &str) -> (r: Route)
    ensures
        r.view() == route_spec(url@, token@),
{
    let u = chars_of(url);
    if u.len() == 0 || u[0] != '/' {
        return denied(404, "not found");
    }
    let tail = sub_chars(&u, 1, u.len());
    assert(tail@ =~= u@.skip(1));
    let (t, rest) = match split_at_char(&tail, '/') {
        None => {
            return denied(404, "not found");
        },
        Some(p) => p,
    };
    let tv = chars_of(token);
    if !crate::text::chars_eq(&t, &tv) {
        return denied(403, "bad token");
    }
    match split_at_char(&rest, '/') {
        Some((k, i)) => {
            if i.len() > 0 {
                Route::Lookup { kind: string_of(&k), id: string_of(&i) }
            } else {
                denied(404, "not a track url")
            }
        },
        None => denied(404, "not a track url"),
    }
}

/// What a found track is served as, by the kind its URL asked for.
pub enum Serve {
    /// Its cover art, drawn from its id.
    Art,
    /// Its audio file.
    Audio,
    /// Neither: not found.
    NotTrack,
}

/// `art` serves the cover, `track` the audio; anything else is not found.
pub fn serve_kind(kind: &str) -> (s: Serve)
    ensures
        kind@ == "art"@ ==> s is Art,
        kind@ == "track"@ ==> s is Audio,
        kind@ != "art"@ && kind@ != "track"@ ==> s is NotTrack,
{
    proof {
        reveal_strlit("art");
        reveal_strlit("track");
        assert("art"@.len() != "track"@.len());
    }
    let k = chars_of(kind);
    if crate::text::chars_eq(&k, &chars_of("art")) {
        Serve::Art
    } else if crate::text::chars_eq(&k, &chars_of("track")) {
        Serve::Audio
    } else {
        Serve::NotTrack
    }
}

/// The `Content-Range` value of a partial reply: `bytes START-END/TOTAL`.
pub open spec fn content_range_spec(start: u64, end: u64, total: u64) -> Seq<char> {
    "bytes "@ + decimal(start as nat) + seq!['-'] + decimal(end as nat) + seq!['/'] + decimal(
        total as nat,
    )
}

/// The `Content-Range` value of a partial reply.
pub fn content_range(start: u64, end: u64, total: u64) -> (s: String)
    ensures
        s@ == content_range_spec(start, end, total),
{
    let mut v = chars_of("bytes ");
    append_chars(&mut v, &decimal_chars(start));
    v.push('-');
    append_chars(&mut v, &decimal_chars(end));
    v.push('/');
    append_chars(&mut v, &decimal_chars(total));
    string_of(&v)
}

proof fn lemma_trim_solid(s: Seq<char>)
    requires
        s.len() > 0,
        !is_space(s[0]),
        !is_space(s.last()),
    ensures
        trim(s) == s,
{
    assert(trim_start(s) == s);
    assert(trim_end(s) == s);
}

proof fn lemma_digits_solid(d: Seq<char>)
    requires
        all_digits(d),
    ensures
        forall|i: int| 0 <= i < d.len() ==> !is_space(#[trigger] d[i]) && d[i] != '-' && d[i] != '+',
{
    assert forall|i: int| 0 <= i < d.len() implies !is_space(#[trigger] d[i]) && d[i] != '-' && d[i]
        != '+' by {
        assert(is_digit(d[i]));
    }
}

/// A `Range` header `bytes=START-` split at its dash: what comes before it
/// and after it.
proof fn lemma_range_split(d: Seq<char>, rest: Seq<char>)
    requires
        d.len() > 0,
        all_digits(d),
    ensures
        ({
            let spec = d + seq!['-'] + rest;
            &&& find_char(spec, '-') == d.len()
            &&& spec.take(d.len() as int) == d
            &&& spec.skip(d.len() as int + 1) == rest
        }),
{
    let spec = d + seq!['-'] + rest;
    lemma_digits_solid(d);
    lemma_find_char(spec, '-');
    let r = find_char(spec, '-');
    assert(spec[d.len() as int] == '-');
    if r < 0 {
        assert(spec[d.len() as int] != '-');
    }
    if r < d.len() {
        assert(spec[r] == d[r]);
    }
    assert(spec.take(d.len() as int) =~= d);
    assert(spec.skip(d.len() as int + 1) =~= rest);
}

/// The value of a run of digits, as `parse_u64_spec` reads it.
proof fn lemma_parse_digits(d: Seq<char>)
    requires
        d.len() > 0,
        all_digits(d),
        digits_value(d) <= u64::MAX,
    ensures
        trim(d) == d,
        parse_u64_spec(d) == Some(digits_value(d) as u64),
{
    lemma_digits_solid(d);
    lemma_trim_solid(d);
}

/// A media element seeking to byte `start` of a file of `total` bytes asks
/// for `bytes=START-`: it gets the range from `start` to the file's last
/// byte, whatever the start.
pub proof fn lemma_open_range_runs_to_the_end(digits: Seq<char>, start: u64, total: u64)
    requires
        digits.len() > 0,
        all_digits(digits),
        digits_value(digits) == start,
        start < total,
    ensures
        range_spec("bytes="@ + digits + seq!['-'], total) == Some((start, (total - 1) as u64)),
{
    reveal_strlit("bytes=");
    let raw = "bytes="@ + digits + seq!['-'];
    lemma_trim_solid(raw);
    assert(raw.take(6) =~= "bytes="@);
    assert(raw.skip(6) =~= digits + seq!['-'] + Seq::<char>::empty());
    lemma_range_split(digits, Seq::<char>::empty());
    lemma_parse_digits(digits);
    assert(trim(Seq::<char>::empty()) == Seq::<char>::empty());
}

/// A request for `bytes=START-END` with `START <= END` inside a file of
/// `total` bytes gets the range from `START` to `END`, cut short at the
/// file's last byte.
pub proof fn lemma_closed_range_is_clamped(
    first: Seq<char>,
    last: Seq<char>,
    start: u64,
    end: u64,
    total: u64,
)
    requires
        first.len() > 0,
        all_digits(first),
        digits_value(first) == start,
        last.len() > 0,
        all_digits(last),
        digits_value(last) == end,
        start <= end,
        start < total,
    ensures
        range_spec("bytes="@ + first + seq!['-'] + last, total) == Some(
            (start, if end < total { end } else { (total - 1) as u64 }),
        ),
{
    reveal_strlit("bytes=");
    let raw = "bytes="@ + first + seq!['-'] + last;
    lemma_digits_solid(last);
    assert(raw.last() == last.last());
    lemma_trim_solid(raw);
    assert(raw.take(6) =~= "bytes="@);
    assert(raw.skip(6) =~= first + seq!['-'] + last);
    lemma_range_split(first, last);
    lemma_parse_digits(first);
    lemma_parse_digits(last);
}

} // verus!
