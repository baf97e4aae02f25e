//! The rules a generation request follows before it reaches the engine: the
//! sung language a locale implies, the title a prompt gives a new song, the
//! models a generation runs on, and what each poll of a running job means.

use vstd::prelude::*;
use crate::client::JobStatus;
use crate::engine::AvailableModels;
use crate::text::{
    ascii_lower_all, append_chars, chars_of, is_ascii_alpha, join, join_spaced, lower_all,
    split_words, string_of, sub_chars, trim, trimmed, words,
};

verus! {

// ---------------------------------------------------------------- language

/// A locale separator: `_` before the territory, `.` before the encoding,
/// `@` before the modifier.
pub open spec fn is_locale_sep(c: char) -> bool {
    c == '_' || c == '.' || c == '@'
}

/// The text before the first locale separator.
pub open spec fn before_locale_sep(s: Seq<char>) -> Seq<char>
    decreases s.len(),
{
    if s.len() == 0 || is_locale_sep(s[0]) {
        Seq::empty()
    } else {
        seq![s[0]] + before_locale_sep(s.skip(1))
    }
}

/// The language code of a locale string: its first part, trimmed and
/// lower-cased, when that is two ASCII letters; English otherwise.
pub open spec fn locale_language(raw: Seq<char>) -> Seq<char> {
    let code = ascii_lower_all(trim(before_locale_sep(raw)));
    if code.len() == 2 && is_ascii_alpha(code[0]) && is_ascii_alpha(code[1]) {
        code
    } else {
        seq!['e', 'n']
    }
}

/// "en_NZ.UTF-8" -> "en". Falls back to English for `C`, `POSIX`, or anything
/// that isn't a two-letter code.
pub fn parse_locale(raw: &str) -> (code: String)
    ensures
        code@ == locale_language(raw@),
{
    let v = chars_of(raw);
    let mut head: Vec<char> = Vec::new();
    let mut i: usize = 0;
    assert(v@.skip(0) =~= v@);
    assert(head@ + before_locale_sep(v@) =~= before_locale_sep(v@));
    while i < v.len() && !(v[i] == '_' || v[i] == '.' || v[i] == '@')
        invariant
            i <= v@.len(),
            head@ + before_locale_sep(v@.skip(i as int)) == before_locale_sep(v@),
        decreases v.len() - i,
    {
        assert(v@.skip(i as int).skip(1) =~= v@.skip(i + 1));
        assert(before_locale_sep(v@.skip(i as int)) == seq![v@[i as int]] + before_locale_sep(
            v@.skip(i + 1),
        ));
        head.push(v[i]);
        i += 1;
        assert(head@ + before_locale_sep(v@.skip(i as int)) =~= before_locale_sep(v@));
    }
    assert(before_locale_sep(v@.skip(i as int)) =~= Seq::<char>::empty());
    assert(v@.skip(0) =~= v@);
    assert(head@ =~= before_locale_sep(v@));
    let code = lower_all(&trimmed(&head));
    if code.len() == 2 && is_letter(code[0]) && is_letter(code[1]) {
        string_of(&code)
    } else {
        let mut en: Vec<char> = Vec::new();
        en.push('e');
        en.push('n');
        assert(en@ =~= seq!['e', 'n']);
        string_of(&en)
    }
}

fn is_letter(c: char) -> (r: bool)
    ensures
        r == is_ascii_alpha(c),
{
    ('a' <= c && c <= 'z') || ('A' <= c && c <= 'Z')
}

// ---------------------------------------------------------------- titles

/// What `char::to_uppercase` yields for `c`: Unicode's full upper-case
/// mapping, one to three characters.
pub uninterp spec fn uppercase(c: char) -> Seq<char>;

/// `char::to_uppercase`, collected. The contract names the mapping and states
/// the facts its documentation gives: at least one character, and ASCII
/// letters `a`-`z` mapped to `A`-`Z`, other ASCII characters unchanged.
#[verifier::external_body]
fn to_uppercase(c: char) -> (r: Vec<char>)
    ensures
        r@ == uppercase(c),
        r@.len() >= 1,
        'a' <= c <= 'z' ==> r@ == seq![((c as u32) - 32) as char],
        (c as u32) < 128 && !('a' <= c <= 'z') ==> r@ == seq![c],
{
    c.to_uppercase().collect()
}

/// `s` without trailing commas, full stops and semicolons.
pub open spec fn strip_end_punct(s: Seq<char>) -> Seq<char>
    decreases s.len(),
{
    if s.len() > 0 && (s.last() == ',' || s.last() == '.' || s.last() == ';') {
        strip_end_punct(s.drop_last())
    } else {
        s
    }
}

/// The title made of the joined words `joined` once their first character has
/// been replaced by `capital`.
pub open spec fn capitalised(joined: Seq<char>, capital: Seq<char>) -> Seq<char> {
    strip_end_punct(
        capital + if joined.len() > 0 {
            joined.skip(1)
        } else {
            Seq::empty()
        },
    )
}

/// A song's title from its prompt: the first six words, single-spaced, with
/// the first character upper-cased and trailing `,` `.` `;` removed, or
/// `Untitled` when the prompt has no words.
pub open spec fn title_spec(prompt: Seq<char>) -> Seq<char> {
    let ws = words(prompt);
    let first = if ws.len() > 6 {
        ws.take(6)
    } else {
        ws
    };
    if first.len() == 0 {
        seq!['U', 'n', 't', 'i', 't', 'l', 'e', 'd']
    } else {
        let joined = join(first, seq![' ']);
        capitalised(joined, uppercase(joined[0]))
    }
}

/// The title made of `joined` with its first character replaced by `capital`
/// and trailing `,` `.` `;` removed.
pub fn title_with_capital(joined: &str, capital: &str) -> (t: String)
    ensures
        t@ == capitalised(joined@, capital@),
{
    let mut v = chars_of(capital);
    let j = chars_of(joined);
    let rest = if j.len() > 0 {
        sub_chars(&j, 1, j.len())
    } else {
        Vec::new()
    };
    assert(rest@ =~= if j@.len() > 0 {
        j@.skip(1)
    } else {
        Seq::empty()
    });
    append_chars(&mut v, &rest);
    let mut n = v.len();
    assert(v@.take(n as int) =~= v@);
    while n > 0 && (v[n - 1] == ',' || v[n - 1] == '.' || v[n - 1] == ';')
        invariant
            n <= v@.len(),
            strip_end_punct(v@.take(n as int)) == capitalised(joined@, capital@),
        decreases n,
    {
        assert(v@.take(n as int).drop_last() =~= v@.take(n - 1));
        n -= 1;
    }
    let out = sub_chars(&v, 0, n);
    assert(out@ =~= v@.take(n as int));
    string_of(&out)
}

/// A readable title from the prompt: first few words, trimmed.
pub fn title_from(prompt: &str) -> (t: String)
    ensures
        t@ == title_spec(prompt@),
        ({
            let ws = words(prompt@);
            ws.len() > 0 && (ws[0][0] as u32) < 128 && ws[0][0] != ',' && ws[0][0] != '.'
                && ws[0][0] != ';' ==> t@.len() > 0 && t@[0] == ascii_capital(ws[0][0])
        }),
{
    let v = chars_of(prompt);
    let ws = split_words(&v);
    let count = if ws.len() > 6 {
        6
    } else {
        ws.len()
    };
    let ghost all = words(v@);
    assert(ws@.take(count as int).map_values(|w: Vec<char>| w@) =~= if all.len() > 6 {
        all.take(6)
    } else {
        all
    });
    if count == 0 {
        let u = chars_of("Untitled");
        proof {
            reveal_strlit("Untitled");
        }
        assert(u@ =~= seq!['U', 'n', 't', 'i', 't', 'l', 'e', 'd']);
        return string_of(&u);
    }
    let joined = join_spaced(&ws, count);
    proof {
        crate::text::lemma_words_have_letters(v@);
        let first = ws@.take(count as int).map_values(|w: Vec<char>| w@);
        assert forall|k: int| 0 <= k < first.len() implies (#[trigger] first[k]).len() > 0 by {
            assert(first[k] == all[k]);
        }
        lemma_join_nonempty(first);
    }
    let capital = to_uppercase(joined[0]);
    let js = string_of(&joined);
    let cs = string_of(&capital);
    let t = title_with_capital(js.as_str(), cs.as_str());
    proof {
        let first = ws@.take(count as int).map_values(|w: Vec<char>| w@);
        let c = joined@[0];
        assert(first[0] == all[0]);
        assert(c == all[0][0]);
        if (c as u32) < 128 && c != ',' && c != '.' && c != ';' {
            let body = capital@ + joined@.skip(1);
            assert(body[0] == capital@[0]);
            assert(capital@[0] == ascii_capital(c));
            lemma_strip_punct_first(body);
        }
    }
    t
}

/// Joining non-empty words gives a non-empty text that starts as the first
/// word does.
proof fn lemma_join_nonempty(ws: Seq<Seq<char>>)
    requires
        ws.len() > 0,
        forall|k: int| 0 <= k < ws.len() ==> (#[trigger] ws[k]).len() > 0,
    ensures
        join(ws, seq![' ']).len() > 0,
        join(ws, seq![' '])[0] == ws[0][0],
    decreases ws.len(),
{
    if ws.len() > 1 {
        let p = ws.drop_last();
        assert forall|k: int| 0 <= k < p.len() implies (#[trigger] p[k]).len() > 0 by {
            assert(p[k] == ws[k]);
        }
        lemma_join_nonempty(p);
        assert(p[0] == ws[0]);
        let j = join(p, seq![' ']) + seq![' '] + ws.last();
        assert(j[0] == join(p, seq![' '])[0]);
    }
}

/// Removing trailing `,` `.` `;` keeps a first character that is none of them.
proof fn lemma_strip_punct_first(s: Seq<char>)
    requires
        s.len() > 0,
        s[0] != ',' && s[0] != '.' && s[0] != ';',
    ensures
        strip_end_punct(s).len() > 0,
        strip_end_punct(s)[0] == s[0],
    decreases s.len(),
{
    if s.last() == ',' || s.last() == '.' || s.last() == ';' {
        assert(s.len() > 1);
        lemma_strip_punct_first(s.drop_last());
        assert(s.drop_last()[0] == s[0]);
    }
}

/// The capital an ASCII character takes: `a`-`z` become `A`-`Z`, the rest stay.
pub open spec fn ascii_capital(c: char) -> char {
    if 'a' <= c <= 'z' {
        ((c as u32) - 32) as char
    } else {
        c
    }
}

// ---------------------------------------------------------------- the request

/// Why a generation could not be made.
pub enum GenerationError {
    NoLanguageModel,
    NoTurboModel,
    EngineFailed,
    Cancelled,
}

impl GenerationError {
    /// What the user is told.
    pub open spec fn message_spec(&self) -> Seq<char> {
        match self {
            GenerationError::NoLanguageModel => "no language model installed"@,
            GenerationError::NoTurboModel => "no turbo model installed"@,
            GenerationError::EngineFailed => "the engine could not finish this song"@,
            GenerationError::Cancelled => "cancelled"@,
        }
    }

    /// What the user is told.
    pub fn message(&self) -> (m: String)
        ensures
            m@ == self.message_spec(),
    {
        let v = match self {
            GenerationError::NoLanguageModel => chars_of("no language model installed"),
            GenerationError::NoTurboModel => chars_of("no turbo model installed"),
            GenerationError::EngineFailed => chars_of("the engine could not finish this song"),
            GenerationError::Cancelled => chars_of("cancelled"),
        };
        string_of(&v)
    }
}

/// The models a generation runs on.
pub struct ModelChoice {
    /// The language model that writes lyrics, metadata and audio codes.
    pub lm_model: String,
    /// The fast diffusion model that renders the audio.
    pub synth_model: String,
}

/// The first installed language model and the first installed fast (turbo)
/// diffusion model; an error names the role that has none.
pub fn pick_models(models: &AvailableModels) -> (r: Result<ModelChoice, GenerationError>)
    ensures
        models.lm@.len() == 0 ==> r matches Err(GenerationError::NoLanguageModel),
        models.lm@.len() > 0 && models.dit_turbo@.len() == 0 ==> r matches Err(
            GenerationError::NoTurboModel,
        ),
        models.lm@.len() > 0 && models.dit_turbo@.len() > 0 ==> (r matches Ok(c) && c.lm_model@
            == models.lm@[0]@ && c.synth_model@ == models.dit_turbo@[0]@),
{
    if models.lm.len() == 0 {
        return Err(GenerationError::NoLanguageModel);
    }
    if models.dit_turbo.len() == 0 {
        return Err(GenerationError::NoTurboModel);
    }
    let lm = string_of(&chars_of(models.lm[0].as_str()));
    let synth = string_of(&chars_of(models.dit_turbo[0].as_str()));
    Ok(ModelChoice { lm_model: lm, synth_model: synth })
}

/// The lyrics sent with a request: an instrumental asks for none; otherwise
/// the user's own (empty lets the model write them).
pub fn request_lyrics(instrumental: bool, lyrics: &str) -> (l: String)
    ensures
        instrumental ==> l@ == "[Instrumental]"@,
        !instrumental ==> l@ == lyrics@,
{
    if instrumental {
        string_of(&chars_of("[Instrumental]"))
    } else {
        string_of(&chars_of(lyrics))
    }
}

/// The optional settings of a writing request, each sent only when it
/// applies.
pub struct LmExtras {
    /// `false` when the prompt is locked, so the model keeps the caption as
    /// written instead of rewriting it; not sent otherwise.
    pub use_cot_caption: Option<bool>,
    pub bpm: Option<i64>,
    pub keyscale: Option<String>,
    pub seed: Option<i64>,
}

/// The optional settings a request carries: the caption is held as written
/// only when the prompt is locked, and tempo, key and seed go only when the
/// user gave them.
pub fn lm_extras(lock_prompt: bool, bpm: Option<i64>, keyscale: &Option<String>, seed: Option<i64>) -> (e: LmExtras)
    ensures
        e.use_cot_caption == (if lock_prompt {
            Some(false)
        } else {
            None::<bool>
        }),
        e.bpm == bpm,
        e.seed == seed,
        match keyscale {
            Some(k) => e.keyscale matches Some(x) && x@ == k@,
            None => e.keyscale is None,
        },
{
    LmExtras {
        use_cot_caption: if lock_prompt {
            Some(false)
        } else {
            None
        },
        bpm,
        keyscale: match keyscale {
            Some(k) => Some(string_of(&chars_of(k.as_str()))),
            None => None,
        },
        seed,
    }
}

/// The language a song is sung in: the one asked for, unless that is blank,
/// in which case `fallback` (the user's locale). A language is always sent;
/// left out, the model picks one at random.
pub fn vocal_language(requested: &Option<String>, fallback: &str) -> (l: String)
    ensures
        (requested matches Some(q) && trim(q@).len() > 0) ==> l@ == requested->0@,
        !(requested matches Some(q) && trim(q@).len() > 0) ==> l@ == fallback@,
{
    match requested {
        Some(q) => {
            let v = chars_of(q.as_str());
            let t = trimmed(&v);
            if t.len() > 0 {
                return string_of(&v);
            }
        },
        None => {},
    }
    string_of(&chars_of(fallback))
}

// ---------------------------------------------------------------- waiting

/// What to do after one poll of a job the generation waits on.
pub enum WaitStep {
    /// The job is done.
    Finished,
    /// The job ended without a song.
    Stopped(GenerationError),
    /// Still going: poll again; `announce` says the stage should be shown again
    /// (every fourth poll, so the interface can show the time passing).
    Again { announce: bool },
}

/// The step after the `ticks`-th poll reported `status`, and the poll count
/// that follows.
pub fn wait_step(status: JobStatus, ticks: u32) -> (r: (WaitStep, u32))
    requires
        ticks < u32::MAX,
    ensures
        status is Done ==> r.0 is Finished && r.1 == ticks,
        status is Failed ==> (r.0 matches WaitStep::Stopped(GenerationError::EngineFailed)) && r.1
            == ticks,
        status is Cancelled ==> (r.0 matches WaitStep::Stopped(GenerationError::Cancelled)) && r.1
            == ticks,
        !status.terminal() ==> r.1 == ticks + 1 && (r.0 matches WaitStep::Again { announce }
            && announce == ((ticks + 1) % 4 == 0)),
{
    match status {
        JobStatus::Done => (WaitStep::Finished, ticks),
        JobStatus::Failed => (WaitStep::Stopped(GenerationError::EngineFailed), ticks),
        JobStatus::Cancelled => (WaitStep::Stopped(GenerationError::Cancelled), ticks),
        _ => {
            let next = ticks + 1;
            (WaitStep::Again { announce: next % 4 == 0 }, next)
        },
    }
}

// ---------------------------------------------------------------- languages

/// The languages offered for singing: code, then name. The engine knows more;
/// the field accepts any code it does.
pub open spec fn language_table() -> Seq<(Seq<char>, Seq<char>)> {
    seq![
        ("en"@, "English"@), ("es"@, "Spanish"@), ("fr"@, "French"@), ("de"@, "German"@),
        ("it"@, "Italian"@), ("pt"@, "Portuguese"@), ("nl"@, "Dutch"@), ("pl"@, "Polish"@),
        ("ru"@, "Russian"@), ("uk"@, "Ukrainian"@), ("tr"@, "Turkish"@), ("ar"@, "Arabic"@),
        ("he"@, "Hebrew"@), ("hi"@, "Hindi"@), ("bn"@, "Bengali"@), ("ta"@, "Tamil"@),
        ("ur"@, "Urdu"@), ("fa"@, "Persian"@), ("zh"@, "Chinese"@), ("ja"@, "Japanese"@),
        ("ko"@, "Korean"@), ("vi"@, "Vietnamese"@), ("th"@, "Thai"@), ("id"@, "Indonesian"@),
        ("ms"@, "Malay"@), ("tl"@, "Filipino"@), ("sw"@, "Swahili"@), ("yo"@, "Yoruba"@),
        ("zu"@, "Zulu"@), ("af"@, "Afrikaans"@), ("el"@, "Greek"@), ("sv"@, "Swedish"@),
        ("no"@, "Norwegian"@), ("da"@, "Danish"@), ("fi"@, "Finnish"@), ("cs"@, "Czech"@),
        ("hu"@, "Hungarian"@), ("ro"@, "Romanian"@), ("mi"@, "Māori"@),
    ]
}

fn language_pairs() -> (v: Vec<(&'static str, &'static str)>)
    ensures
        v@.map_values(|p: (&'static str, &'static str)| (p.0@, p.1@)) == language_table(),
{
    let v: Vec<(&'static str, &'static str)> = vec![
        ("en", "English"), ("es", "Spanish"), ("fr", "French"), ("de", "German"),
        ("it", "Italian"), ("pt", "Portuguese"), ("nl", "Dutch"), ("pl", "Polish"),
        ("ru", "Russian"), ("uk", "Ukrainian"), ("tr", "Turkish"), ("ar", "Arabic"),
        ("he", "Hebrew"), ("hi", "Hindi"), ("bn", "Bengali"), ("ta", "Tamil"),
        ("ur", "Urdu"), ("fa", "Persian"), ("zh", "Chinese"), ("ja", "Japanese"),
        ("ko", "Korean"), ("vi", "Vietnamese"), ("th", "Thai"), ("id", "Indonesian"),
        ("ms", "Malay"), ("tl", "Filipino"), ("sw", "Swahili"), ("yo", "Yoruba"),
        ("zu", "Zulu"), ("af", "Afrikaans"), ("el", "Greek"), ("sv", "Swedish"),
        ("no", "Norwegian"), ("da", "Danish"), ("fi", "Finnish"), ("cs", "Czech"),
        ("hu", "Hungarian"), ("ro", "Romanian"), ("mi", "Māori"),
    ];
    assert(v@.map_values(|p: (&'static str, &'static str)| (p.0@, p.1@)) =~= language_table());
    v
}

/// The languages the interface offers, code then name.
pub fn languages() -> (v: Vec<(String, String)>)
    ensures
        v@.len() == language_table().len(),
        forall|i: int|
            0 <= i < v@.len() ==> (#[trigger] v@[i]).0@ == language_table()[i].0 && v@[i].1@
                == language_table()[i].1,
{
    let pairs = language_pairs();
    let ghost t = language_table();
    let mut out: Vec<(String, String)> = Vec::new();
    let mut i: usize = 0;
    while i < pairs.len()
        invariant
            i <= pairs@.len(),
            pairs@.map_values(|p: (&'static str, &'static str)| (p.0@, p.1@)) == t,
            t == language_table(),
            out@.len() == i,
            forall|k: int| 0 <= k < i ==> (#[trigger] out@[k]).0@ == t[k].0 && out@[k].1@ == t[k].1,
        decreases pairs.len() - i,
    {
        let (c, n) = pairs[i];
        assert(t[i as int] == (c@, n@));
        out.push((string_of(&chars_of(c)), string_of(&chars_of(n))));
        i += 1;
    }
    out
}

} // verus!
