//! Lyric handling around the local instruct model: which installed model to
//! ask, what to strip from its replies, and what counts as filler rather than
//! words, and what the model server's JSON replies hold. The requests
//! themselves go out from the application.

use vstd::prelude::*;
use crate::text::{
    append_chars, ascii_lower, ascii_lower_all, chars_eq, chars_of, contains, is_ascii_alpha,
    join, join_with, lines, lower, lower_all, split_lines, split_words, starts_with, string_of,
    sub_chars, text_contains, text_starts_with, trim, trimmed, utf8_len, utf8_len_capped, words,
    has_prefix,
};
use crate::client::{field_text, json_field_text, json_shape, json_string_field, read_shape, string_field};
use crate::engine::texts;

verus! {

// ---------------------------------------------------------------- replies

/// The `name` strings among the JSON objects `items`, in order; items with
/// no such string are passed over.
pub open spec fn names_in(items: Seq<Seq<char>>) -> Seq<Seq<char>>
    decreases items.len(),
{
    if items.len() == 0 {
        Seq::empty()
    } else {
        let before = names_in(items.drop_last());
        match json_string_field(items.last(), "name"@) {
            Some(Some(n)) => before.push(n),
            _ => before,
        }
    }
}

/// The names in a model list reply `text` (`{"models":[{"name":..},..]}`):
/// None unless it holds an array under `models`; the entries without a
/// name are passed over.
pub fn model_names(text: &str) -> (r: Option<Vec<String>>)
    ensures
        match json_field_text(text@, "models"@) {
            Some(Some(m)) => match json_shape(m) {
                Some(Ok(items)) => r matches Some(v) && texts(v@) == names_in(items),
                _ => r is None,
            },
            _ => r is None,
        },
{
    let models = match field_text(text, "models") {
        Some(m) => m,
        None => return None,
    };
    let items = match read_shape(models.as_str()) {
        Some(Ok(items)) => items,
        _ => return None,
    };
    let ghost its = texts(items@);
    let mut names: Vec<String> = Vec::new();
    let mut i: usize = 0;
    while i < items.len()
        invariant
            i <= items@.len(),
            its == texts(items@),
            texts(names@) == names_in(its.take(i as int)),
        decreases items.len() - i,
    {
        assert(its.take(i + 1).drop_last() =~= its.take(i as int));
        assert(its.take(i + 1).last() == items@[i as int]@);
        match string_field(items[i].as_str(), "name") {
            Some(n) => {
                names.push(n);
                assert(texts(names@) =~= names_in(its.take(i + 1)));
            },
            None => {},
        }
        i += 1;
    }
    assert(its.take(items@.len() as int) =~= its);
    Some(names)
}

/// The `content` string of the `message` in a chat reply `text`.
pub fn chat_content(text: &str) -> (r: Option<String>)
    ensures
        match json_field_text(text@, "message"@) {
            Some(Some(m)) => match json_string_field(m, "content"@) {
                Some(Some(c)) => r matches Some(x) && x@ == c,
                _ => r is None,
            },
            _ => r is None,
        },
{
    match field_text(text, "message") {
        Some(m) => string_field(m.as_str(), "content"),
        None => None,
    }
}


// ---------------------------------------------------------------- filler

/// Whether `char::is_alphabetic` holds of `c`: Unicode's Alphabetic property.
pub uninterp spec fn alphabetic(c: char) -> bool;

/// `char::is_alphabetic`. The contract names the property and states the
/// part of it the documentation makes plain: among ASCII characters exactly
/// the letters are alphabetic.
#[verifier::external_body]
fn is_alphabetic(c: char) -> (r: bool)
    ensures
        r == alphabetic(c),
        (c as u32) < 128 ==> (r == is_ascii_alpha(c)),
{
    c.is_alphabetic()
}

/// The sounds that are vocalising rather than words.
pub open spec fn filler_words() -> Seq<Seq<char>> {
    seq![
        "oh"@, "ooh"@, "ah"@, "aah"@, "yeah"@, "na"@, "la"@, "da"@, "hmm"@, "mmm"@, "woo"@,
        "hey"@, "ay"@, "uh"@, "wah"@, "ooo"@, "mm"@, "ha"@,
    ]
}

fn filler_list() -> (v: Vec<Vec<char>>)
    ensures
        v@.map_values(|w: Vec<char>| w@) == filler_words(),
{
    let mut v: Vec<Vec<char>> = Vec::new();
    v.push(chars_of("oh"));
    v.push(chars_of("ooh"));
    v.push(chars_of("ah"));
    v.push(chars_of("aah"));
    v.push(chars_of("yeah"));
    v.push(chars_of("na"));
    v.push(chars_of("la"));
    v.push(chars_of("da"));
    v.push(chars_of("hmm"));
    v.push(chars_of("mmm"));
    v.push(chars_of("woo"));
    v.push(chars_of("hey"));
    v.push(chars_of("ay"));
    v.push(chars_of("uh"));
    v.push(chars_of("wah"));
    v.push(chars_of("ooo"));
    v.push(chars_of("mm"));
    v.push(chars_of("ha"));
    assert(v@.map_values(|w: Vec<char>| w@) =~= filler_words());
    v
}

/// A line's letters, lower-cased, with every other character a space.
pub open spec fn letters_only(line: Seq<char>) -> Seq<char> {
    line.map_values(|c: char| if alphabetic(c) { ascii_lower(c) } else { ' ' })
}

/// The text is nothing but filler sounds (or nothing at all).
pub open spec fn all_filler(text: Seq<char>) -> bool {
    forall|k: int| 0 <= k < words(text).len() ==> filler_words().contains(#[trigger] words(text)[k])
}

/// A line that is vocalising rather than saying anything: "oh oh oh".
pub open spec fn filler_line(line: Seq<char>) -> bool {
    all_filler(letters_only(line))
}

/// Whether the letters-only text `letters` is made of filler words alone.
pub fn is_filler_text(letters: &str) -> (r: bool)
    ensures
        r == all_filler(letters@),
{
    let v = chars_of(letters);
    let ws = split_words(&v);
    let fl = filler_list();
    let ghost f = filler_words();
    let mut i: usize = 0;
    while i < ws.len()
        invariant
            i <= ws@.len(),
            v@ == letters@,
            ws@.len() == words(v@).len(),
            forall|k: int| 0 <= k < ws@.len() ==> (#[trigger] ws@[k])@ == words(v@)[k],
            fl@.map_values(|w: Vec<char>| w@) == f,
            f == filler_words(),
            forall|k: int| 0 <= k < i ==> f.contains(#[trigger] words(v@)[k]),
        decreases ws.len() - i,
    {
        let mut found = false;
        let mut j: usize = 0;
        while j < fl.len()
            invariant
                i < ws@.len(),
                j <= fl@.len(),
                fl@.map_values(|w: Vec<char>| w@) == f,
                found ==> f.contains(ws@[i as int]@),
                !found ==> forall|m: int| 0 <= m < j ==> f[m] != ws@[i as int]@,
            decreases fl.len() - j,
        {
            assert(f[j as int] == fl@[j as int]@);
            if chars_eq(&fl[j], &ws[i]) {
                found = true;
                assert(f.contains(ws@[i as int]@)) by {
                    assert(f[j as int] == ws@[i as int]@);
                }
            }
            j += 1;
        }
        assert(ws@[i as int]@ == words(v@)[i as int]);
        if !found {
            assert(!f.contains(words(v@)[i as int]));
            assert(v@ == letters@);
            assert(!filler_words().contains(words(letters@)[i as int]));
            assert(!all_filler(letters@));
            return false;
        }
        i += 1;
    }
    true
}

/// A line's ASCII letters, lower-cased, with every other character a space.
pub open spec fn ascii_letters_only(line: Seq<char>) -> Seq<char> {
    line.map_values(|c: char| if is_ascii_alpha(c) { ascii_lower(c) } else { ' ' })
}

/// Every character of `s` is ASCII.
pub open spec fn all_ascii(s: Seq<char>) -> bool {
    forall|k: int| 0 <= k < s.len() ==> (#[trigger] s[k] as u32) < 128
}

/// A line that is vocalising rather than saying anything: "oh oh oh", "la la la".
/// On an ASCII line the letters are exactly the ASCII letters.
pub fn is_filler(line: &str) -> (r: bool)
    ensures
        r == filler_line(line@),
        all_ascii(line@) ==> r == all_filler(ascii_letters_only(line@)),
{
    let v = chars_of(line);
    let mut cleaned: Vec<char> = Vec::new();
    let mut i: usize = 0;
    while i < v.len()
        invariant
            i <= v@.len(),
            cleaned@ == letters_only(v@.take(i as int)),
            forall|k: int|
                0 <= k < i && (v@[k] as u32) < 128 ==> alphabetic(#[trigger] v@[k])
                    == is_ascii_alpha(v@[k]),
        decreases v.len() - i,
    {
        let c = v[i];
        cleaned.push(if is_alphabetic(c) { lower(c) } else { ' ' });
        i += 1;
        assert(cleaned@ =~= letters_only(v@.take(i as int)));
    }
    assert(v@.take(v@.len() as int) =~= v@);
    proof {
        if all_ascii(v@) {
            assert forall|k: int| 0 <= k < v@.len() implies #[trigger] letters_only(v@)[k]
                == ascii_letters_only(v@)[k] by {
                assert((v@[k] as u32) < 128);
            }
            assert(letters_only(v@) =~= ascii_letters_only(v@));
        }
    }
    let s = string_of(&cleaned);
    is_filler_text(s.as_str())
}

// ---------------------------------------------------------------- cleaning

/// A line instruct models add around lyrics despite being told not to: a
/// code fence, or commentary such as "Here are the lyrics:".
pub open spec fn chatter(line: Seq<char>) -> bool {
    let t = trim(line);
    let lower = ascii_lower_all(t);
    starts_with(t, "```"@) || starts_with(lower, "here are"@) || starts_with(lower, "here's"@)
        || starts_with(lower, "note:"@) || starts_with(lower, "i hope"@)
}

/// The lines of `ls` that are not chatter, in order.
pub open spec fn without_chatter(ls: Seq<Seq<char>>) -> Seq<Seq<char>>
    decreases ls.len(),
{
    if ls.len() == 0 {
        Seq::empty()
    } else {
        let before = without_chatter(ls.drop_last());
        if chatter(ls.last()) {
            before
        } else {
            before.push(ls.last())
        }
    }
}

/// A line with nothing but whitespace.
pub open spec fn blank(l: Seq<char>) -> bool {
    trim(l).len() == 0
}

/// `ls` without blank lines at the front.
pub open spec fn drop_leading_blank(ls: Seq<Seq<char>>) -> Seq<Seq<char>>
    decreases ls.len(),
{
    if ls.len() > 0 && blank(ls[0]) {
        drop_leading_blank(ls.skip(1))
    } else {
        ls
    }
}

/// `ls` without blank lines at the back.
pub open spec fn drop_trailing_blank(ls: Seq<Seq<char>>) -> Seq<Seq<char>>
    decreases ls.len(),
{
    if ls.len() > 0 && blank(ls.last()) {
        drop_trailing_blank(ls.drop_last())
    } else {
        ls
    }
}

/// A model's reply with code fences, commentary lines and blank lines at
/// either end removed; the remaining lines kept as they were, joined by LF.
pub open spec fn clean_spec(raw: Seq<char>) -> Seq<char> {
    join(drop_trailing_blank(drop_leading_blank(without_chatter(lines(raw)))), seq!['\n'])
}

proof fn lemma_join_front(a: Seq<char>, rest: Seq<Seq<char>>, sep: Seq<char>)
    requires
        rest.len() > 0,
    ensures
        join(seq![a] + rest, sep) == a + sep + join(rest, sep),
    decreases rest.len(),
{
    let all = seq![a] + rest;
    if rest.len() == 1 {
        assert(all.drop_last() =~= seq![a]);
        assert(all.last() == rest[0]);
        assert(join(seq![a], sep) == a);
        assert(join(rest, sep) == rest[0]);
        assert(join(all, sep) == join(all.drop_last(), sep) + sep + all.last());
    } else {
        lemma_join_front(a, rest.drop_last(), sep);
        assert(all.drop_last() =~= seq![a] + rest.drop_last());
        assert(all.last() == rest.last());
        assert(join(all, sep) == join(all.drop_last(), sep) + sep + all.last());
        assert(join(rest, sep) == join(rest.drop_last(), sep) + sep + rest.last());
        assert(a + sep + join(rest.drop_last(), sep) + sep + rest.last() =~= a + sep + (join(
            rest.drop_last(),
            sep,
        ) + sep + rest.last()));
    }
}

/// Text without CR that does not end in LF is its lines joined by LF.
proof fn lemma_lines_join(s: Seq<char>)
    requires
        forall|k: int| 0 <= k < s.len() ==> s[k] != '\r',
        s.len() == 0 || s.last() != '\n',
    ensures
        join(lines(s), seq!['\n']) == s,
    decreases s.len(),
{
    if s.len() > 0 {
        crate::text::lemma_find_char(s, '\n');
        let p = crate::text::find_char(s, '\n');
        if p >= 0 {
            let head = s.take(p);
            let tail = s.skip(p + 1);
            assert(p < s.len() - 1);
            assert(tail.len() > 0);
            assert(tail.last() == s.last());
            assert forall|k: int| 0 <= k < tail.len() implies tail[k] != '\r' by {
                assert(tail[k] == s[p + 1 + k]);
            }
            lemma_lines_join(tail);
            if head.len() > 0 {
                assert(head.last() == s[p - 1]);
            }
            assert(crate::text::strip_cr(head) == head);
            lemma_join_front(head, lines(tail), seq!['\n']);
            assert(head + seq!['\n'] + tail =~= s);
        }
    }
}

proof fn lemma_no_chatter(ls: Seq<Seq<char>>)
    requires
        forall|k: int| 0 <= k < ls.len() ==> !chatter(#[trigger] ls[k]),
    ensures
        without_chatter(ls) == ls,
    decreases ls.len(),
{
    if ls.len() > 0 {
        lemma_no_chatter(ls.drop_last());
        assert(ls.drop_last().push(ls.last()) =~= ls);
    }
}

/// Cleaning removes a line as commentary exactly when, trimmed, it opens a
/// code fence, or, trimmed and lower-cased, it begins "here are", "here's",
/// "note:" or "i hope"; any other line is a lyric line.
pub proof fn lemma_commentary_is_only_those_openings(line: Seq<char>)
    ensures
        chatter(line) == (starts_with(trim(line), "```"@) || starts_with(
            ascii_lower_all(trim(line)),
            "here are"@,
        ) || starts_with(ascii_lower_all(trim(line)), "here's"@) || starts_with(
            ascii_lower_all(trim(line)),
            "note:"@,
        ) || starts_with(ascii_lower_all(trim(line)), "i hope"@)),
{
}

/// Lyrics none of whose lines opens with a fence or one of the commentary
/// openings ("here are", "here's", "note:", "i hope", in any case, after
/// leading whitespace) come back from cleaning untouched, provided the
/// first and last lines are not blank and there is no CR and no final LF.
pub proof fn lemma_clean_keeps_lines_without_commentary(raw: Seq<char>)
    requires
        forall|k: int| 0 <= k < raw.len() ==> raw[k] != '\r',
        raw.len() == 0 || raw.last() != '\n',
        forall|k: int|
            0 <= k < lines(raw).len() ==> !starts_with(trim(#[trigger] lines(raw)[k]), "```"@)
                && !starts_with(ascii_lower_all(trim(lines(raw)[k])), "here are"@) && !starts_with(
                ascii_lower_all(trim(lines(raw)[k])),
                "here's"@,
            ) && !starts_with(ascii_lower_all(trim(lines(raw)[k])), "note:"@) && !starts_with(
                ascii_lower_all(trim(lines(raw)[k])),
                "i hope"@,
            ),
        lines(raw).len() > 0 ==> !blank(lines(raw)[0]) && !blank(lines(raw).last()),
    ensures
        clean_spec(raw) == raw,
{
    assert forall|k: int| 0 <= k < lines(raw).len() implies !chatter(#[trigger] lines(raw)[k]) by {
        lemma_commentary_is_only_those_openings(lines(raw)[k]);
    }
    lemma_clean_keeps_plain_lyrics(raw);
}

/// Lyrics that are already clean come back untouched: no line is a fence or
/// commentary, the first and last lines are not blank, and there is no CR
/// and no final LF.
pub proof fn lemma_clean_keeps_plain_lyrics(raw: Seq<char>)
    requires
        forall|k: int| 0 <= k < raw.len() ==> raw[k] != '\r',
        raw.len() == 0 || raw.last() != '\n',
        forall|k: int| 0 <= k < lines(raw).len() ==> !chatter(#[trigger] lines(raw)[k]),
        lines(raw).len() > 0 ==> !blank(lines(raw)[0]) && !blank(lines(raw).last()),
    ensures
        clean_spec(raw) == raw,
{
    let ls = lines(raw);
    lemma_no_chatter(ls);
    assert(drop_leading_blank(ls) == ls);
    assert(drop_trailing_blank(ls) == ls);
    lemma_lines_join(raw);
}

fn is_chatter(line: &Vec<char>) -> (r: bool)
    ensures
        r == chatter(line@),
{
    let t = trimmed(line);
    let lower = lower_all(&t);
    text_starts_with(&t, "```") || text_starts_with(&lower, "here are") || text_starts_with(
        &lower,
        "here's",
    ) || text_starts_with(&lower, "note:") || text_starts_with(&lower, "i hope")
}

fn is_blank(line: &Vec<char>) -> (r: bool)
    ensures
        r == blank(line@),
{
    trimmed(line).len() == 0
}

/// Strip the things instruct models add despite being told not to: code fences,
/// a leading title, and any trailing commentary after the last lyric line.
pub fn clean(raw: &str) -> (out: String)
    ensures
        out@ == clean_spec(raw@),
{
    let v = chars_of(raw);
    let ls = split_lines(&v);
    let ghost all = lines(v@);
    let mut kept: Vec<Vec<char>> = Vec::new();
    let mut i: usize = 0;
    assert(ls@.map_values(|l: Vec<char>| l@) =~= all);
    while i < ls.len()
        invariant
            i <= ls@.len(),
            ls@.map_values(|l: Vec<char>| l@) == all,
            kept@.map_values(|l: Vec<char>| l@) == without_chatter(all.take(i as int)),
        decreases ls.len() - i,
    {
        assert(all.take(i + 1).drop_last() =~= all.take(i as int));
        assert(all.take(i + 1).last() == ls@[i as int]@);
        if !is_chatter(&ls[i]) {
            let l = sub_chars(&ls[i], 0, ls[i].len());
            assert(l@ =~= ls@[i as int]@);
            kept.push(l);
        }
        i += 1;
        assert(kept@.map_values(|l: Vec<char>| l@) =~= without_chatter(all.take(i as int)));
    }
    assert(all.take(all.len() as int) =~= all);
    let ghost k0 = without_chatter(all);
    let mut a: usize = 0;
    assert(k0.skip(0) =~= k0);
    while a < kept.len() && is_blank(&kept[a])
        invariant
            a <= kept@.len(),
            kept@.map_values(|l: Vec<char>| l@) == k0,
            drop_leading_blank(k0.skip(a as int)) == drop_leading_blank(k0),
        decreases kept.len() - a,
    {
        assert(k0[a as int] == kept@[a as int]@);
        assert(k0.skip(a as int).skip(1) =~= k0.skip(a + 1));
        a += 1;
    }
    proof {
        if a < kept@.len() {
            assert(k0[a as int] == kept@[a as int]@);
            assert(k0.skip(a as int)[0] == k0[a as int]);
        }
    }
    let ghost k1 = drop_leading_blank(k0);
    assert(k1 == k0.skip(a as int));
    let mut b: usize = kept.len();
    assert(k1.take(k1.len() as int) =~= k1);
    while b > a && is_blank(&kept[b - 1])
        invariant
            a <= b <= kept@.len(),
            kept@.map_values(|l: Vec<char>| l@) == k0,
            k1 == k0.skip(a as int),
            drop_trailing_blank(k1.take(b - a)) == drop_trailing_blank(k1),
        decreases b,
    {
        assert(k0[b - 1] == kept@[b - 1]@);
        assert(k1.take(b - a).drop_last() =~= k1.take(b - 1 - a));
        b -= 1;
    }
    proof {
        if b > a {
            assert(k0[b - 1] == kept@[b - 1]@);
            assert(k1.take(b - a).last() == k0[b - 1]);
        }
    }
    let mut middle: Vec<Vec<char>> = Vec::new();
    let mut j = a;
    while j < b
        invariant
            a <= j <= b <= kept@.len(),
            kept@.map_values(|l: Vec<char>| l@) == k0,
            middle@.map_values(|l: Vec<char>| l@) == k0.subrange(a as int, j as int),
        decreases b - j,
    {
        assert(k0[j as int] == kept@[j as int]@);
        let l = sub_chars(&kept[j], 0, kept[j].len());
        assert(l@ =~= kept@[j as int]@);
        let ghost before = middle@.map_values(|l: Vec<char>| l@);
        middle.push(l);
        assert(middle@.map_values(|l: Vec<char>| l@) =~= before.push(k0[j as int]));
        assert(k0.subrange(a as int, j + 1) =~= k0.subrange(a as int, j as int).push(k0[j as int]));
        j += 1;
        assert(middle@.map_values(|l: Vec<char>| l@) =~= k0.subrange(a as int, j as int));
    }
    assert(k0.subrange(a as int, b as int) =~= k1.take(b - a));
    let joined = join_with(&middle, '\n');
    string_of(&joined)
}

// ---------------------------------------------------------------- replies

/// The style description made from a model's reply to a style request: the
/// user's request (less trailing dots and spaces), `. `, and the cleaned reply
/// on one line. A reply under 20 bytes once trimmed is too short to use.
pub open spec fn style_spec(style: Seq<char>, reply: Seq<char>) -> Option<Seq<char>> {
    let one_line = clean_spec(reply).map_values(|c: char| if c == '\n' { ' ' } else { c });
    if utf8_len(trim(one_line)) < 20 {
        None
    } else {
        Some(strip_dot_space_end(style) + seq!['.', ' '] + trim(one_line))
    }
}

/// `s` without trailing dots and spaces.
pub open spec fn strip_dot_space_end(s: Seq<char>) -> Seq<char>
    decreases s.len(),
{
    if s.len() > 0 && (s.last() == '.' || s.last() == ' ') {
        strip_dot_space_end(s.drop_last())
    } else {
        s
    }
}

/// Turn a model's reply to a style request into the caption: the user's own
/// words in front, so the request is never buried. `None` when the reply is
/// too short to be useful.
pub fn finish_style(style: &str, reply: &str) -> (r: Option<String>)
    ensures
        match r {
            Some(s) => style_spec(style@, reply@) == Some(s@),
            None => style_spec(style@, reply@) is None,
        },
{
    let cleaned = clean(reply);
    let cv = chars_of(cleaned.as_str());
    let mut one: Vec<char> = Vec::new();
    let mut i: usize = 0;
    while i < cv.len()
        invariant
            i <= cv@.len(),
            one@ == cv@.take(i as int).map_values(|c: char| if c == '\n' { ' ' } else { c }),
        decreases cv.len() - i,
    {
        one.push(if cv[i] == '\n' { ' ' } else { cv[i] });
        i += 1;
        assert(one@ =~= cv@.take(i as int).map_values(|c: char| if c == '\n' { ' ' } else { c }));
    }
    assert(cv@.take(cv@.len() as int) =~= cv@);
    let t = trimmed(&one);
    if utf8_len_capped(&t, 20) < 20 {
        return None;
    }
    let sv = chars_of(style);
    let mut n = sv.len();
    assert(sv@.take(n as int) =~= sv@);
    while n > 0 && (sv[n - 1] == '.' || sv[n - 1] == ' ')
        invariant
            n <= sv@.len(),
            strip_dot_space_end(sv@.take(n as int)) == strip_dot_space_end(style@),
        decreases n,
    {
        assert(sv@.take(n as int).drop_last() =~= sv@.take(n - 1));
        n -= 1;
    }
    let mut out = sub_chars(&sv, 0, n);
    assert(out@ =~= sv@.take(n as int));
    out.push('.');
    out.push(' ');
    append_chars(&mut out, &t);
    Some(string_of(&out))
}

/// Lyrics from a model's reply: the cleaned text, unless nothing is left.
pub fn finish_lyrics(reply: &str) -> (r: Option<String>)
    ensures
        match r {
            Some(s) => s@ == clean_spec(reply@) && trim(clean_spec(reply@)).len() > 0,
            None => trim(clean_spec(reply@)).len() == 0,
        },
{
    let cleaned = clean(reply);
    let cv = chars_of(cleaned.as_str());
    if trimmed(&cv).len() == 0 {
        None
    } else {
        Some(cleaned)
    }
}

// ---------------------------------------------------------------- choosing

/// Local instruct models preferred for lyrics, best fit first.
pub open spec fn preferred_models() -> Seq<Seq<char>> {
    seq!["llama3.2:3b"@, "gemma3:4b"@, "llama3.2"@, "qwen3:8b"@, "gemma3"@, "mistral"@, "phi3"@]
}

/// The installed models that run locally: hosted (`:cloud`) ones never see
/// the user's words.
pub open spec fn local_models(names: Seq<Seq<char>>) -> Seq<Seq<char>>
    decreases names.len(),
{
    if names.len() == 0 {
        Seq::empty()
    } else {
        let before = local_models(names.drop_last());
        if contains(names.last(), ":cloud"@) {
            before
        } else {
            before.push(names.last())
        }
    }
}

/// The first of `names` that starts with `prefix`, if any.
pub open spec fn first_with_prefix(names: Seq<Seq<char>>, prefix: Seq<char>) -> Option<Seq<char>>
    decreases names.len(),
{
    if names.len() == 0 {
        None
    } else if starts_with(names[0], prefix) {
        Some(names[0])
    } else {
        first_with_prefix(names.skip(1), prefix)
    }
}

/// The model chosen among `names` by preference `prefs`: for the first
/// preference some name starts with, the first such name; with no match, the
/// first name.
pub open spec fn choose_by(names: Seq<Seq<char>>, prefs: Seq<Seq<char>>) -> Option<Seq<char>>
    decreases prefs.len(),
{
    if prefs.len() == 0 {
        if names.len() > 0 {
            Some(names[0])
        } else {
            None
        }
    } else {
        match first_with_prefix(names, prefs[0]) {
            Some(n) => Some(n),
            None => choose_by(names, prefs.skip(1)),
        }
    }
}

proof fn lemma_local_models_are_local(names: Seq<Seq<char>>)
    ensures
        forall|k: int|
            0 <= k < local_models(names).len() ==> !contains(#[trigger] local_models(names)[k], ":cloud"@),
    decreases names.len(),
{
    if names.len() > 0 {
        lemma_local_models_are_local(names.drop_last());
        let before = local_models(names.drop_last());
        if !contains(names.last(), ":cloud"@) {
            assert forall|k: int|
                0 <= k < local_models(names).len() implies !contains(
                #[trigger] local_models(names)[k],
                ":cloud"@,
            ) by {
                if k < before.len() {
                    assert(local_models(names)[k] == before[k]);
                }
            }
        }
    }
}

proof fn lemma_first_with_prefix_member(names: Seq<Seq<char>>, prefix: Seq<char>)
    ensures
        first_with_prefix(names, prefix) matches Some(n) ==> names.contains(n),
    decreases names.len(),
{
    if names.len() > 0 && !starts_with(names[0], prefix) {
        lemma_first_with_prefix_member(names.skip(1), prefix);
        if first_with_prefix(names, prefix) is Some {
            let n = first_with_prefix(names, prefix)->0;
            let k = choose|k: int| 0 <= k < names.skip(1).len() && names.skip(1)[k] == n;
            assert(names[k + 1] == n);
        }
    } else if names.len() > 0 {
        assert(names[0] == names[0]);
    }
}

proof fn lemma_choose_by_member(names: Seq<Seq<char>>, prefs: Seq<Seq<char>>)
    ensures
        choose_by(names, prefs) matches Some(n) ==> names.contains(n),
    decreases prefs.len(),
{
    if prefs.len() == 0 {
        if names.len() > 0 {
            assert(names[0] == names[0]);
        }
    } else {
        lemma_first_with_prefix_member(names, prefs[0]);
        lemma_choose_by_member(names, prefs.skip(1));
    }
}

/// The user's words never go to a hosted model: whatever installed models are
/// listed, the one chosen for lyrics is never a `:cloud` one.
pub proof fn lemma_lyrics_stay_local(installed: Seq<Seq<char>>)
    ensures
        choose_by(local_models(installed), preferred_models()) matches Some(n) ==> !contains(
            n,
            ":cloud"@,
        ),
{
    let local = local_models(installed);
    lemma_local_models_are_local(installed);
    lemma_choose_by_member(local, preferred_models());
    if choose_by(local, preferred_models()) is Some {
        let n = choose_by(local, preferred_models())->0;
        let k = choose|k: int| 0 <= k < local.len() && local[k] == n;
        assert(!contains(local[k], ":cloud"@));
    }
}

fn preferred_list() -> (v: Vec<Vec<char>>)
    ensures
        v@.map_values(|w: Vec<char>| w@) == preferred_models(),
{
    let mut v: Vec<Vec<char>> = Vec::new();
    v.push(chars_of("llama3.2:3b"));
    v.push(chars_of("gemma3:4b"));
    v.push(chars_of("llama3.2"));
    v.push(chars_of("qwen3:8b"));
    v.push(chars_of("gemma3"));
    v.push(chars_of("mistral"));
    v.push(chars_of("phi3"));
    assert(v@.map_values(|w: Vec<char>| w@) =~= preferred_models());
    v
}

fn find_prefixed(names: &Vec<Vec<char>>, prefix: &Vec<char>) -> (r: Option<usize>)
    ensures
        match r {
            Some(i) => i < names@.len() && first_with_prefix(names@.map_values(|w: Vec<char>| w@), prefix@)
                == Some(names@[i as int]@),
            None => first_with_prefix(names@.map_values(|w: Vec<char>| w@), prefix@) is None,
        },
{
    let ghost t = names@.map_values(|w: Vec<char>| w@);
    let mut i: usize = 0;
    assert(t.skip(0) =~= t);
    while i < names.len()
        invariant
            i <= names@.len(),
            t == names@.map_values(|w: Vec<char>| w@),
            first_with_prefix(t.skip(i as int), prefix@) == first_with_prefix(t, prefix@),
        decreases names.len() - i,
    {
        assert(t.skip(i as int)[0] == names@[i as int]@);
        if has_prefix(&names[i], prefix) {
            return Some(i);
        }
        assert(t.skip(i as int).skip(1) =~= t.skip(i + 1));
        i += 1;
    }
    None
}

/// Which installed model writes the lyrics: hosted models excluded, the
/// preferred list consulted in order, else the first local model.
pub fn choose_model(installed: &Vec<String>) -> (r: Option<String>)
    ensures
        match r {
            Some(s) => choose_by(local_models(installed@.map_values(|s: String| s@)), preferred_models())
                == Some(s@),
            None => choose_by(local_models(installed@.map_values(|s: String| s@)), preferred_models())
                is None,
        },
{
    let ghost all = installed@.map_values(|s: String| s@);
    let mut local: Vec<Vec<char>> = Vec::new();
    let mut i: usize = 0;
    while i < installed.len()
        invariant
            i <= installed@.len(),
            all == installed@.map_values(|s: String| s@),
            local@.map_values(|w: Vec<char>| w@) == local_models(all.take(i as int)),
        decreases installed.len() - i,
    {
        assert(all.take(i + 1).drop_last() =~= all.take(i as int));
        assert(all.take(i + 1).last() == installed@[i as int]@);
        let n = chars_of(installed[i].as_str());
        if !text_contains(&n, ":cloud") {
            local.push(n);
        }
        i += 1;
        assert(local@.map_values(|w: Vec<char>| w@) =~= local_models(all.take(i as int)));
    }
    assert(all.take(all.len() as int) =~= all);
    let ghost names = local@.map_values(|w: Vec<char>| w@);
    let prefs = preferred_list();
    let ghost p = preferred_models();
    let mut k: usize = 0;
    assert(p.skip(0) =~= p);
    while k < prefs.len()
        invariant
            k <= prefs@.len(),
            prefs@.map_values(|w: Vec<char>| w@) == p,
            names == local@.map_values(|w: Vec<char>| w@),
            names == local_models(all),
            all == installed@.map_values(|s: String| s@),
            p == preferred_models(),
            choose_by(names, p.skip(k as int)) == choose_by(names, p),
        decreases prefs.len() - k,
    {
        assert(p.skip(k as int)[0] == prefs@[k as int]@);
        match find_prefixed(&local, &prefs[k]) {
            Some(i) => {
                assert(choose_by(names, p.skip(k as int)) == Some(local@[i as int]@));
                assert(all =~= installed@.map_values(|s: String| s@));
                return Some(string_of(&local[i]));
            },
            None => {},
        }
        assert(p.skip(k as int).skip(1) =~= p.skip(k + 1));
        k += 1;
    }
    assert(p.skip(k as int) =~= Seq::<Seq<char>>::empty());
    if local.len() > 0 {
        Some(string_of(&local[0]))
    } else {
        None
    }
}

// ---------------------------------------------------------------- scoring

/// The sung lines of some lyrics: trimmed, non-empty, not section markers.
pub open spec fn sung_lines(ls: Seq<Seq<char>>) -> Seq<Seq<char>>
    decreases ls.len(),
{
    if ls.len() == 0 {
        Seq::empty()
    } else {
        let before = sung_lines(ls.drop_last());
        let t = trim(ls.last());
        if t.len() == 0 || t[0] == '[' {
            before
        } else {
            before.push(t)
        }
    }
}

/// How many different lines `s` holds.
pub open spec fn distinct_count(s: Seq<Seq<char>>) -> nat
    decreases s.len(),
{
    if s.len() == 0 {
        0
    } else {
        distinct_count(s.drop_last()) + if s.drop_last().contains(s.last()) {
            0nat
        } else {
            1nat
        }
    }
}

/// How many of `s` are filler.
pub open spec fn filler_count(s: Seq<Seq<char>>) -> nat
    decreases s.len(),
{
    if s.len() == 0 {
        0
    } else {
        filler_count(s.drop_last()) + if filler_line(s.last()) {
            1nat
        } else {
            0nat
        }
    }
}

/// What lyrics are judged on: the number of sung lines, how many of them
/// differ, and how many are filler.
pub struct LyricStats {
    pub lines: usize,
    pub distinct: usize,
    pub filler: usize,
}

/// Count the sung lines of `lyrics`, the distinct ones among them, and the
/// filler ones. The score itself (a fraction) is worked out from these.
pub fn lyric_stats(lyrics: &str) -> (st: LyricStats)
    ensures
        st.lines == sung_lines(lines(lyrics@)).len(),
        st.distinct == distinct_count(sung_lines(lines(lyrics@))),
        st.filler == filler_count(sung_lines(lines(lyrics@))),
{
    let v = chars_of(lyrics);
    let ls = split_lines(&v);
    let ghost all = lines(v@);
    assert(ls@.map_values(|l: Vec<char>| l@) =~= all);
    let mut sung: Vec<Vec<char>> = Vec::new();
    let mut distinct: usize = 0;
    let mut filler: usize = 0;
    let mut i: usize = 0;
    while i < ls.len()
        invariant
            i <= ls@.len(),
            ls@.map_values(|l: Vec<char>| l@) == all,
            sung@.map_values(|l: Vec<char>| l@) == sung_lines(all.take(i as int)),
            sung@.len() <= i,
            distinct as nat == distinct_count(sung_lines(all.take(i as int))),
            filler as nat == filler_count(sung_lines(all.take(i as int))),
            distinct <= sung@.len(),
            filler <= sung@.len(),
        decreases ls.len() - i,
    {
        assert(all.take(i + 1).drop_last() =~= all.take(i as int));
        assert(all.take(i + 1).last() == ls@[i as int]@);
        let t = trimmed(&ls[i]);
        if t.len() == 0 || t[0] == '[' {
        } else {
            let ghost before = sung@.map_values(|l: Vec<char>| l@);
            let mut seen = false;
            let mut j: usize = 0;
            while j < sung.len()
                invariant
                    j <= sung@.len(),
                    before == sung@.map_values(|l: Vec<char>| l@),
                    seen == before.take(j as int).contains(t@),
                decreases sung.len() - j,
            {
                assert(before.take(j + 1) =~= before.take(j as int).push(sung@[j as int]@));
                if !seen && chars_eq(&sung[j], &t) {
                    seen = true;
                }
                j += 1;
                proof {
                    let b2 = before.take(j as int);
                    if seen && !before.take(j - 1).contains(t@) {
                        assert(b2[j - 1] == t@);
                    }
                    if before.take(j - 1).contains(t@) {
                        let w = choose|m: int| 0 <= m < j - 1 && #[trigger] before.take(j - 1)[m] == t@;
                        assert(b2[w] == t@);
                    }
                    if b2.contains(t@) && !seen {
                        let w = choose|m: int| 0 <= m < j && #[trigger] b2[m] == t@;
                        if w < j - 1 {
                            assert(before.take(j - 1)[w] == t@);
                        }
                    }
                }
            }
            assert(before.take(sung@.len() as int) =~= before);
            if !seen {
                distinct += 1;
            }
            let ts = string_of(&t);
            if is_filler(ts.as_str()) {
                filler += 1;
            }
            proof {
                let s0 = sung_lines(all.take(i as int));
                assert(before == s0);
                assert(s0.push(t@).drop_last() =~= s0);
                assert(s0.push(t@).last() == t@);
                assert(sung_lines(all.take(i + 1)) == s0.push(t@));
            }
            sung.push(t);
        }
        i += 1;
        assert(sung@.map_values(|l: Vec<char>| l@) =~= sung_lines(all.take(i as int)));
    }
    assert(all.take(all.len() as int) =~= all);
    LyricStats { lines: sung.len(), distinct, filler }
}

} // verus!
