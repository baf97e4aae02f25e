//! Getting music out: file names every filesystem accepts, numbered stems
//! that sort in order, and the extended M3U playlist written beside them.

use vstd::prelude::*;
use crate::path::{extension, path_extension};
use crate::text::{
    append_chars, chars_of, control, decimal, decimal_chars, is_control, is_space,
    join, join_spaced, space, split_words, string_of, sub_chars, words,
};

verus! {

/// Longest a single title may contribute to a filename, in characters.
pub const MAX_TITLE: usize = 80;

/// Reserved on Windows, and `/` everywhere.
pub open spec fn is_reserved(c: char) -> bool {
    c == '/' || c == '\\' || c == ':' || c == '*' || c == '?' || c == '"' || c == '<' || c == '>'
        || c == '|'
}

/// A character that may stand in a file name.
pub open spec fn name_safe(c: char) -> bool {
    !is_reserved(c) && !is_control(c)
}

/// Every character of `s` may stand in a file name.
pub open spec fn all_name_safe(s: Seq<char>) -> bool {
    forall|i: int| 0 <= i < s.len() ==> name_safe(#[trigger] s[i])
}

/// Reserved and control characters replaced by spaces.
pub open spec fn blank_unsafe(s: Seq<char>) -> Seq<char> {
    s.map_values(|c: char| if name_safe(c) { c } else { ' ' })
}

/// `s` without leading dots and whitespace.
pub open spec fn strip_dots_start(s: Seq<char>) -> Seq<char>
    decreases s.len(),
{
    if s.len() > 0 && (s[0] == '.' || is_space(s[0])) {
        strip_dots_start(s.skip(1))
    } else {
        s
    }
}

/// `s` without trailing dots and whitespace.
pub open spec fn strip_dots_end(s: Seq<char>) -> Seq<char>
    decreases s.len(),
{
    if s.len() > 0 && (s.last() == '.' || is_space(s.last())) {
        strip_dots_end(s.drop_last())
    } else {
        s
    }
}

/// `Untitled`.
pub open spec fn untitled() -> Seq<char> {
    seq!['U', 'n', 't', 'i', 't', 'l', 'e', 'd']
}

/// A song title turned into a file name: unsafe characters become spaces,
/// runs of whitespace collapse to one space, leading and trailing dots and
/// spaces go, the result is cut to 80 characters and trailing dots and
/// whitespace go again (Windows strips them, which would make two titles one
/// file name); an empty result is `Untitled`.
pub open spec fn safe_filename_spec(title: Seq<char>) -> Seq<char> {
    let collapsed = join(words(blank_unsafe(title)), seq![' ']);
    let trimmed = strip_dots_end(strip_dots_start(collapsed));
    let capped = strip_dots_end(
        if trimmed.len() > 80 {
            trimmed.take(80)
        } else {
            trimmed
        },
    );
    if capped.len() == 0 {
        untitled()
    } else {
        capped
    }
}

proof fn lemma_words_keep(s: Seq<char>, p: spec_fn(char) -> bool)
    requires
        forall|i: int| 0 <= i < s.len() ==> p(#[trigger] s[i]),
    ensures
        forall|k: int, i: int|
            0 <= k < words(s).len() && 0 <= i < words(s)[k].len() ==> p(#[trigger] words(s)[k][i]),
    decreases s.len(),
{
    if s.len() > 0 {
        let q = s.drop_last();
        assert forall|i: int| 0 <= i < q.len() implies p(#[trigger] q[i]) by {
            assert(q[i] == s[i]);
        }
        lemma_words_keep(q, p);
        let ws = words(q);
        let c = s.last();
        assert(p(c)) by {
            assert(s[s.len() - 1] == c);
        }
        if !is_space(c) {
            if s.len() >= 2 && !is_space(s[s.len() - 2]) {
                crate::text::lemma_words_nonempty(q);
                assert(q.last() == s[s.len() - 2]);
                let w = ws.last().push(c);
                assert forall|k: int, i: int|
                    0 <= k < words(s).len() && 0 <= i < words(s)[k].len() implies p(
                    #[trigger] words(s)[k][i],
                ) by {
                    if k < words(s).len() - 1 {
                        assert(words(s)[k] == ws[k]);
                    } else if i < w.len() - 1 {
                        assert(w[i] == ws[ws.len() - 1][i]);
                    }
                }
            } else {
                assert forall|k: int, i: int|
                    0 <= k < words(s).len() && 0 <= i < words(s)[k].len() implies p(
                    #[trigger] words(s)[k][i],
                ) by {
                    if k < words(s).len() - 1 {
                        assert(words(s)[k] == ws[k]);
                    }
                }
            }
        }
    }
}

proof fn lemma_join_keep(ws: Seq<Seq<char>>, p: spec_fn(char) -> bool)
    requires
        p(' '),
        forall|k: int, i: int| 0 <= k < ws.len() && 0 <= i < ws[k].len() ==> p(#[trigger] ws[k][i]),
    ensures
        forall|i: int| 0 <= i < join(ws, seq![' ']).len() ==> p(#[trigger] join(ws, seq![' '])[i]),
    decreases ws.len(),
{
    if ws.len() == 1 {
        assert forall|i: int| 0 <= i < ws[0].len() implies p(#[trigger] ws[0][i]) by {}
    } else if ws.len() > 1 {
        let q = ws.drop_last();
        assert forall|k: int, i: int| 0 <= k < q.len() && 0 <= i < q[k].len() implies p(
            #[trigger] q[k][i],
        ) by {
            assert(q[k] == ws[k]);
        }
        lemma_join_keep(q, p);
        let a = join(q, seq![' ']);
        let w = ws.last();
        assert(w == ws[ws.len() - 1]);
        let j = a + seq![' '] + w;
        assert(j == join(ws, seq![' ']));
        assert forall|i: int| 0 <= i < j.len() implies p(#[trigger] j[i]) by {
            if i < a.len() {
                assert(j[i] == a[i]);
            } else if i == a.len() {
                assert(j[i] == ' ');
            } else {
                assert(j[i] == w[i - a.len() - 1]);
            }
        }
    }
}

proof fn lemma_sub_safe(s: Seq<char>, a: int, b: int)
    requires
        all_name_safe(s),
        0 <= a <= b <= s.len(),
    ensures
        all_name_safe(s.subrange(a, b)),
{
    assert forall|i: int| 0 <= i < b - a implies name_safe(#[trigger] s.subrange(a, b)[i]) by {
        assert(s.subrange(a, b)[i] == s[a + i]);
    }
}

/// Every whitespace character of `s` is a plain space, and no two stand
/// side by side.
pub open spec fn single_spaced(s: Seq<char>) -> bool {
    forall|k: int|
        0 <= k < s.len() && is_space(#[trigger] s[k]) ==> s[k] == ' ' && (k + 1 < s.len()
            ==> !is_space(s[k + 1]))
}

proof fn lemma_words_solid(s: Seq<char>)
    ensures
        forall|k: int, i: int|
            0 <= k < words(s).len() && 0 <= i < words(s)[k].len() ==> !is_space(
                #[trigger] words(s)[k][i],
            ),
    decreases s.len(),
{
    if s.len() > 0 {
        let p = s.drop_last();
        lemma_words_solid(p);
        let ws = words(p);
        let c = s.last();
        if !is_space(c) && s.len() >= 2 && !is_space(s[s.len() - 2]) {
            crate::text::lemma_words_nonempty(p);
            assert(p.last() == s[s.len() - 2]);
            let w = ws.last().push(c);
            assert forall|k: int, i: int|
                0 <= k < words(s).len() && 0 <= i < words(s)[k].len() implies !is_space(
                #[trigger] words(s)[k][i],
            ) by {
                if k < words(s).len() - 1 {
                    assert(words(s)[k] == ws[k]);
                } else if i < w.len() - 1 {
                    assert(w[i] == ws[ws.len() - 1][i]);
                }
            }
        } else if !is_space(c) {
            assert forall|k: int, i: int|
                0 <= k < words(s).len() && 0 <= i < words(s)[k].len() implies !is_space(
                #[trigger] words(s)[k][i],
            ) by {
                if k < words(s).len() - 1 {
                    assert(words(s)[k] == ws[k]);
                }
            }
        }
    }
}

proof fn lemma_join_single(ws: Seq<Seq<char>>)
    requires
        forall|k: int| 0 <= k < ws.len() ==> (#[trigger] ws[k]).len() > 0,
        forall|k: int, i: int| 0 <= k < ws.len() && 0 <= i < ws[k].len() ==> !is_space(#[trigger] ws[k][i]),
    ensures
        single_spaced(join(ws, seq![' '])),
        ws.len() > 0 ==> join(ws, seq![' ']).len() > 0 && !is_space(join(ws, seq![' ']).last()),
    decreases ws.len(),
{
    if ws.len() == 1 {
        assert(ws[0].len() > 0);
        assert(!is_space(ws[0][ws[0].len() - 1]));
    } else if ws.len() > 1 {
        let p = ws.drop_last();
        assert forall|k: int| 0 <= k < p.len() implies (#[trigger] p[k]).len() > 0 by {
            assert(p[k] == ws[k]);
        }
        assert forall|k: int, i: int| 0 <= k < p.len() && 0 <= i < p[k].len() implies !is_space(
            #[trigger] p[k][i],
        ) by {
            assert(p[k] == ws[k]);
        }
        lemma_join_single(p);
        let a = join(p, seq![' ']);
        let w = ws.last();
        assert(w == ws[ws.len() - 1]);
        assert(w.len() > 0);
        let j = a + seq![' '] + w;
        assert(j == join(ws, seq![' ']));
        assert forall|k: int| 0 <= k < j.len() && is_space(#[trigger] j[k]) implies j[k] == ' ' && (k
            + 1 < j.len() ==> !is_space(j[k + 1])) by {
            if k < a.len() {
                assert(j[k] == a[k]);
                if k + 1 < a.len() {
                    assert(j[k + 1] == a[k + 1]);
                } else {
                    assert(a[k] == a.last());
                }
            } else if k == a.len() {
                assert(j[k + 1] == w[0]);
            } else {
                assert(j[k] == w[k - a.len() - 1]);
            }
        }
        assert(j.last() == w[w.len() - 1]);
    }
}

proof fn lemma_sub_single(s: Seq<char>, a: int, b: int)
    requires
        single_spaced(s),
        0 <= a <= b <= s.len(),
    ensures
        single_spaced(s.subrange(a, b)),
{
    let t = s.subrange(a, b);
    assert forall|k: int| 0 <= k < t.len() && is_space(#[trigger] t[k]) implies t[k] == ' ' && (k + 1
        < t.len() ==> !is_space(t[k + 1])) by {
        assert(t[k] == s[a + k]);
        if k + 1 < t.len() {
            assert(t[k + 1] == s[a + k + 1]);
        }
    }
}

/// Index of the first character of `v` that is neither a dot nor whitespace.
fn skip_dots(v: &Vec<char>) -> (i: usize)
    ensures
        i <= v@.len(),
        v@.skip(i as int) == strip_dots_start(v@),
{
    let mut i: usize = 0;
    assert(v@.skip(0) =~= v@);
    while i < v.len() && (v[i] == '.' || space(v[i]))
        invariant
            i <= v@.len(),
            strip_dots_start(v@.skip(i as int)) == strip_dots_start(v@),
        decreases v.len() - i,
    {
        assert(v@.skip(i as int).skip(1) =~= v@.skip(i + 1));
        i += 1;
    }
    i
}

/// One past the last character of `v` that is neither a dot nor whitespace.
fn end_before_dots(v: &Vec<char>) -> (j: usize)
    ensures
        j <= v@.len(),
        v@.take(j as int) == strip_dots_end(v@),
{
    let mut j = v.len();
    assert(v@.take(j as int) =~= v@);
    while j > 0 && (v[j - 1] == '.' || space(v[j - 1]))
        invariant
            j <= v@.len(),
            strip_dots_end(v@.take(j as int)) == strip_dots_end(v@),
        decreases j,
    {
        assert(v@.take(j as int).drop_last() =~= v@.take(j - 1));
        j -= 1;
    }
    j
}

/// A dot or whitespace character, stripped from a name's ends.
pub open spec fn edge_char(c: char) -> bool {
    c == '.' || is_space(c)
}

proof fn lemma_strip_all_edge(s: Seq<char>)
    requires
        forall|i: int| 0 <= i < s.len() ==> edge_char(#[trigger] s[i]),
    ensures
        strip_dots_start(s).len() == 0,
    decreases s.len(),
{
    if s.len() > 0 {
        assert(edge_char(s[0]));
        let r = s.skip(1);
        assert forall|i: int| 0 <= i < r.len() implies edge_char(#[trigger] r[i]) by {
            assert(r[i] == s[i + 1]);
        }
        lemma_strip_all_edge(r);
    }
}

proof fn lemma_strip_start_edge(s: Seq<char>)
    ensures
        strip_dots_start(s).len() > 0 ==> !edge_char(strip_dots_start(s)[0]),
    decreases s.len(),
{
    if s.len() > 0 && edge_char(s[0]) {
        lemma_strip_start_edge(s.skip(1));
    }
}

proof fn lemma_strip_end_edge(s: Seq<char>)
    ensures
        strip_dots_end(s).len() <= s.len(),
        strip_dots_end(s) == s.take(strip_dots_end(s).len() as int),
        strip_dots_end(s).len() > 0 ==> !edge_char(strip_dots_end(s).last()),
        s.len() > 0 && !edge_char(s[0]) ==> strip_dots_end(s).len() > 0 && strip_dots_end(s)[0]
            == s[0],
    decreases s.len(),
{
    if s.len() > 0 && edge_char(s.last()) {
        lemma_strip_end_edge(s.drop_last());
        assert(s.drop_last().take(strip_dots_end(s).len() as int) =~= s.take(
            strip_dots_end(s).len() as int,
        ));
        if s.len() > 1 && !edge_char(s[0]) {
            assert(s.drop_last()[0] == s[0]);
        }
    } else {
        assert(s.take(s.len() as int) =~= s);
    }
}

/// Turn a song title into something every filesystem will accept.
pub fn safe_filename(title: &str) -> (name: String)
    ensures
        name@ == safe_filename_spec(title@),
        name@.len() > 0,
        name@.len() <= MAX_TITLE,
        all_name_safe(name@),
        name@[0] != '.' && !is_space(name@[0]),
        name@.last() != '.' && !is_space(name@.last()),
        single_spaced(name@),
        (forall|i: int| 0 <= i < title@.len() ==> edge_char(#[trigger] title@[i]) || !name_safe(title@[i]))
            ==> name@ == untitled(),
{
    let t = chars_of(title);
    let mut cleaned: Vec<char> = Vec::new();
    let mut i: usize = 0;
    while i < t.len()
        invariant
            i <= t@.len(),
            cleaned@ == blank_unsafe(t@.take(i as int)),
        decreases t.len() - i,
    {
        let c = t[i];
        let bad = c == '/' || c == '\\' || c == ':' || c == '*' || c == '?' || c == '"' || c == '<'
            || c == '>' || c == '|' || control(c);
        cleaned.push(if bad { ' ' } else { c });
        i += 1;
        assert(cleaned@ =~= blank_unsafe(t@.take(i as int)));
    }
    assert(t@.take(t@.len() as int) =~= t@);
    let ghost b = blank_unsafe(t@);
    proof {
        assert forall|k: int| 0 <= k < b.len() implies name_safe(#[trigger] b[k]) by {}
        lemma_words_keep(b, |c: char| name_safe(c));
    }
    let ws = split_words(&cleaned);
    let collapsed = join_spaced(&ws, ws.len());
    assert(ws@.take(ws@.len() as int).map_values(|w: Vec<char>| w@) =~= words(b));
    proof {
        lemma_join_keep(words(b), |c: char| name_safe(c));
        if forall|i: int| 0 <= i < title@.len() ==> edge_char(#[trigger] title@[i]) || !name_safe(title@[i]) {
            assert forall|i: int| 0 <= i < b.len() implies edge_char(#[trigger] b[i]) by {}
            lemma_words_keep(b, |c: char| edge_char(c));
            lemma_join_keep(words(b), |c: char| edge_char(c));
            lemma_strip_all_edge(collapsed@);
        }
        crate::text::lemma_words_have_letters(b);
        lemma_words_solid(b);
        lemma_join_single(words(b));
    }
    let s = skip_dots(&collapsed);
    let rest = sub_chars(&collapsed, s, collapsed.len());
    assert(rest@ =~= collapsed@.skip(s as int));
    let e = end_before_dots(&rest);
    let trimmed = sub_chars(&rest, 0, e);
    assert(trimmed@ =~= rest@.take(e as int));
    proof {
        lemma_sub_safe(collapsed@, s as int, collapsed@.len() as int);
        lemma_sub_safe(rest@, 0, e as int);
    }
    let cut = if trimmed.len() > MAX_TITLE {
        MAX_TITLE
    } else {
        trimmed.len()
    };
    let head = sub_chars(&trimmed, 0, cut);
    assert(trimmed@.take(trimmed@.len() as int) =~= trimmed@);
    assert(head@ =~= if trimmed@.len() > 80 {
        trimmed@.take(80)
    } else {
        trimmed@
    });
    let end = end_before_dots(&head);
    let capped = sub_chars(&head, 0, end);
    assert(capped@ =~= head@.take(end as int));
    proof {
        lemma_sub_safe(trimmed@, 0, cut as int);
        lemma_sub_safe(head@, 0, end as int);
        lemma_sub_single(collapsed@, s as int, collapsed@.len() as int);
        lemma_sub_single(rest@, 0, e as int);
        lemma_sub_single(trimmed@, 0, cut as int);
        lemma_sub_single(head@, 0, end as int);
        lemma_strip_start_edge(collapsed@);
        lemma_strip_end_edge(strip_dots_start(collapsed@));
        lemma_strip_end_edge(head@);
        if head@.len() > 0 {
            assert(head@[0] == trimmed@[0]);
        }
    }
    if capped.len() == 0 {
        let u = chars_of("Untitled");
        proof {
            reveal_strlit("Untitled");
            assert(u@ =~= untitled());
            assert(single_spaced(u@)) by {
                assert forall|k: int| 0 <= k < u@.len() implies !is_space(#[trigger] u@[k]) by {}
            }
        }
        string_of(&u)
    } else {
        string_of(&capped)
    }
}

// ---------------------------------------------------------------- numbering

/// `d` padded on the left with zeros to at least `width` characters.
pub open spec fn zero_pad(d: Seq<char>, width: nat) -> Seq<char> {
    if d.len() >= width {
        d
    } else {
        Seq::new((width - d.len()) as nat, |i: int| '0') + d
    }
}

/// The name (without extension) of the file for the track at 0-based
/// position `index` of `count`: its 1-based number zero-padded to the width
/// of `count` (at least two digits), ` - `, and the safe title.
pub open spec fn export_stem_spec(index: nat, count: nat, title: Seq<char>) -> Seq<char> {
    let width = if decimal(count).len() > 2 {
        decimal(count).len()
    } else {
        2
    };
    zero_pad(decimal(index + 1), width) + seq![' ', '-', ' '] + safe_filename_spec(title)
}

/// The stem every exported file of a track shares. Wide enough numbers that
/// the files sort correctly in any file manager; a skipped track leaves a gap
/// rather than renumbering the rest.
pub fn export_stem(index: usize, count: usize, title: &str) -> (stem: String)
    requires
        index < count,
    ensures
        stem@ == export_stem_spec(index as nat, count as nat, title@),
{
    let count_digits = decimal_chars(count as u64);
    let width = if count_digits.len() > 2 {
        count_digits.len()
    } else {
        2
    };
    let number = decimal_chars((index + 1) as u64);
    let mut out: Vec<char> = Vec::new();
    let mut k = number.len();
    while k < width
        invariant
            number@.len() <= k <= width || (k == number@.len() && number@.len() > width),
            out@ == Seq::new((k - number@.len()) as nat, |i: int| '0'),
        decreases width - k,
    {
        out.push('0');
        k += 1;
        assert(out@ =~= Seq::new((k - number@.len()) as nat, |i: int| '0'));
    }
    append_chars(&mut out, &number);
    assert(out@ =~= zero_pad(decimal(index as nat + 1), width as nat));
    out.push(' ');
    out.push('-');
    out.push(' ');
    let safe = safe_filename(title);
    let sv = chars_of(safe.as_str());
    append_chars(&mut out, &sv);
    assert(out@ =~= export_stem_spec(index as nat, count as nat, title@));
    string_of(&out)
}

// ---------------------------------------------------------------- sort order

/// `x` sorts before `y` by their first differing character.
pub open spec fn sorts_before(x: Seq<char>, y: Seq<char>) -> bool {
    exists|k: int| 0 <= k < x.len() && k < y.len() && x.take(k) == y.take(k) && #[trigger] x[k] < y[k]
}

/// Every character of `s` is a decimal digit.
pub open spec fn digits_only(s: Seq<char>) -> bool {
    forall|k: int| 0 <= k < s.len() ==> '0' <= #[trigger] s[k] <= '9'
}

/// The number a string of decimal digits spells.
pub open spec fn digits_number(s: Seq<char>) -> int
    decreases s.len(),
{
    if s.len() == 0 {
        0
    } else {
        digits_number(s.drop_last()) * 10 + (s.last() as int - 48)
    }
}

proof fn lemma_digit_char(d: nat)
    requires
        d < 10,
    ensures
        crate::text::digit_char(d) as int == 48 + d,
{
    if d == 0 {
    } else if d == 1 {
    } else if d == 2 {
    } else if d == 3 {
    } else if d == 4 {
    } else if d == 5 {
    } else if d == 6 {
    } else if d == 7 {
    } else if d == 8 {
    } else {
    }
}

proof fn lemma_decimal_number(n: nat)
    ensures
        digits_only(decimal(n)),
        digits_number(decimal(n)) == n,
        decimal(n).len() >= 1,
    decreases n,
{
    if n < 10 {
        lemma_digit_char(n);
        assert(decimal(n).drop_last() =~= Seq::<char>::empty());
        assert(decimal(n).last() == crate::text::digit_char(n));
        assert(digits_number(decimal(n)) == digits_number(decimal(n).drop_last()) * 10 + (
        decimal(n).last() as int - 48));
    } else {
        lemma_decimal_number(n / 10);
        lemma_digit_char(n % 10);
        let d = decimal(n);
        assert(d.drop_last() =~= decimal(n / 10));
        assert forall|k: int| 0 <= k < d.len() implies '0' <= #[trigger] d[k] <= '9' by {
            if k < d.len() - 1 {
                assert(d[k] == decimal(n / 10)[k]);
            }
        }
        assert(d.last() == crate::text::digit_char(n % 10));
        assert(digits_number(d) == digits_number(d.drop_last()) * 10 + (d.last() as int - 48));
        assert((n / 10) * 10 + n % 10 == n);
    }
}

proof fn lemma_decimal_len_grows(n: nat, m: nat)
    requires
        n <= m,
    ensures
        decimal(n).len() <= decimal(m).len(),
    decreases m,
{
    if n >= 10 {
        lemma_decimal_len_grows(n / 10, m / 10);
    } else if m >= 10 {
        lemma_decimal_number(m / 10);
    }
}

proof fn lemma_zeros_number(k: nat)
    ensures
        digits_number(Seq::new(k, |i: int| '0')) == 0,
        digits_only(Seq::new(k, |i: int| '0')),
    decreases k,
{
    if k > 0 {
        lemma_zeros_number((k - 1) as nat);
        assert(Seq::new(k, |i: int| '0').drop_last() =~= Seq::new((k - 1) as nat, |i: int| '0'));
    }
}

proof fn lemma_padded_number(z: nat, d: Seq<char>)
    requires
        digits_only(d),
    ensures
        digits_only(Seq::new(z, |i: int| '0') + d),
        digits_number(Seq::new(z, |i: int| '0') + d) == digits_number(d),
    decreases d.len(),
{
    let zs = Seq::new(z, |i: int| '0');
    lemma_zeros_number(z);
    if d.len() == 0 {
        assert(zs + d =~= zs);
    } else {
        assert(digits_only(d.drop_last()));
        lemma_padded_number(z, d.drop_last());
        assert((zs + d).drop_last() =~= zs + d.drop_last());
        assert((zs + d).last() == d.last());
    }
    let all = zs + d;
    assert forall|k: int| 0 <= k < all.len() implies '0' <= #[trigger] all[k] <= '9' by {
        if k < zs.len() {
            assert(all[k] == zs[k]);
        } else {
            assert(all[k] == d[k - zs.len()]);
        }
    }
}

proof fn lemma_same_number_same_digits(x: Seq<char>, y: Seq<char>)
    requires
        x.len() == y.len(),
        digits_only(x),
        digits_only(y),
        digits_number(x) == digits_number(y),
    ensures
        x == y,
    decreases x.len(),
{
    if x.len() > 0 {
        let a = digits_number(x.drop_last());
        let b = digits_number(y.drop_last());
        let dx = x.last() as int - 48;
        let dy = y.last() as int - 48;
        assert(0 <= dx <= 9 && 0 <= dy <= 9) by {
            assert('0' <= x[x.len() - 1] <= '9');
            assert('0' <= y[y.len() - 1] <= '9');
        }
        assert(a == b && dx == dy) by (nonlinear_arith)
            requires
                a * 10 + dx == b * 10 + dy,
                0 <= dx <= 9,
                0 <= dy <= 9,
        ;
        assert(digits_only(x.drop_last()));
        assert(digits_only(y.drop_last()));
        lemma_same_number_same_digits(x.drop_last(), y.drop_last());
        assert(x =~= x.drop_last().push(x.last()));
        assert(y =~= y.drop_last().push(y.last()));
    } else {
        assert(x =~= y);
    }
}

proof fn lemma_number_digits_nonneg(x: Seq<char>)
    requires
        digits_only(x),
    ensures
        digits_number(x) >= 0,
    decreases x.len(),
{
    if x.len() > 0 {
        assert(digits_only(x.drop_last()));
        lemma_number_digits_nonneg(x.drop_last());
        assert('0' <= x[x.len() - 1] <= '9');
    }
}

/// Equal-length digit strings sort as the numbers they spell.
proof fn lemma_smaller_number_sorts_first(x: Seq<char>, y: Seq<char>)
    requires
        x.len() == y.len(),
        digits_only(x),
        digits_only(y),
        digits_number(x) < digits_number(y),
    ensures
        sorts_before(x, y),
    decreases x.len(),
{
    let n = x.len() as int;
    let xs = x.drop_last();
    let ys = y.drop_last();
    let a = digits_number(xs);
    let b = digits_number(ys);
    let dx = x.last() as int - 48;
    let dy = y.last() as int - 48;
    assert(0 <= dx <= 9 && 0 <= dy <= 9) by {
        assert('0' <= x[n - 1] <= '9');
        assert('0' <= y[n - 1] <= '9');
    }
    assert(digits_only(xs));
    assert(digits_only(ys));
    lemma_number_digits_nonneg(xs);
    lemma_number_digits_nonneg(ys);
    if a < b {
        lemma_smaller_number_sorts_first(xs, ys);
        let k = choose|k: int| 0 <= k < xs.len() && k < ys.len() && xs.take(k) == ys.take(k) && #[trigger] xs[k] < ys[k];
        assert(x.take(k) =~= xs.take(k));
        assert(y.take(k) =~= ys.take(k));
        assert(x[k] == xs[k] && y[k] == ys[k]);
    } else if a == b {
        lemma_same_number_same_digits(xs, ys);
        assert(dx < dy);
        assert(x.take(n - 1) =~= xs);
        assert(y.take(n - 1) =~= ys);
        assert(x[n - 1] < y[n - 1]);
    } else {
        assert(false) by (nonlinear_arith)
            requires
                a > b,
                b >= 0,
                0 <= dx <= 9,
                0 <= dy <= 9,
                a * 10 + dx < b * 10 + dy,
        ;
    }
}

/// The width the track numbers of an export of `count` songs are padded to.
pub open spec fn number_width(count: nat) -> nat {
    if decimal(count).len() > 2 {
        decimal(count).len()
    } else {
        2
    }
}

proof fn lemma_padded_track_number(n: nat, count: nat)
    requires
        n <= count,
    ensures
        zero_pad(decimal(n), number_width(count)).len() == number_width(count),
        digits_only(zero_pad(decimal(n), number_width(count))),
        digits_number(zero_pad(decimal(n), number_width(count))) == n,
{
    let w = number_width(count);
    let d = decimal(n);
    lemma_decimal_number(n);
    lemma_decimal_len_grows(n, count);
    if d.len() < w {
        lemma_padded_number((w - d.len()) as nat, d);
    }
}

/// Exported files sort in the order the songs were given, whatever their
/// titles: the zero-padded numbers in front decide, because within one
/// export they all have the same width.
pub proof fn lemma_export_names_sort_in_order(i: nat, j: nat, count: nat, t1: Seq<char>, t2: Seq<char>)
    requires
        i < j < count,
    ensures
        sorts_before(export_stem_spec(i, count, t1), export_stem_spec(j, count, t2)),
{
    let w = number_width(count);
    let pa = zero_pad(decimal(i + 1), w);
    let pb = zero_pad(decimal(j + 1), w);
    lemma_padded_track_number(i + 1, count);
    lemma_padded_track_number(j + 1, count);
    lemma_smaller_number_sorts_first(pa, pb);
    let k = choose|k: int| 0 <= k < pa.len() && k < pb.len() && pa.take(k) == pb.take(k) && #[trigger] pa[k] < pb[k];
    let sa = export_stem_spec(i, count, t1);
    let sb = export_stem_spec(j, count, t2);
    assert(sa == pa + seq![' ', '-', ' '] + safe_filename_spec(t1));
    assert(sb == pb + seq![' ', '-', ' '] + safe_filename_spec(t2));
    assert(sa.take(k) =~= pa.take(k));
    assert(sb.take(k) =~= pb.take(k));
    assert(sa[k] == pa[k]);
    assert(sb[k] == pb[k]);
}

/// The extension an exported audio file keeps: its source's, or `mp3`.
pub open spec fn export_extension(audio_path: Seq<char>) -> Seq<char> {
    match extension(audio_path) {
        Some(e) => e,
        None => "mp3"@,
    }
}

/// The audio and cover file names of the track at `index` of `count`, whose
/// audio lives at `audio_path`: the shared stem, then its own extension, and
/// `.svg` for the cover beside it.
pub fn export_file_names(index: usize, count: usize, title: &str, audio_path: &str) -> (r: (String, String))
    requires
        index < count,
    ensures
        r.0@ == export_stem_spec(index as nat, count as nat, title@) + seq!['.'] + export_extension(
            audio_path@,
        ),
        r.1@ == export_stem_spec(index as nat, count as nat, title@) + seq!['.', 's', 'v', 'g'],
{
    let stem = export_stem(index, count, title);
    let sv = chars_of(stem.as_str());
    let ext = match path_extension(audio_path) {
        Some(e) => e,
        None => chars_of("mp3"),
    };
    let mut audio = sv.clone();
    assert(audio@ == sv@);
    audio.push('.');
    append_chars(&mut audio, &ext);
    let mut cover = sv;
    cover.push('.');
    cover.push('s');
    cover.push('v');
    cover.push('g');
    (string_of(&audio), string_of(&cover))
}

/// The positions among the first `k` songs whose audio is present, in order.
pub open spec fn present_positions(present: Seq<bool>, k: int) -> Seq<int>
    decreases k,
{
    if k <= 0 {
        Seq::empty()
    } else if present[k - 1] {
        present_positions(present, k - 1).push(k - 1)
    } else {
        present_positions(present, k - 1)
    }
}

/// The titles among the first `k` songs whose audio is missing, in order.
pub open spec fn missing_titles(titles: Seq<Seq<char>>, present: Seq<bool>, k: int) -> Seq<Seq<char>>
    decreases k,
{
    if k <= 0 {
        Seq::empty()
    } else if present[k - 1] {
        missing_titles(titles, present, k - 1)
    } else {
        missing_titles(titles, present, k - 1).push(titles[k - 1])
    }
}

/// What an export will do: the positions of the songs to copy, in order
/// (each keeps its own number, so a missing song leaves a gap), and the
/// titles of those whose audio is not there, which are reported rather than
/// failed on.
pub struct ExportPlan {
    pub copy: Vec<usize>,
    pub skipped: Vec<String>,
}

/// The plan for exporting songs titled `titles`, where `present[i]` says
/// whether song `i`'s audio is where the library expects it.
pub fn export_plan(titles: &Vec<String>, present: &Vec<bool>) -> (p: ExportPlan)
    requires
        titles@.len() == present@.len(),
    ensures
        p.copy@.map_values(|i: usize| i as int) == present_positions(present@, present@.len() as int),
        p.skipped@.map_values(|s: String| s@) == missing_titles(
            titles@.map_values(|s: String| s@),
            present@,
            present@.len() as int,
        ),
{
    let ghost ts = titles@.map_values(|s: String| s@);
    let mut copy: Vec<usize> = Vec::new();
    let mut skipped: Vec<String> = Vec::new();
    let mut i: usize = 0;
    while i < present.len()
        invariant
            i <= present@.len(),
            titles@.len() == present@.len(),
            ts == titles@.map_values(|s: String| s@),
            copy@.map_values(|i: usize| i as int) == present_positions(present@, i as int),
            skipped@.map_values(|s: String| s@) == missing_titles(ts, present@, i as int),
        decreases present.len() - i,
    {
        let ghost c0 = copy@.map_values(|i: usize| i as int);
        let ghost s0 = skipped@.map_values(|s: String| s@);
        if present[i] {
            copy.push(i);
            assert(copy@.map_values(|i: usize| i as int) =~= c0.push(i as int));
        } else {
            let t = string_of(&chars_of(titles[i].as_str()));
            skipped.push(t);
            assert(ts[i as int] == titles@[i as int]@);
            assert(skipped@.map_values(|s: String| s@) =~= s0.push(ts[i as int]));
        }
        i += 1;
    }
    ExportPlan { copy, skipped }
}

/// A playlist file is written only when one was asked for and at least one
/// song made it out.
pub fn writes_playlist(name: &Option<String>, written: usize) -> (r: bool)
    ensures
        r == (name is Some && written > 0),
{
    name.is_some() && written > 0
}

/// The playlist file written for a playlist called `name`.
pub fn playlist_file_name(name: &str) -> (f: String)
    ensures
        f@ == safe_filename_spec(name@) + seq!['.', 'm', '3', 'u'],
{
    let safe = safe_filename(name);
    let mut v = chars_of(safe.as_str());
    v.push('.');
    v.push('m');
    v.push('3');
    v.push('u');
    string_of(&v)
}

// ---------------------------------------------------------------- M3U

/// A whole number as text, with a minus sign when negative.
pub open spec fn signed_decimal(x: int) -> Seq<char> {
    if x < 0 {
        seq!['-'] + decimal((-x) as nat)
    } else {
        decimal(x as nat)
    }
}

/// One playlist entry: `#EXTINF:<seconds>,<title>` and then the file.
pub open spec fn m3u_entry(file: Seq<char>, secs: int, title: Seq<char>) -> Seq<char> {
    "#EXTINF:"@ + signed_decimal(secs) + seq![','] + title + seq!['\n'] + file + seq!['\n']
}

/// Entries `(file, seconds, title)` as they appear in the playlist.
pub open spec fn m3u_entries(entries: Seq<(Seq<char>, int, Seq<char>)>) -> Seq<char>
    decreases entries.len(),
{
    if entries.len() == 0 {
        Seq::empty()
    } else {
        let e = entries.last();
        m3u_entries(entries.drop_last()) + m3u_entry(e.0, e.1, e.2)
    }
}

/// The entries of `v` as plain values.
pub open spec fn entry_views(v: Seq<(String, i64, String)>) -> Seq<(Seq<char>, int, Seq<char>)> {
    v.map_values(|e: (String, i64, String)| (e.0@, e.1 as int, e.2@))
}

fn signed_chars(x: i64) -> (r: Vec<char>)
    ensures
        r@ == signed_decimal(x as int),
{
    if x < 0 {
        let mag: u64 = (0i128 - x as i128) as u64;
        let d = decimal_chars(mag);
        let mut r: Vec<char> = Vec::new();
        r.push('-');
        append_chars(&mut r, &d);
        assert(r@ =~= signed_decimal(x as int));
        r
    } else {
        decimal_chars(x as u64)
    }
}

/// An extended M3U playlist. Each entry is `(file, seconds, title)`; files
/// are relative, so the folder still plays after it is moved. Seconds are
/// whole (`-1` when unknown).
pub fn m3u(entries: &Vec<(String, i64, String)>) -> (out: String)
    ensures
        out@ == "#EXTM3U\n"@ + m3u_entries(entry_views(entries@)),
{
    let mut v = chars_of("#EXTM3U\n");
    let ghost head = v@;
    let mut i: usize = 0;
    while i < entries.len()
        invariant
            i <= entries@.len(),
            head == "#EXTM3U\n"@,
            v@ == head + m3u_entries(entry_views(entries@.take(i as int))),
        decreases entries.len() - i,
    {
        let e = &entries[i];
        let ghost before = v@;
        let tag = chars_of("#EXTINF:");
        append_chars(&mut v, &tag);
        let secs = signed_chars(e.1);
        append_chars(&mut v, &secs);
        v.push(',');
        let title = chars_of(e.2.as_str());
        append_chars(&mut v, &title);
        v.push('\n');
        let file = chars_of(e.0.as_str());
        append_chars(&mut v, &file);
        v.push('\n');
        let ghost views = entry_views(entries@.take(i + 1));
        assert(views.drop_last() =~= entry_views(entries@.take(i as int)));
        assert(views.last() == (e.0@, e.1 as int, e.2@));
        assert(v@ =~= before + m3u_entry(e.0@, e.1 as int, e.2@));
        i += 1;
    }
    assert(entries@.take(entries@.len() as int) =~= entries@);
    string_of(&v)
}

/// What an export did.
pub struct ExportReport {
    pub folder: String,
    pub written: usize,
    /// Titles whose audio was not where the library expected it. Reported
    /// rather than failed on: one moved file should not cancel the rest.
    pub skipped: Vec<String>,
    pub playlist_file: Option<String>,
}

} // verus!
