//! File names and extensions of `/`-separated paths, as `std::path::Path`
//! reads them on Unix.

use vstd::prelude::*;
use crate::text::{chars_of, string_of, append_chars, sub_chars};

verus! {

/// `p` without trailing separators and trailing `.` components, which
/// `Path::components` normalises away.
pub open spec fn strip_tail(p: Seq<char>) -> Seq<char>
    decreases p.len(),
{
    if p.len() > 0 && p.last() == '/' {
        strip_tail(p.drop_last())
    } else if p.len() >= 2 && p.last() == '.' && p[p.len() - 2] == '/' {
        strip_tail(p.take(p.len() - 2))
    } else {
        p
    }
}

/// The index of the last `c` in `s`, or -1.
pub open spec fn rfind_char(s: Seq<char>, c: char) -> int
    decreases s.len(),
{
    if s.len() == 0 {
        -1
    } else if s.last() == c {
        s.len() - 1
    } else {
        rfind_char(s.drop_last(), c)
    }
}

/// The text after the last separator of `q`.
pub open spec fn last_segment(q: Seq<char>) -> Seq<char> {
    q.skip(rfind_char(q, '/') + 1)
}

/// `Path::file_name`: the last component, unless it is empty, `.` or `..`.
pub open spec fn file_name(p: Seq<char>) -> Option<Seq<char>> {
    let n = last_segment(strip_tail(p));
    if n.len() == 0 || n == seq!['.'] || n == seq!['.', '.'] {
        None
    } else {
        Some(n)
    }
}

/// Length of the stem of the file name `n`: everything before its last dot,
/// unless that dot is the first character or there is none.
pub open spec fn stem_len(n: Seq<char>) -> int {
    let d = rfind_char(n, '.');
    if d <= 0 {
        n.len() as int
    } else {
        d
    }
}

/// `Path::extension` of a path whose file name is `n`.
pub open spec fn name_extension(n: Seq<char>) -> Option<Seq<char>> {
    let d = rfind_char(n, '.');
    if d <= 0 {
        None
    } else {
        Some(n.skip(d + 1))
    }
}

/// `Path::extension`.
pub open spec fn extension(p: Seq<char>) -> Option<Seq<char>> {
    match file_name(p) {
        Some(n) => name_extension(n),
        None => None,
    }
}

/// `Path::with_extension(ext)` for a non-empty `ext`: the path cut right after
/// the file stem, then `.` and `ext`. A path without a file name is unchanged.
pub open spec fn with_extension(p: Seq<char>, ext: Seq<char>) -> Seq<char> {
    match file_name(p) {
        Some(n) => {
            let q = strip_tail(p);
            q.take(q.len() - n.len() + stem_len(n)) + seq!['.'] + ext
        },
        None => p,
    }
}

proof fn lemma_strip_tail_prefix(p: Seq<char>)
    ensures
        strip_tail(p).len() <= p.len(),
        strip_tail(p) == p.take(strip_tail(p).len() as int),
    decreases p.len(),
{
    if p.len() > 0 && p.last() == '/' {
        lemma_strip_tail_prefix(p.drop_last());
        assert(p.drop_last().take(strip_tail(p).len() as int) =~= p.take(strip_tail(p).len() as int));
    } else if p.len() >= 2 && p.last() == '.' && p[p.len() - 2] == '/' {
        lemma_strip_tail_prefix(p.take(p.len() - 2));
        assert(p.take(p.len() - 2).take(strip_tail(p).len() as int) =~= p.take(
            strip_tail(p).len() as int,
        ));
    } else {
        assert(p.take(p.len() as int) =~= p);
    }
}

/// `rfind_char` is -1 or the index of a `c`, with no `c` after it.
pub proof fn lemma_rfind_char(s: Seq<char>, c: char)
    ensures
        -1 <= rfind_char(s, c) < s.len(),
        rfind_char(s, c) >= 0 ==> s[rfind_char(s, c)] == c,
        forall|k: int| rfind_char(s, c) < k < s.len() ==> #[trigger] s[k] != c,
    decreases s.len(),
{
    if s.len() > 0 && s.last() != c {
        lemma_rfind_char(s.drop_last(), c);
        assert forall|k: int| rfind_char(s, c) < k < s.len() implies #[trigger] s[k] != c by {
            if k < s.len() - 1 {
                assert(s[k] == s.drop_last()[k]);
            }
        }
    }
}

/// The length of `strip_tail(v)`.
fn strip_tail_len(v: &Vec<char>) -> (n: usize)
    ensures
        n as int == strip_tail(v@).len(),
        n <= v@.len(),
{
    let mut n = v.len();
    proof {
        lemma_strip_tail_prefix(v@);
    }
    assert(v@.take(n as int) =~= v@);
    loop
        invariant
            n <= v@.len(),
            strip_tail(v@.take(n as int)) == strip_tail(v@),
        decreases n,
    {
        let ghost t = v@.take(n as int);
        if n > 0 && v[n - 1] == '/' {
            assert(t.drop_last() =~= v@.take(n - 1));
            n -= 1;
        } else if n >= 2 && v[n - 1] == '.' && v[n - 2] == '/' {
            assert(t.take(t.len() - 2) =~= v@.take(n - 2));
            n -= 2;
        } else {
            assert(strip_tail(t) == t);
            return n;
        }
    }
}

/// The index of the last `c` in `v[..end]`, if any.
fn rposition(v: &Vec<char>, end: usize, c: char) -> (r: Option<usize>)
    requires
        end <= v@.len(),
    ensures
        match r {
            Some(i) => i < end && i as int == rfind_char(v@.take(end as int), c),
            None => rfind_char(v@.take(end as int), c) == -1,
        },
{
    let mut i = end;
    while i > 0
        invariant
            i <= end <= v@.len(),
            rfind_char(v@.take(i as int), c) == rfind_char(v@.take(end as int), c),
        decreases i,
    {
        let ghost t = v@.take(i as int);
        if v[i - 1] == c {
            assert(t.last() == c);
            return Some(i - 1);
        }
        assert(t.drop_last() =~= v@.take(i - 1));
        i -= 1;
    }
    None
}

/// Where the file name of `v` starts and ends, when it has one.
fn file_name_bounds(v: &Vec<char>) -> (r: Option<(usize, usize)>)
    ensures
        match r {
            Some((a, b)) => {
                &&& a <= b <= v@.len()
                &&& b as int == strip_tail(v@).len()
                &&& file_name(v@) == Some(v@.subrange(a as int, b as int))
            },
            None => file_name(v@) is None,
        },
{
    let q = strip_tail_len(v);
    proof {
        lemma_strip_tail_prefix(v@);
    }
    let ghost qs = strip_tail(v@);
    assert(qs =~= v@.take(q as int));
    let start = match rposition(v, q, '/') {
        Some(i) => i + 1,
        None => 0,
    };
    proof {
        lemma_rfind_char(qs, '/');
    }
    assert(last_segment(qs) =~= v@.subrange(start as int, q as int));
    let len = q - start;
    if len == 0 || (len == 1 && v[start] == '.') || (len == 2 && v[start] == '.' && v[start + 1]
        == '.') {
        proof {
            let n = v@.subrange(start as int, q as int);
            if len == 1 {
                assert(n =~= seq!['.']);
            }
            if len == 2 {
                assert(n =~= seq!['.', '.']);
            }
        }
        return None;
    }
    proof {
        let n = v@.subrange(start as int, q as int);
        if n.len() == 1 {
            assert(n != seq!['.']) by {
                assert(n[0] != seq!['.'][0]);
            }
        }
        if n.len() == 2 {
            assert(n != seq!['.', '.']) by {
                if n[0] == '.' {
                    assert(n[1] != seq!['.', '.'][1]);
                } else {
                    assert(n[0] != seq!['.', '.'][0]);
                }
            }
        }
    }
    Some((start, q))
}

/// The extension of the path `path`, as `Path::extension` reads it.
pub fn path_extension(path: &str) -> (r: Option<Vec<char>>)
    ensures
        match r {
            Some(e) => extension(path@) == Some(e@),
            None => extension(path@) is None,
        },
{
    let v = chars_of(path);
    match file_name_bounds(&v) {
        None => None,
        Some((a, b)) => {
            let n = sub_chars(&v, a, b);
            match rposition(&n, n.len(), '.') {
                Some(d) => {
                    assert(n@.take(n@.len() as int) =~= n@);
                    if d == 0 {
                        None
                    } else {
                        Some(sub_chars(&n, d + 1, n.len()))
                    }
                },
                None => {
                    assert(n@.take(n@.len() as int) =~= n@);
                    None
                },
            }
        },
    }
}

/// `Path::with_extension(ext)` for a non-empty `ext`.
pub fn replace_extension(path: &str, ext: &str) -> (r: String)
    ensures
        r@ == with_extension(path@, ext@),
{
    let v = chars_of(path);
    match file_name_bounds(&v) {
        None => string_of(&v),
        Some((a, b)) => {
            let n = sub_chars(&v, a, b);
            assert(n@.take(n@.len() as int) =~= n@);
            let stem = match rposition(&n, n.len(), '.') {
                Some(d) => if d == 0 {
                    n.len()
                } else {
                    d
                },
                None => n.len(),
            };
            proof {
                lemma_strip_tail_prefix(v@);
            }
            let mut out = sub_chars(&v, 0, a + stem);
            out.push('.');
            let e = chars_of(ext);
            append_chars(&mut out, &e);
            assert(strip_tail(v@).take(b - (b - a) + stem) =~= v@.subrange(0, a + stem));
            string_of(&out)
        },
    }
}

} // verus!
