//! Byte-sequence helpers shared by the encoders and parsers.

use vstd::prelude::*;

verus! {

/// Big-endian encoding of a 32-bit value.
pub open spec fn be32(x: u32) -> Seq<u8> {
    seq![(x >> 24u32) as u8, (x >> 16u32) as u8, (x >> 8u32) as u8, x as u8]
}

/// Little-endian encoding of a 16-bit value.
pub open spec fn le16(x: u16) -> Seq<u8> {
    seq![x as u8, (x >> 8u16) as u8]
}

/// Little-endian encoding of a 32-bit value.
pub open spec fn le32(x: u32) -> Seq<u8> {
    seq![x as u8, (x >> 8u32) as u8, (x >> 16u32) as u8, (x >> 24u32) as u8]
}

/// Value of four little-endian bytes.
pub open spec fn le32_value(b0: u8, b1: u8, b2: u8, b3: u8) -> int {
    b0 + 256 * b1 + 65536 * b2 + 16777216 * b3
}

/// Appends `src` to `out`.
pub fn extend(out: &mut Vec<u8>, src: &[u8])
    ensures
        final(out)@ == old(out)@ + src@,
{
    let ghost before = out@;
    out.extend_from_slice(src);
    assert(out@ =~= before + src@);
}

/// Appends the big-endian bytes of `x`.
pub fn push_be32(out: &mut Vec<u8>, x: u32)
    ensures
        final(out)@ == old(out)@ + be32(x),
{
    out.push((x >> 24u32) as u8);
    out.push((x >> 16u32) as u8);
    out.push((x >> 8u32) as u8);
    out.push(x as u8);
    assert(out@ =~= old(out)@ + be32(x));
}

/// Appends the little-endian bytes of `x`.
pub fn push_le16(out: &mut Vec<u8>, x: u16)
    ensures
        final(out)@ == old(out)@ + le16(x),
{
    out.push(x as u8);
    out.push((x >> 8u16) as u8);
    assert(out@ =~= old(out)@ + le16(x));
}

/// Appends the little-endian bytes of `x`.
pub fn push_le32(out: &mut Vec<u8>, x: u32)
    ensures
        final(out)@ == old(out)@ + le32(x),
{
    out.push(x as u8);
    out.push((x >> 8u32) as u8);
    out.push((x >> 16u32) as u8);
    out.push((x >> 24u32) as u8);
    assert(out@ =~= old(out)@ + le32(x));
}

/// A copy of `data[from..to]`.
pub fn slice_copy(data: &[u8], from: usize, to: usize) -> (r: Vec<u8>)
    requires
        from <= to <= data@.len(),
    ensures
        r@ == data@.subrange(from as int, to as int),
{
    let mut r: Vec<u8> = Vec::new();
    let mut i = from;
    while i < to
        invariant
            from <= i <= to <= data@.len(),
            r@ == data@.subrange(from as int, i as int),
        decreases to - i,
    {
        r.push(data[i]);
        i += 1;
        assert(r@ =~= data@.subrange(from as int, i as int));
    }
    r
}

/// True when `pat` occurs in `data` starting at `at`.
pub open spec fn occurs_at(data: Seq<u8>, pat: Seq<u8>, at: int) -> bool {
    0 <= at && at + pat.len() <= data.len() && data.subrange(at, at + pat.len()) == pat
}

/// Whether `pat` occurs at `at` in `data`.
pub fn matches_at(data: &[u8], pat: &[u8], at: usize) -> (r: bool)
    ensures
        r == occurs_at(data@, pat@, at as int),
{
    if pat.len() > data.len() || at > data.len() - pat.len() {
        return false;
    }
    let mut j: usize = 0;
    while j < pat.len()
        invariant
            at + pat.len() <= data.len(),
            at + pat@.len() <= data@.len(),
            j <= pat@.len(),
            forall|k: int| 0 <= k < j ==> data@[at + k] == pat@[k],
        decreases pat.len() - j,
    {
        if data[at + j] != pat[j] {
            assert(data@.subrange(at as int, at + pat@.len())[j as int] != pat@[j as int]);
            return false;
        }
        j += 1;
    }
    assert(data@.subrange(at as int, at + pat@.len()) =~= pat@);
    true
}

/// The index of the first occurrence of `pat` in `data`, or -1.
pub open spec fn first_occurrence(data: Seq<u8>, pat: Seq<u8>) -> int
    decreases data.len(),
{
    if data.len() < pat.len() {
        -1
    } else if data.take(pat.len() as int) == pat {
        0
    } else if data.len() == 0 {
        -1
    } else {
        let r = first_occurrence(data.skip(1), pat);
        if r < 0 {
            -1
        } else {
            r + 1
        }
    }
}

/// `first_occurrence` is -1 or a position where `pat` occurs, and `pat`
/// occurs at no earlier position.
pub proof fn lemma_first_occurrence(data: Seq<u8>, pat: Seq<u8>)
    ensures
        -1 <= first_occurrence(data, pat),
        first_occurrence(data, pat) >= 0 ==> occurs_at(data, pat, first_occurrence(data, pat)),
        forall|k: int|
            0 <= k && (first_occurrence(data, pat) < 0 || k < first_occurrence(data, pat))
                ==> !#[trigger] occurs_at(data, pat, k),
    decreases data.len(),
{
    if data.len() < pat.len() {
    } else if data.take(pat.len() as int) == pat {
        assert(data.subrange(0, pat.len() as int) =~= data.take(pat.len() as int));
    } else if data.len() == 0 {
        assert(pat.len() == 0);
        assert(data.take(0) =~= pat);
    } else {
        lemma_first_occurrence(data.skip(1), pat);
        assert(!occurs_at(data, pat, 0)) by {
            if occurs_at(data, pat, 0) {
                assert(data.subrange(0, pat.len() as int) =~= data.take(pat.len() as int));
            }
        }
        assert forall|k: int|
            0 <= k && (first_occurrence(data, pat) < 0 || k < first_occurrence(data, pat))
                implies !#[trigger] occurs_at(data, pat, k) by {
            if k > 0 && occurs_at(data, pat, k) {
                assert(data.skip(1).subrange(k - 1, k - 1 + pat.len()) =~= data.subrange(
                    k,
                    k + pat.len(),
                ));
                assert(occurs_at(data.skip(1), pat, k - 1));
            }
        }
        if first_occurrence(data, pat) >= 0 {
            let r = first_occurrence(data.skip(1), pat);
            assert(data.skip(1).subrange(r, r + pat.len()) =~= data.subrange(r + 1, r + 1 + pat.len()));
        }
    }
}

/// `pat` occurs somewhere in `data`.
pub open spec fn contains_bytes(data: Seq<u8>, pat: Seq<u8>) -> bool {
    first_occurrence(data, pat) >= 0
}

/// The position of the first occurrence of `pat` in `data`.
pub fn find_bytes(data: &[u8], pat: &[u8]) -> (r: Option<usize>)
    ensures
        match r {
            Some(i) => i as int == first_occurrence(data@, pat@),
            None => first_occurrence(data@, pat@) < 0,
        },
{
    proof {
        lemma_first_occurrence(data@, pat@);
    }
    if pat.len() > data.len() {
        return None;
    }
    let last = data.len() - pat.len();
    let mut i: usize = 0;
    loop
        invariant
            pat@.len() <= data@.len(),
            last == data@.len() - pat@.len(),
            i <= last,
            forall|k: int| 0 <= k < i ==> !#[trigger] occurs_at(data@, pat@, k),
        decreases last - i,
    {
        if matches_at(data, pat, i) {
            proof {
                lemma_first_occurrence(data@, pat@);
            }
            return Some(i);
        }
        if i == last {
            proof {
                lemma_first_occurrence(data@, pat@);
                if first_occurrence(data@, pat@) >= 0 {
                    let f = first_occurrence(data@, pat@);
                    assert(occurs_at(data@, pat@, f));
                }
            }
            return None;
        }
        i += 1;
    }
}

/// `data` ends with `pat`.
pub open spec fn ends_with_bytes(data: Seq<u8>, pat: Seq<u8>) -> bool {
    pat.len() <= data.len() && data.skip(data.len() - pat.len()) == pat
}

/// `c` with ASCII upper case letters made lower case.
pub open spec fn lower_byte(c: u8) -> u8 {
    if 65 <= c <= 90 {
        (c + 32) as u8
    } else {
        c
    }
}

/// Every byte of `s` through `lower_byte`.
pub open spec fn lower_bytes(s: Seq<u8>) -> Seq<u8> {
    s.map_values(|c: u8| lower_byte(c))
}

/// `data[from..to]` with ASCII letters lower-cased.
pub fn lowered(data: &[u8], from: usize, to: usize) -> (r: Vec<u8>)
    requires
        from <= to <= data@.len(),
    ensures
        r@ == lower_bytes(data@.subrange(from as int, to as int)),
{
    let mut r: Vec<u8> = Vec::new();
    let mut i = from;
    while i < to
        invariant
            from <= i <= to <= data@.len(),
            r@ == lower_bytes(data@.subrange(from as int, i as int)),
        decreases to - i,
    {
        let c = data[i];
        r.push(if 65 <= c && c <= 90 { c + 32 } else { c });
        i += 1;
        assert(r@ =~= lower_bytes(data@.subrange(from as int, i as int)));
    }
    r
}

} // verus!
