//! Cover art: the deterministic hash and generator that seed a track's cover,
//! where the cover file sits, and the raster cover handed to the video encoder.

use vstd::prelude::*;
use crate::path::with_extension;
use crate::path::replace_extension;
use crate::png::{encode_rgb, png_spec};
use vstd::string::StringSliceAdditionalSpecFns;

verus! {

/// FNV-1a 64-bit offset basis.
pub open spec fn fnv_offset() -> u64 {
    0xcbf2_9ce4_8422_2325u64
}

/// FNV-1a 64-bit prime.
pub open spec fn fnv_prime() -> u64 {
    0x100_0000_01b3u64
}

/// FNV-1a over `bytes`.
pub open spec fn fnv1a(bytes: Seq<u8>) -> u64
    decreases bytes.len(),
{
    if bytes.len() == 0 {
        fnv_offset()
    } else {
        (fnv1a(bytes.drop_last()) ^ (bytes.last() as u64)).wrapping_mul(fnv_prime())
    }
}

/// FNV-1a of the UTF-8 bytes of `s`. Not cryptographic: it only has to
/// scatter ids evenly and never change.
pub fn hash64(s: &str) -> (h: u64)
    ensures
        h == fnv1a(s.spec_bytes()),
{
    let bytes = s.as_bytes();
    let mut h: u64 = 0xcbf2_9ce4_8422_2325;
    let mut i: usize = 0;
    while i < bytes.len()
        invariant
            i <= bytes@.len(),
            bytes@ == s.spec_bytes(),
            h == fnv1a(bytes@.take(i as int)),
        decreases bytes.len() - i,
    {
        assert(bytes@.take(i + 1).drop_last() =~= bytes@.take(i as int));
        h ^= bytes[i] as u64;
        h = h.wrapping_mul(0x100_0000_01b3);
        i += 1;
    }
    assert(bytes@.take(bytes@.len() as int) =~= bytes@);
    h
}

/// One xorshift64 step.
pub open spec fn xorshift(x: u64) -> u64 {
    let a = x ^ (x << 13u64);
    let b = a ^ (a >> 7u64);
    b ^ (b << 17u64)
}

/// A small deterministic generator (xorshift64) that draws a cover from its
/// track's hash.
pub struct Rng(u64);

impl Rng {
    /// The generator's state.
    pub closed spec fn state(&self) -> u64 {
        self.0
    }

    /// A generator seeded from `seed`. Xorshift is fixed at zero, so the low
    /// bit is forced on.
    pub fn new(seed: u64) -> (r: Self)
        ensures
            r.state() == seed | 1u64,
    {
        Rng(seed | 1)
    }

    /// The next 64 random bits.
    pub fn next_u64(&mut self) -> (x: u64)
        ensures
            x == xorshift(old(self).state()),
            final(self).state() == x,
    {
        let mut x = self.0;
        x ^= x << 13;
        x ^= x >> 7;
        x ^= x << 17;
        self.0 = x;
        x
    }

    /// A number below `n`, from the next draw.
    pub fn pick(&mut self, n: usize) -> (r: usize)
        requires
            n > 0,
        ensures
            r as int == xorshift(old(self).state()) % (n as u64),
            r < n,
            final(self).state() == xorshift(old(self).state()),
    {
        let x = self.next_u64();
        (x % n as u64) as usize
    }
}

/// A non-zero state never becomes zero, so the generator never gets stuck.
pub proof fn lemma_xorshift_nonzero(x: u64)
    requires
        x != 0,
    ensures
        xorshift(x) != 0,
{
    assert(x != 0 ==> ((x ^ (x << 13u64)) ^ ((x ^ (x << 13u64)) >> 7u64)) ^ (((x ^ (x << 13u64))
        ^ ((x ^ (x << 13u64)) >> 7u64)) << 17u64) != 0) by (bit_vector);
}

/// Where a track's cover lives: beside its audio, same stem, `.svg`.
pub fn path_beside(audio_path: &str) -> (p: String)
    ensures
        p@ == with_extension(audio_path@, seq!['s', 'v', 'g']),
{
    let ext = "svg";
    proof {
        reveal_strlit("svg");
    }
    replace_extension(audio_path, ext)
}

// ---------------------------------------------------------------- raster cover

/// Channel `k` (0 red, 1 green, 2 blue) of a colour packed in the low 24 bits.
pub open spec fn channel(c: u64, k: nat) -> nat {
    ((c >> (16 - 8 * k) as u64) & 0xffu64) as nat
}

/// The top colour of a raster cover with hash `h`.
pub open spec fn top_colour(h: u64) -> u64 {
    h & 0x00ff_ffffu64
}

/// The bottom colour of a raster cover with hash `h`.
pub open spec fn bottom_colour(h: u64) -> u64 {
    (h >> 24u64) & 0x00ff_ffffu64
}

/// Channel `k` of row `y` of a `size`-row vertical blend from the top colour
/// to the bottom colour.
pub open spec fn blend(h: u64, size: nat, y: nat, k: nat) -> u8 {
    if size <= 1 {
        channel(top_colour(h), k) as u8
    } else {
        ((channel(top_colour(h), k) * ((size - 1 - y) as nat) + channel(bottom_colour(h), k) * y)
            / ((size - 1) as nat)) as u8
    }
}

/// One row of `n` pixels of row `y`.
pub open spec fn cover_row(h: u64, size: nat, y: nat, n: nat) -> Seq<u8>
    decreases n,
{
    if n == 0 {
        Seq::empty()
    } else {
        cover_row(h, size, y, (n - 1) as nat) + seq![blend(h, size, y, 0), blend(h, size, y, 1), blend(h, size, y, 2)]
    }
}

/// The first `rows` rows of a `size` x `size` cover for hash `h`.
pub open spec fn cover_pixels(h: u64, size: nat, rows: nat) -> Seq<u8>
    decreases rows,
{
    if rows == 0 {
        Seq::empty()
    } else {
        cover_pixels(h, size, (rows - 1) as nat) + cover_row(h, size, (rows - 1) as nat, size)
    }
}

proof fn lemma_cover_row_len(h: u64, size: nat, y: nat, n: nat)
    ensures
        cover_row(h, size, y, n).len() == 3 * n,
    decreases n,
{
    if n > 0 {
        lemma_cover_row_len(h, size, y, (n - 1) as nat);
    }
}

proof fn lemma_cover_pixels_len(h: u64, size: nat, rows: nat)
    ensures
        cover_pixels(h, size, rows).len() == rows * size * 3,
    decreases rows,
{
    if rows > 0 {
        lemma_cover_pixels_len(h, size, (rows - 1) as nat);
        lemma_cover_row_len(h, size, (rows - 1) as nat, size);
        assert(((rows - 1) as nat) * size * 3 + 3 * size == rows * size * 3) by (nonlinear_arith)
            requires
                rows > 0,
        ;
    } else {
        assert(rows * size * 3 == 0) by (nonlinear_arith)
            requires
                rows == 0,
        ;
    }
}

/// Channel `k` of the blend, computed.
fn blend_channel(h: u64, size: u32, y: u32, k: u32) -> (b: u8)
    requires
        y < size,
        k < 3,
    ensures
        b == blend(h, size as nat, y as nat, k as nat),
{
    let shift: u64 = (16 - 8 * k) as u64;
    let top: u64 = ((h & 0x00ff_ffff) >> shift) & 0xff;
    let bottom: u64 = (((h >> 24) & 0x00ff_ffff) >> shift) & 0xff;
    assert(top <= 255) by (bit_vector)
        requires
            top == ((h & 0x00ff_ffffu64) >> shift) & 0xffu64,
    ;
    assert(bottom <= 255) by (bit_vector)
        requires
            bottom == (((h >> 24u64) & 0x00ff_ffffu64) >> shift) & 0xffu64,
    ;
    if size <= 1 {
        top as u8
    } else {
        let span: u64 = (size - 1) as u64;
        let up: u64 = (size - 1 - y) as u64;
        let down: u64 = y as u64;
        assert(top * up <= 255 * span) by (nonlinear_arith)
            requires
                top <= 255,
                up <= span,
        ;
        assert(bottom * down <= 255 * span) by (nonlinear_arith)
            requires
                bottom <= 255,
                down <= span,
        ;
        let v = (top * up + bottom * down) / span;
        v as u8
    }
}

/// The raw pixels of a `size` x `size` cover for hash `h`.
fn cover_rgb(h: u64, size: u32) -> (rgb: Vec<u8>)
    requires
        size as int * size as int * 3 <= usize::MAX,
    ensures
        rgb@ == cover_pixels(h, size as nat, size as nat),
        rgb@.len() == size * size * 3,
{
    let mut rgb: Vec<u8> = Vec::new();
    let mut y: u32 = 0;
    while y < size
        invariant
            y <= size,
            rgb@ == cover_pixels(h, size as nat, y as nat),
        decreases size - y,
    {
        let mut x: u32 = 0;
        let ghost before = rgb@;
        while x < size
            invariant
                y < size,
                x <= size,
                rgb@ == before + cover_row(h, size as nat, y as nat, x as nat),
            decreases size - x,
        {
            rgb.push(blend_channel(h, size, y, 0));
            rgb.push(blend_channel(h, size, y, 1));
            rgb.push(blend_channel(h, size, y, 2));
            x += 1;
            assert(rgb@ =~= before + cover_row(h, size as nat, y as nat, x as nat));
        }
        y += 1;
    }
    proof {
        lemma_cover_pixels_len(h, size as nat, size as nat);
    }
    rgb
}

/// The cover for `id` as a `size` x `size` PNG: a vertical blend between two
/// colours drawn from the id's hash, so it is stable for the track forever.
pub fn png_for(id: &str, size: u32) -> (png: Vec<u8>)
    requires
        size > 0,
        size as int * size as int * 3 <= usize::MAX,
    ensures
        png@ == png_spec(size, size, cover_pixels(fnv1a(id.spec_bytes()), size as nat, size as nat)),
{
    let h = hash64(id);
    let rgb = cover_rgb(h, size);
    assert(size as int * 3 <= size as int * size as int * 3) by (nonlinear_arith)
        requires
            size >= 1,
    ;
    encode_rgb(size, size, rgb.as_slice())
}

/// The figure drawn over a cover's glow.
#[derive(Debug, Clone, Copy, PartialEq, Eq, Structural)]
pub enum Motif {
    /// Vertical bars, like a level meter.
    Bars,
    /// Concentric rings.
    Rings,
}

/// The figure for a cover whose id hashes to `h`: bars for an even hash,
/// rings for an odd one, so half the library gets each.
pub fn motif(h: u64) -> (m: Motif)
    ensures
        (m == Motif::Bars) == (h % 2 == 0),
        (m == Motif::Rings) == (h % 2 == 1),
{
    if h % 2 == 0 {
        Motif::Bars
    } else {
        Motif::Rings
    }
}

} // verus!
