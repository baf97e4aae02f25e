//! A minimal PNG writer: 8-bit RGB, stored (uncompressed) zlib blocks, CRC-32
//! and Adler-32 computed here.

use vstd::prelude::*;
use crate::bytes::{be32, le16, extend, push_be32, push_le16, slice_copy};

verus! {

// ---------------------------------------------------------------- CRC-32

/// One bit of the reflected CRC-32 (polynomial 0xEDB88320).
pub open spec fn crc_shift(c: u32) -> u32 {
    if c & 1u32 != 0u32 {
        0xedb8_8320u32 ^ (c >> 1u32)
    } else {
        c >> 1u32
    }
}

/// `k` bit steps applied to `c`.
pub open spec fn crc_shifts(c: u32, k: nat) -> u32
    decreases k,
{
    if k == 0 {
        c
    } else {
        crc_shift(crc_shifts(c, (k - 1) as nat))
    }
}

/// The running CRC register after one more byte.
pub open spec fn crc_byte(state: u32, b: u8) -> u32 {
    crc_shifts((state ^ (b as u32)) & 0xffu32, 8) ^ (state >> 8u32)
}

/// The running CRC register after feeding `s`, starting from `state`.
pub open spec fn crc_update(state: u32, s: Seq<u8>) -> u32
    decreases s.len(),
{
    if s.len() == 0 {
        state
    } else {
        crc_byte(crc_update(state, s.drop_last()), s.last())
    }
}

/// The CRC-32 of `s` (initial register all ones, final complement).
pub open spec fn crc32(s: Seq<u8>) -> u32 {
    crc_update(0xffff_ffffu32, s) ^ 0xffff_ffffu32
}

/// Feeding the register in two pieces is the same as feeding it once.
pub proof fn lemma_crc_update_concat(state: u32, a: Seq<u8>, b: Seq<u8>)
    ensures
        crc_update(state, a + b) == crc_update(crc_update(state, a), b),
    decreases b.len(),
{
    if b.len() == 0 {
        assert(a + b =~= a);
    } else {
        lemma_crc_update_concat(state, a, b.drop_last());
        assert((a + b).drop_last() =~= a + b.drop_last());
        assert((a + b).last() == b.last());
    }
}

/// A CRC-32 computation in progress.
pub struct Crc(u32);

impl Crc {
    /// The running register.
    pub closed spec fn register(&self) -> u32 {
        self.0
    }

    /// A fresh computation.
    pub fn new() -> (c: Self)
        ensures
            c.register() == 0xffff_ffffu32,
    {
        Crc(0xffff_ffff)
    }

    /// Feed `bytes` into the computation.
    pub fn push(&mut self, bytes: &[u8])
        ensures
            final(self).register() == crc_update(old(self).register(), bytes@),
    {
        let ghost start = self.0;
        let mut i: usize = 0;
        while i < bytes.len()
            invariant
                i <= bytes@.len(),
                self.0 == crc_update(start, bytes@.take(i as int)),
            decreases bytes.len() - i,
        {
            let b = bytes[i];
            let mut c: u32 = (self.0 ^ b as u32) & 0xff;
            let ghost c0 = c;
            let mut k: u32 = 0;
            while k < 8
                invariant
                    k <= 8,
                    c == crc_shifts(c0, k as nat),
                decreases 8 - k,
            {
                c = if c & 1 != 0 {
                    0xedb8_8320 ^ (c >> 1)
                } else {
                    c >> 1
                };
                k += 1;
            }
            self.0 = c ^ (self.0 >> 8);
            assert(bytes@.take(i + 1).drop_last() =~= bytes@.take(i as int));
            i += 1;
        }
        assert(bytes@.take(bytes@.len() as int) =~= bytes@);
    }

    /// The checksum of everything fed so far.
    pub fn finish(self) -> (r: u32)
        ensures
            r == self.register() ^ 0xffff_ffffu32,
    {
        self.0 ^ 0xffff_ffff
    }
}

// ---------------------------------------------------------------- Adler-32

/// The Adler-32 modulus.
pub open spec fn adler_base() -> nat {
    65521
}

/// The two Adler-32 running sums after `s`.
pub open spec fn adler_sums(s: Seq<u8>) -> (nat, nat)
    decreases s.len(),
{
    if s.len() == 0 {
        (1, 0)
    } else {
        let (a, b) = adler_sums(s.drop_last());
        let a2 = ((a + s.last()) % 65521) as nat;
        (a2, ((b + a2) % 65521) as nat)
    }
}

/// The Adler-32 checksum of `s`: the second sum in the high half.
pub open spec fn adler32_spec(s: Seq<u8>) -> u32 {
    (adler_sums(s).1 * 65536 + adler_sums(s).0) as u32
}

proof fn lemma_adler_sums_bounded(s: Seq<u8>)
    ensures
        adler_sums(s).0 < 65521,
        adler_sums(s).1 < 65521,
    decreases s.len(),
{
    if s.len() > 0 {
        lemma_adler_sums_bounded(s.drop_last());
    }
}

/// Adler-32 of `data`.
pub fn adler32(data: &[u8]) -> (r: u32)
    ensures
        r == adler32_spec(data@),
{
    let mut a: u32 = 1;
    let mut b: u32 = 0;
    let mut i: usize = 0;
    while i < data.len()
        invariant
            i <= data@.len(),
            a as nat == adler_sums(data@.take(i as int)).0,
            b as nat == adler_sums(data@.take(i as int)).1,
            a < 65521,
            b < 65521,
        decreases data.len() - i,
    {
        assert(data@.take(i + 1).drop_last() =~= data@.take(i as int));
        a = (a + data[i] as u32) % 65_521;
        b = (b + a) % 65_521;
        i += 1;
    }
    assert(data@.take(data@.len() as int) =~= data@);
    assert((b << 16u32) | a == b * 65536 + a) by (bit_vector)
        requires
            a < 65521u32,
            b < 65521u32,
    ;
    (b << 16) | a
}

// ---------------------------------------------------------------- zlib

/// Largest payload of one stored deflate block.
pub open spec fn max_block() -> nat {
    65535
}

/// The header of a stored deflate block holding `len` bytes.
pub open spec fn block_header(last: bool, len: u16) -> Seq<u8> {
    seq![if last { 1u8 } else { 0u8 }] + le16(len) + le16(!len)
}

/// `data` as a run of stored deflate blocks of at most 65535 bytes, only the
/// last of them marked final. Empty data is a single empty final block.
pub open spec fn stored_blocks(data: Seq<u8>) -> Seq<u8>
    decreases data.len(),
{
    if data.len() <= max_block() {
        block_header(true, data.len() as u16) + data
    } else {
        block_header(false, 65535u16) + data.take(65535) + stored_blocks(data.skip(65535))
    }
}

/// A zlib stream (no preset dictionary) made of stored blocks, then Adler-32.
pub open spec fn zlib_stored_spec(data: Seq<u8>) -> Seq<u8> {
    seq![0x78u8, 0x01u8] + stored_blocks(data) + be32(adler32_spec(data))
}

/// A zlib stream made entirely of uncompressed deflate blocks.
pub fn zlib_stored(data: &[u8]) -> (out: Vec<u8>)
    ensures
        out@ == zlib_stored_spec(data@),
{
    let mut out: Vec<u8> = vec![0x78, 0x01];
    let ghost pre = out@;
    let len = data.len();
    if len == 0 {
        out.push(1);
        push_le16(&mut out, 0);
        push_le16(&mut out, !0u16);
        assert(data@ =~= Seq::<u8>::empty());
        assert(out@ =~= pre + stored_blocks(data@));
    }
    let mut i: usize = 0;
    assert(data@.skip(0) =~= data@);
    while i < len
        invariant
            len == data@.len(),
            i <= len,
            pre == seq![0x78u8, 0x01u8],
            i < len ==> out@ + stored_blocks(data@.skip(i as int)) == pre + stored_blocks(data@),
            i >= len ==> out@ == pre + stored_blocks(data@),
        decreases len - i,
    {
        let ghost rest = data@.skip(i as int);
        let ghost before = out@;
        if len - i > 65_535 {
            let end = i + 65_535;
            out.push(0);
            push_le16(&mut out, 65_535);
            push_le16(&mut out, !65_535u16);
            let block = slice_copy(data, i, end);
            extend(&mut out, block.as_slice());
            assert(block@ =~= rest.take(65535));
            assert(rest.skip(65535) =~= data@.skip(end as int));
            assert(out@ =~= before + block_header(false, 65535u16) + rest.take(65535));
            assert(stored_blocks(rest) == block_header(false, 65535u16) + rest.take(65535)
                + stored_blocks(rest.skip(65535)));
            assert(out@ + stored_blocks(data@.skip(end as int)) =~= before + stored_blocks(rest));
            i = end;
        } else {
            let n = (len - i) as u16;
            out.push(1);
            push_le16(&mut out, n);
            push_le16(&mut out, !n);
            let block = slice_copy(data, i, len);
            extend(&mut out, block.as_slice());
            assert(block@ =~= rest);
            assert(out@ =~= before + stored_blocks(rest));
            i = len;
        }
    }
    push_be32(&mut out, adler32(data));
    out
}

// ---------------------------------------------------------------- decoding

/// Value of two little-endian bytes.
pub open spec fn le16_value(lo: u8, hi: u8) -> int {
    lo + 256 * hi
}

/// Reads stored deflate blocks from the front of `z`: the payload and the
/// number of bytes consumed, up to and including the final block. Any block
/// that is not stored, whose length check fails, or that runs past the end
/// makes the whole stream unreadable.
pub open spec fn inflate_stored(z: Seq<u8>) -> Option<(Seq<u8>, int)>
    decreases z.len(),
{
    if z.len() < 5 {
        None
    } else {
        let hdr = z[0];
        let len = le16_value(z[1], z[2]);
        let nlen = le16_value(z[3], z[4]);
        if (hdr / 2) % 4 != 0 || len + nlen != 65535 || z.len() < 5 + len {
            None
        } else if hdr % 2 == 1 {
            Some((z.subrange(5, 5 + len), 5 + len))
        } else {
            match inflate_stored(z.skip(5 + len)) {
                Some((rest, n)) => Some((z.subrange(5, 5 + len) + rest, 5 + len + n)),
                None => None,
            }
        }
    }
}

/// What a zlib reader limited to stored blocks makes of `z`: the data, when
/// the header, every block and the trailing Adler-32 all check out.
pub open spec fn unzlib_stored(z: Seq<u8>) -> Option<Seq<u8>> {
    if z.len() < 2 || z[0] != 0x78u8 || z[1] != 0x01u8 {
        None
    } else {
        match inflate_stored(z.skip(2)) {
            Some((data, n)) => if 2 + n + 4 <= z.len() && z.subrange(2 + n, 2 + n + 4) == be32(
                adler32_spec(data),
            ) {
                Some(data)
            } else {
                None
            },
            None => None,
        }
    }
}

proof fn lemma_le16_value(x: u16)
    ensures
        le16_value(le16(x)[0], le16(x)[1]) == x,
        le16_value(le16(!x)[0], le16(!x)[1]) == 65535 - x,
{
    assert((x as u8) as int + 256 * ((x >> 8u16) as u8) as int == x as int) by (bit_vector);
    assert(((!x) as u8) as int + 256 * (((!x) >> 8u16) as u8) as int == 65535 - x as int)
        by (bit_vector);
}

proof fn lemma_inflate_final_block(data: Seq<u8>, tail: Seq<u8>)
    requires
        data.len() <= max_block(),
    ensures
        inflate_stored(stored_blocks(data) + tail) == Some((data, stored_blocks(data).len() as int)),
{
    let n = data.len() as u16;
    let z = stored_blocks(data) + tail;
    lemma_le16_value(n);
    let h = block_header(true, n);
    assert(stored_blocks(data) == h + data);
    assert(z[0] == h[0]);
    assert(z[1] == h[1] && z[2] == h[2] && z[3] == h[3] && z[4] == h[4]);
    assert(h[1] == le16(n)[0] && h[2] == le16(n)[1]);
    assert(h[3] == le16(!n)[0] && h[4] == le16(!n)[1]);
    assert(le16_value(z[1], z[2]) == data.len());
    assert(z.subrange(5, 5 + data.len() as int) =~= data);
}

proof fn lemma_inflate_stored_blocks(data: Seq<u8>, tail: Seq<u8>)
    ensures
        inflate_stored(stored_blocks(data) + tail) == Some((data, stored_blocks(data).len() as int)),
    decreases data.len(),
{
    if data.len() <= max_block() {
        lemma_inflate_final_block(data, tail);
    } else {
        let z = stored_blocks(data) + tail;
        let rest = data.skip(65535);
        let h = block_header(false, 65535u16);
        lemma_le16_value(65535u16);
        lemma_inflate_stored_blocks(rest, tail);
        assert(stored_blocks(data) == h + data.take(65535) + stored_blocks(rest));
        assert(z[0] == h[0]);
        assert(z[1] == h[1] && z[2] == h[2] && z[3] == h[3] && z[4] == h[4]);
        assert(h[1] == le16(65535u16)[0] && h[2] == le16(65535u16)[1]);
        assert(h[3] == le16(!65535u16)[0] && h[4] == le16(!65535u16)[1]);
        assert(le16_value(z[1], z[2]) == 65535);
        assert(z.skip(5 + 65535int) =~= stored_blocks(rest) + tail);
        assert(z.subrange(5int, 5 + 65535int) =~= data.take(65535));
        assert(data.take(65535) + rest =~= data);
    }
}

/// A stored-block zlib stream reads back as exactly the data it was made from.
pub proof fn lemma_zlib_stored_round_trip(data: Seq<u8>)
    ensures
        unzlib_stored(zlib_stored_spec(data)) == Some(data),
{
    let z = zlib_stored_spec(data);
    let blocks = stored_blocks(data);
    let trailer = be32(adler32_spec(data));
    lemma_inflate_stored_blocks(data, trailer);
    assert(z.skip(2) =~= blocks + trailer);
    assert(z.subrange(2 + blocks.len() as int, 2 + blocks.len() as int + 4) =~= trailer);
}

// ---------------------------------------------------------------- PNG

/// The eight-byte PNG signature.
pub open spec fn png_signature() -> Seq<u8> {
    seq![0x89u8, 0x50u8, 0x4eu8, 0x47u8, 0x0du8, 0x0au8, 0x1au8, 0x0au8]
}

/// A PNG chunk: body length, type, body, and the CRC-32 of type and body.
pub open spec fn chunk_spec(kind: Seq<u8>, body: Seq<u8>) -> Seq<u8> {
    be32(body.len() as u32) + kind + body + be32(crc32(kind + body))
}

/// The IHDR body for an 8-bit truecolour, non-interlaced image.
pub open spec fn ihdr_body(width: u32, height: u32) -> Seq<u8> {
    be32(width) + be32(height) + seq![8u8, 2u8, 0u8, 0u8, 0u8]
}

/// The image data as scanlines: each row of `stride` bytes behind a filter
/// byte 0. Bytes past the last whole row are not part of any scanline.
pub open spec fn scanlines(rgb: Seq<u8>, stride: nat) -> Seq<u8>
    decreases rgb.len(),
{
    if stride == 0 || rgb.len() < stride {
        Seq::empty()
    } else {
        seq![0u8] + rgb.take(stride as int) + scanlines(rgb.skip(stride as int), stride)
    }
}

pub open spec fn ihdr_type() -> Seq<u8> {
    seq![73u8, 72u8, 68u8, 82u8]
}

pub open spec fn idat_type() -> Seq<u8> {
    seq![73u8, 68u8, 65u8, 84u8]
}

pub open spec fn iend_type() -> Seq<u8> {
    seq![73u8, 69u8, 78u8, 68u8]
}

/// The PNG file for a `width` x `height` image with pixels `rgb`.
pub open spec fn png_spec(width: u32, height: u32, rgb: Seq<u8>) -> Seq<u8> {
    png_signature() + chunk_spec(ihdr_type(), ihdr_body(width, height)) + chunk_spec(
        idat_type(),
        zlib_stored_spec(scanlines(rgb, (width * 3) as nat)),
    ) + chunk_spec(iend_type(), Seq::empty())
}

/// Append one PNG chunk of type `kind` to `out`.
pub fn chunk(out: &mut Vec<u8>, kind: &[u8; 4], body: &[u8])
    ensures
        final(out)@ == old(out)@ + chunk_spec(kind@, body@),
{
    push_be32(out, body.len() as u32);
    extend(out, kind.as_slice());
    extend(out, body);
    let mut crc = Crc::new();
    crc.push(kind.as_slice());
    crc.push(body);
    proof {
        lemma_crc_update_concat(0xffff_ffffu32, kind@, body@);
    }
    push_be32(out, crc.finish());
    assert(final(out)@ =~= old(out)@ + chunk_spec(kind@, body@));
}

/// Every encoded PNG opens with the signature and then the IHDR chunk, whose
/// body carries the width and height big-endian at bytes 16 and 20, followed
/// by bit depth 8 and colour type 2 (truecolour).
pub proof fn lemma_png_header(width: u32, height: u32, rgb: Seq<u8>)
    ensures
        png_spec(width, height, rgb).len() >= 33,
        png_spec(width, height, rgb).subrange(0, 8) == png_signature(),
        png_spec(width, height, rgb).subrange(8, 12) == be32(13),
        png_spec(width, height, rgb).subrange(12, 16) == ihdr_type(),
        png_spec(width, height, rgb).subrange(16, 20) == be32(width),
        png_spec(width, height, rgb).subrange(20, 24) == be32(height),
        png_spec(width, height, rgb)[24] == 8,
        png_spec(width, height, rgb)[25] == 2,
{
    let p = png_spec(width, height, rgb);
    let body = ihdr_body(width, height);
    assert(body.len() == 13);
    let head = png_signature() + chunk_spec(ihdr_type(), body);
    assert(head.len() == 33);
    assert(p.subrange(0, 33) =~= head) by {
        assert(p =~= head + (chunk_spec(idat_type(), zlib_stored_spec(scanlines(rgb, (width * 3) as nat)))
            + chunk_spec(iend_type(), Seq::empty())));
    }
    assert(p.subrange(0, 8) =~= head.subrange(0, 8));
    assert(p.subrange(8, 12) =~= head.subrange(8, 12));
    assert(p.subrange(12, 16) =~= head.subrange(12, 16));
    assert(p.subrange(16, 20) =~= head.subrange(16, 20));
    assert(p.subrange(20, 24) =~= head.subrange(20, 24));
    assert(p[24] == head[24]);
    assert(p[25] == head[25]);
    assert(head.subrange(0, 8) =~= png_signature());
    assert(head.subrange(8, 12) =~= be32(13));
    assert(head.subrange(12, 16) =~= ihdr_type());
    assert(head.subrange(16, 20) =~= be32(width));
    assert(head.subrange(20, 24) =~= be32(height));
}

/// Encode 8-bit RGB into a PNG. `rgb` holds `width * height * 3` bytes, row
/// by row.
pub fn encode_rgb(width: u32, height: u32, rgb: &[u8]) -> (png: Vec<u8>)
    requires
        rgb@.len() == width * height * 3,
        width > 0,
        width * 3 <= usize::MAX,
    ensures
        png@ == png_spec(width, height, rgb@),
{
    let mut out: Vec<u8> = vec![0x89, 0x50, 0x4e, 0x47, 0x0d, 0x0a, 0x1a, 0x0a];
    assert(out@ =~= png_signature());

    let mut ihdr: Vec<u8> = Vec::new();
    push_be32(&mut ihdr, width);
    push_be32(&mut ihdr, height);
    ihdr.push(8);
    ihdr.push(2);
    ihdr.push(0);
    ihdr.push(0);
    ihdr.push(0);
    assert(ihdr@ =~= ihdr_body(width, height));
    let ihdr_kind: [u8; 4] = [73, 72, 68, 82];
    assert(ihdr_kind@ =~= ihdr_type());
    chunk(&mut out, &ihdr_kind, ihdr.as_slice());

    let raw = scanline_bytes(width, height, rgb);
    let z = zlib_stored(raw.as_slice());
    let idat_kind: [u8; 4] = [73, 68, 65, 84];
    assert(idat_kind@ =~= idat_type());
    chunk(&mut out, &idat_kind, z.as_slice());

    let empty: Vec<u8> = Vec::new();
    let iend_kind: [u8; 4] = [73, 69, 78, 68];
    assert(iend_kind@ =~= iend_type());
    chunk(&mut out, &iend_kind, empty.as_slice());
    assert(empty@ =~= Seq::<u8>::empty());
    out
}

/// The filtered scanlines of an image: a 0 in front of every row.
fn scanline_bytes(width: u32, height: u32, rgb: &[u8]) -> (raw: Vec<u8>)
    requires
        rgb@.len() == width * height * 3,
        width > 0,
        width * 3 <= usize::MAX,
    ensures
        raw@ == scanlines(rgb@, (width * 3) as nat),
{
    let stride: usize = (width as usize) * 3;
    let ghost s = stride as nat;
    let mut raw: Vec<u8> = Vec::new();
    let mut off: usize = 0;
    assert(rgb@.skip(0) =~= rgb@);
    assert(raw@ + scanlines(rgb@, s) =~= scanlines(rgb@, s));
    while off <= rgb.len() && rgb.len() - off >= stride
        invariant
            stride > 0,
            s == stride,
            off <= rgb@.len(),
            raw@ + scanlines(rgb@.skip(off as int), s) == scanlines(rgb@, s),
        decreases rgb.len() - off,
    {
        let ghost rest = rgb@.skip(off as int);
        let ghost before = raw@;
        raw.push(0);
        let row = slice_copy(rgb, off, off + stride);
        extend(&mut raw, row.as_slice());
        assert(row@ =~= rest.take(stride as int));
        assert(rest.skip(stride as int) =~= rgb@.skip(off + stride));
        assert(raw@ =~= before + (seq![0u8] + rest.take(stride as int)));
        off = off + stride;
    }
    assert(scanlines(rgb@.skip(off as int), s) == Seq::<u8>::empty());
    assert(raw@ + Seq::<u8>::empty() =~= raw@);
    assert(rgb@.skip(0) =~= rgb@);
    raw
}

} // verus!
