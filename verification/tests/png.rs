use aria::png::{adler32, encode_rgb, zlib_stored, Crc};

#[test]
fn writes_a_png_a_decoder_would_accept() {
    let rgb = vec![7u8; 4 * 3 * 3];
    let png = encode_rgb(4, 3, &rgb);

    assert_eq!(&png[0..8], &[0x89, b'P', b'N', b'G', 0x0d, 0x0a, 0x1a, 0x0a]);
    // IHDR length, then the type, then the dimensions we asked for.
    assert_eq!(&png[8..12], &13u32.to_be_bytes());
    assert_eq!(&png[12..16], b"IHDR");
    assert_eq!(&png[16..20], &4u32.to_be_bytes());
    assert_eq!(&png[20..24], &3u32.to_be_bytes());
    assert_eq!(png[24], 8, "bit depth");
    assert_eq!(png[25], 2, "truecolour");
    assert!(png.ends_with(&[b'I', b'E', b'N', b'D', 0xae, 0x42, 0x60, 0x82]));
}

#[test]
fn checksums_match_the_reference_values() {
    // The CRC of the empty IEND chunk is a fixed, well-known constant, so a
    // wrong table or a wrong bit order shows up immediately.
    let mut crc = Crc::new();
    crc.push(b"IEND");
    crc.push(&[]);
    assert_eq!(crc.finish(), 0xae42_6082);

    // Adler-32 of "abc", from the zlib spec's own worked example.
    assert_eq!(adler32(b"abc"), 0x024d_0127);
    assert_eq!(adler32(b""), 1);
}

#[test]
fn payloads_larger_than_one_stored_block_still_terminate() {
    // Two full blocks plus a remainder: only the last may set the final bit.
    let data = vec![0u8; 65_535 * 2 + 10];
    let z = zlib_stored(&data);
    assert_eq!(&z[0..2], &[0x78, 0x01]);

    let mut pos = 2;
    let mut blocks = 0;
    let mut finals = 0;
    loop {
        let last = z[pos] & 1;
        let len = u16::from_le_bytes([z[pos + 1], z[pos + 2]]) as usize;
        let nlen = u16::from_le_bytes([z[pos + 3], z[pos + 4]]);
        assert_eq!(nlen, !(len as u16), "stored block length check");
        blocks += 1;
        finals += last as usize;
        pos += 5 + len;
        if last == 1 {
            break;
        }
    }
    assert_eq!(blocks, 3);
    assert_eq!(finals, 1);
    // Four bytes of Adler-32 close the stream.
    assert_eq!(pos + 4, z.len());
}

#[test]
fn the_check_value_of_the_digits_is_the_standard_one() {
    let mut crc = Crc::new();
    crc.push(b"1234");
    crc.push(b"56789");
    assert_eq!(crc.finish(), 0xcbf4_3926);
    assert_eq!(adler32(b"Wikipedia"), 0x11e6_0398);
}

#[test]
fn an_empty_payload_is_one_final_empty_block() {
    let z = zlib_stored(&[]);
    assert_eq!(z, vec![0x78, 0x01, 0x01, 0x00, 0x00, 0xff, 0xff, 0x00, 0x00, 0x00, 0x01]);
}
