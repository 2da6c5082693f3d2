use bite::header::{parse, probe};

#[test]
fn truncated_headers_never_panic() {
    for n in 0..64 {
        let bytes = vec![0xff; n];
        assert_eq!(parse(&bytes, "png"), None);
        assert_eq!(parse(&bytes, "tga"), None);
    }
}

#[test]
fn png_and_webp() {
    let mut p = vec![0; 24];
    p[..8].copy_from_slice(b"\x89PNG\r\n\x1a\n");
    p[16..20].copy_from_slice(&128u32.to_be_bytes());
    p[20..24].copy_from_slice(&75u32.to_be_bytes());
    assert_eq!(parse(&p, "png"), Some((128, 75)));
    let mut w = vec![0; 25];
    w[..4].copy_from_slice(b"RIFF");
    w[8..16].copy_from_slice(b"WEBPVP8L");
    w[20] = 0x2f;
    w[21..25].copy_from_slice(&(63u32 | (31 << 14)).to_le_bytes());
    assert_eq!(parse(&w, "webp"), Some((64, 32)));
}

#[test]
fn jpeg_bmp_and_tga_dimensions() {
    let jpeg = [
        0xff, 0xd8, 0xff, 0xc0, 0, 17, 8, 0, 75, 0, 128, 3, 1, 0x11, 0, 2, 0x11, 0, 3, 0x11, 0,
    ];
    assert_eq!(parse(&jpeg, "jpg"), Some((128, 75)));

    let mut bmp = vec![0; 26];
    bmp[..2].copy_from_slice(b"BM");
    bmp[18..22].copy_from_slice(&128i32.to_le_bytes());
    bmp[22..26].copy_from_slice(&(-75i32).to_le_bytes());
    assert_eq!(parse(&bmp, "bmp"), Some((128, 75)));

    let mut tga = vec![0; 18];
    tga[2] = 2;
    tga[12..14].copy_from_slice(&128u16.to_le_bytes());
    tga[14..16].copy_from_slice(&75u16.to_le_bytes());
    assert_eq!(parse(&tga, "tga"), Some((128, 75)));
}

#[test]
fn the_other_webp_chunks_and_a_zero_size() {
    let mut lossy = vec![0; 30];
    lossy[..4].copy_from_slice(b"RIFF");
    lossy[8..16].copy_from_slice(b"WEBPVP8 ");
    lossy[23..26].copy_from_slice(&[0x9d, 0x01, 0x2a]);
    lossy[26..28].copy_from_slice(&(0xc000u16 | 320).to_le_bytes());
    lossy[28..30].copy_from_slice(&200u16.to_le_bytes());
    assert_eq!(parse(&lossy, "webp"), Some((320, 200)));

    let mut extended = vec![0; 30];
    extended[..4].copy_from_slice(b"RIFF");
    extended[8..16].copy_from_slice(b"WEBPVP8X");
    extended[24..27].copy_from_slice(&[0xff, 0x01, 0x00]);
    extended[27..30].copy_from_slice(&[0x00, 0x00, 0x00]);
    assert_eq!(parse(&extended, "webp"), Some((512, 1)));

    let mut empty = vec![0; 24];
    empty[..8].copy_from_slice(b"\x89PNG\r\n\x1a\n");
    assert_eq!(parse(&empty, "png"), None);
}

#[test]
fn a_targa_is_known_by_its_extension_in_any_case() {
    let mut tga = vec![0; 18];
    tga[2] = 10;
    tga[12..14].copy_from_slice(&64u16.to_le_bytes());
    tga[14..16].copy_from_slice(&32u16.to_le_bytes());
    assert_eq!(parse(&tga, "TGA"), Some((64, 32)));
    assert_eq!(parse(&tga, "dat"), None);
    tga[2] = 4;
    assert_eq!(parse(&tga, "tga"), None);
}

#[test]
fn the_signature_names_the_format() {
    let jpeg = [
        0xff, 0xd8, 0xff, 0xc0, 0, 17, 8, 0, 75, 0, 128, 3, 1, 0x11, 0, 2, 0x11, 0, 3, 0x11, 0,
    ];
    assert_eq!(probe(&jpeg, "jpg"), Some((128, 75, "JPEG")));
    let mut p = vec![0; 24];
    p[..8].copy_from_slice(b"\x89PNG\r\n\x1a\n");
    p[16..20].copy_from_slice(&4u32.to_be_bytes());
    p[20..24].copy_from_slice(&2u32.to_be_bytes());
    assert_eq!(probe(&p, "dat"), Some((4, 2, "PNG")));
    let mut tga = vec![0; 18];
    tga[2] = 2;
    tga[12..14].copy_from_slice(&3u16.to_le_bytes());
    tga[14..16].copy_from_slice(&5u16.to_le_bytes());
    assert_eq!(probe(&tga, "TGA"), Some((3, 5, "TGA")));
    assert_eq!(probe(&[1, 2, 3], "png"), None);
}
