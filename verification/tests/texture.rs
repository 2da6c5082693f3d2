use bite::texture::{texture_id, IMGUI_TEXTURE_ID_BIT};

#[test]
fn texture_identifiers_are_stable_and_stay_out_of_imguis_half() {
    let first = texture_id("thumbnail:a:0");
    assert_eq!(first, texture_id("thumbnail:a:0"));
    assert_ne!(first, texture_id("thumbnail:a:1"));
    assert!(first >= 2);
    for key in ["thumbnail:a:0", "preview:node:3", "", "a very long key indeed"] {
        assert_eq!(texture_id(key) & IMGUI_TEXTURE_ID_BIT, 0);
    }
}

#[test]
fn the_empty_key_hashes_to_the_offset_basis_with_the_bits_adjusted() {
    let basis: u64 = 0xcbf2_9ce4_8422_2325;
    assert_eq!(texture_id(""), (basis & !IMGUI_TEXTURE_ID_BIT) | 2);
    let one = (basis ^ u64::from(b'a')).wrapping_mul(0x0000_0100_0000_01b3);
    assert_eq!(texture_id("a"), (one & !IMGUI_TEXTURE_ID_BIT) | 2);
}
