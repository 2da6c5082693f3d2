use bite::font::{default_faces, face_id, font_table, slot, Face, Family, Weight, REGISTERED};

#[test]
fn css_weights_map_onto_the_three_shipped_faces() {
    assert_eq!(Weight::from_css(100), Weight::Regular);
    assert_eq!(Weight::from_css(549), Weight::Regular);
    assert_eq!(Weight::from_css(550), Weight::SemiBold);
    assert_eq!(Weight::from_css(649), Weight::SemiBold);
    assert_eq!(Weight::from_css(650), Weight::Bold);
    assert_eq!(Weight::from_css(900), Weight::Bold);
}

#[test]
fn the_face_builders_name_family_weight_and_size() {
    assert_eq!(Face::ui(13), Face { family: Family::Ui, weight: Weight::Regular, size: 13 });
    assert_eq!(Face::mono(11), Face { family: Family::Mono, weight: Weight::Regular, size: 11 });
    assert_eq!(Face::ui_weight(20, Weight::Bold).weight, Weight::Bold);
    assert_eq!(Face::mono_weight(12, Weight::SemiBold).family, Family::Mono);
}

#[test]
fn the_default_faces_are_sorted_without_repeats() {
    let faces = default_faces();
    assert_eq!(faces.len(), 30);
    for pair in faces.windows(2) {
        assert!(pair[0] < pair[1]);
    }
    assert_eq!(faces[0], Face::ui(10));
    assert_eq!(*faces.last().unwrap(), Face::mono_weight(13, Weight::Bold));
    assert!(faces.contains(&Face::mono_weight(28, Weight::SemiBold)));
    assert!(!faces.contains(&Face::mono(28)));
}

#[test]
fn a_face_missing_from_the_list_falls_back_to_the_nearest_size() {
    let faces = vec![
        Face::ui(10),
        Face::ui(14),
        Face::ui(18),
        Face::ui_weight(12, Weight::Bold),
        Face::mono(11),
    ];
    assert_eq!(face_id(&faces, Face::ui(14)).0, 1);
    assert_eq!(face_id(&faces, Face::ui(12)).0, 0);
    assert_eq!(face_id(&faces, Face::ui(17)).0, 2);
    assert_eq!(face_id(&faces, Face::ui_weight(30, Weight::Bold)).0, 3);
    assert_eq!(face_id(&faces, Face::ui_weight(15, Weight::SemiBold)).0, 1);
    assert_eq!(face_id(&faces, Face::mono_weight(40, Weight::Bold)).0, 4);
    assert_eq!(face_id(&[Face::ui(10)], Face::mono(10)).0, 0);
    assert_eq!(face_id(&[], Face::mono(10)).0, 0);
}

#[test]
fn a_font_table_is_found_by_its_tag_in_the_directory() {
    let mut font = vec![0u8; 12 + 2 * 16];
    font[4..6].copy_from_slice(&2u16.to_be_bytes());
    font[12..16].copy_from_slice(b"hhea");
    font[20..24].copy_from_slice(&300u32.to_be_bytes());
    font[28..32].copy_from_slice(b"head");
    font[36..40].copy_from_slice(&0x0102_0304u32.to_be_bytes());
    assert_eq!(font_table(&font, b"hhea"), Some(300));
    assert_eq!(font_table(&font, b"head"), Some(0x0102_0304));
    assert_eq!(font_table(&font, b"name"), None);
    assert_eq!(font_table(&font[..38], b"head"), None);
    assert_eq!(font_table(&font[..5], b"hhea"), None);
}

#[test]
fn each_family_and_weight_has_a_registered_slot() {
    assert_eq!(slot(Family::Ui, Weight::Regular), 0);
    assert_eq!(slot(Family::Ui, Weight::Bold), 2);
    assert_eq!(slot(Family::Mono, Weight::Regular), 3);
    assert_eq!(slot(Family::Mono, Weight::Bold), REGISTERED - 1);
}
