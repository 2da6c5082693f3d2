use bite::layout::{
    card_ports, card_rows, combined_slice, component_index, inline_string_value, label_or_placeholder, section_ports, CardKind,
    CardParam, PortPlace, RowPlan, WireKind,
};

#[test]
fn long_strings_are_cut_to_twelve_characters_plus_an_ellipsis() {
    assert_eq!(inline_string_value("abcdefghijklmnopqrstuvwxyz"), Some("abcdefghijkl...".into()));
    assert_eq!(inline_string_value("abcdefghijklmn"), Some("abcdefghijklmn".into()));
    assert_eq!(inline_string_value(""), None);
    assert_eq!(inline_string_value("ééééééééééééééé"), Some("éééééééééééé...".into()));
}

#[test]
fn combined_outputs_slice_two_three_or_four_components() {
    assert_eq!(combined_slice("xy"), Some(2));
    assert_eq!(combined_slice("rgb"), Some(3));
    assert_eq!(combined_slice("xyz"), Some(3));
    assert_eq!(combined_slice("rgba"), Some(4));
    assert_eq!(combined_slice("xyzw"), Some(4));
    assert_eq!(combined_slice("x"), None);
}

#[test]
fn single_components_are_named_as_coordinates_or_channels() {
    assert_eq!(component_index("x"), Some(0));
    assert_eq!(component_index("g"), Some(1));
    assert_eq!(component_index("b"), Some(2));
    assert_eq!(component_index("w"), Some(3));
    assert_eq!(component_index("xy"), None);
}

#[test]
fn an_empty_suffix_is_labelled_by_its_row_number() {
    assert_eq!(label_or_placeholder("", 0), "suffix1");
    assert_eq!(label_or_placeholder("", 9), "suffix10");
    assert_eq!(label_or_placeholder("_AO", 3), "_AO");
}

fn port(handle: &str, label: &str, wire: WireKind) -> (String, String, WireKind) {
    (handle.to_string(), label.to_string(), wire)
}

fn param(name: &str, port_only: bool, readonly: bool, no_port: bool) -> CardParam {
    CardParam {
        name: name.to_string(),
        label: name.to_uppercase(),
        wire: WireKind::Number,
        is_enum: false,
        visible: true,
        port_only,
        readonly,
        no_port,
    }
}

#[test]
fn a_card_lays_its_ports_out_section_body_slots_then_the_bypass_port() {
    let inputs = vec![port("in:a", "A", WireKind::Image), port("in:b", "B", WireKind::Mask)];
    let outputs = vec![port("out:o", "O", WireKind::Image)];
    let mut hidden = param("hidden", false, false, false);
    hidden.visible = false;
    let mut choice = param("mode", false, false, false);
    choice.is_enum = true;
    let params = vec![
        param("width", false, false, false),
        hidden,
        choice,
        param("result", false, true, false),
        param("quiet", false, false, true),
        param("x", true, false, false),
    ];
    let (ports, tick) = card_ports(&inputs, &outputs, &params, false, true);
    let seen: Vec<(&str, bool, PortPlace)> = ports.iter().map(|p| (p.handle.as_str(), p.output, p.place)).collect();
    assert_eq!(
        seen,
        [
            ("in:a", false, PortPlace::Section(0)),
            ("out:o", true, PortPlace::Section(0)),
            ("in:b", false, PortPlace::Section(1)),
            ("param:width", false, PortPlace::Body(0)),
            ("param:result", true, PortPlace::Body(1)),
            ("param:x", true, PortPlace::Slot(0)),
            ("param:_enabled", false, PortPlace::Header),
        ]
    );
    assert!(tick);
    assert!(!card_ports(&inputs, &outputs, &params, true, true).1);
    assert!(!card_ports(&inputs, &outputs, &params, false, false).1);
    let (alone, tick) = card_ports(&[], &outputs, &[], false, true);
    assert_eq!(alone.len(), 1);
    assert!(!tick);
}

#[test]
fn the_upper_section_follows_the_kind_of_node() {
    let (ins, outs) = section_ports(CardKind::Input, &[], &[], &[], &[], None);
    assert!(ins.is_empty());
    assert_eq!(outs, [port("out:output", "Image", WireKind::Image)]);
    let slots = vec!["s1".to_string(), "s2".to_string()];
    let (ins, _) = section_ports(CardKind::TextOutput, &slots, &[], &[], &[], None);
    assert_eq!(ins[2], port("txo:s2", "Text 2", WireKind::Value));
    let suffixes = vec!["_AO".to_string(), String::new()];
    let (ins, outs) = section_ports(CardKind::ProcessAsSet, &[], &suffixes, &[], &[], None);
    assert_eq!(ins[3], port("param:suffix_1", "suffix2", WireKind::Text));
    assert_eq!(outs, [port("out:suffix_0", "_AO", WireKind::Image), port("out:suffix_1", "suffix2", WireKind::Image)]);
    let defined = vec![port("r", "Red", WireKind::Mask), port("g", "Green", WireKind::Mask), port("a", "Alpha", WireKind::Mask)];
    let (ins, outs) = section_ports(CardKind::Defined, &[], &[], &defined, &[port("output", "Out", WireKind::Image)], Some(2));
    assert_eq!(ins, [port("in:r", "Red", WireKind::Mask), port("in:g", "Green", WireKind::Mask)]);
    assert_eq!(outs, [port("out:output", "Out", WireKind::Image)]);
    assert!(section_ports(CardKind::Comment, &[], &[], &defined, &[], None).0.is_empty());
}

#[test]
fn a_card_draws_its_rows_section_first_then_body_then_slots() {
    let inputs = vec![port("in:a", "A", WireKind::Image), port("in:b", "B", WireKind::Mask)];
    let outputs = vec![port("out:o", "O", WireKind::Image)];
    let params = vec![param("width", false, false, false), param("result", false, true, false), param("x", true, false, false)];
    let rows = card_rows(&inputs, &outputs, &params);
    assert_eq!(rows.len(), 5);
    assert!(matches!(&rows[0], RowPlan::PortLabel { left: Some(l), right: Some(r) } if l == "A" && r == "O"));
    assert!(matches!(&rows[1], RowPlan::PortLabel { left: Some(l), right: None } if l == "B"));
    assert!(matches!(&rows[2], RowPlan::Param { name, computed: false, .. } if name == "width"));
    assert!(matches!(&rows[3], RowPlan::Param { name, computed: true, .. } if name == "result"));
    assert!(matches!(&rows[4], RowPlan::Slot { name, .. } if name == "x"));
    assert!(card_rows(&[], &[], &[]).is_empty());
}

#[test]
fn only_a_card_with_inputs_and_outputs_gets_the_bypass_port() {
    let inputs = vec![port("in:a", "A", WireKind::Image)];
    let outputs = vec![port("out:o", "O", WireKind::Image)];
    let params = vec![param("width", false, false, false)];
    let has_port = |ports: &Vec<bite::layout::PortPlan>| ports.iter().any(|p| p.handle == "param:_enabled");
    let (both, tick) = card_ports(&inputs, &outputs, &params, false, true);
    assert!(has_port(&both) && tick);
    assert_eq!(both.last().map(|p| p.place), Some(PortPlace::Header));
    let (sink, tick) = card_ports(&inputs, &[], &params, false, true);
    assert!(!has_port(&sink) && !tick);
    let (source, tick) = card_ports(&[], &outputs, &params, false, true);
    assert!(!has_port(&source) && !tick);
    let (wired, tick) = card_ports(&inputs, &outputs, &params, true, true);
    assert!(has_port(&wired) && !tick);
}
