use bite::selection::{IdSet, Selection};

#[test]
fn a_plain_click_replaces_the_selection() {
    let mut state = Selection::new();
    state.click_node("a", false);
    state.click_node("b", false);
    assert_eq!(state.selected_nodes.len(), 1);
    assert!(state.is_selected("b"));
}

#[test]
fn the_modifier_adds_and_removes_from_the_selection() {
    let mut state = Selection::new();
    state.click_node("a", false);
    state.click_node("b", true);
    assert_eq!(state.selected_nodes.len(), 2);
    state.click_node("a", true);
    assert_eq!(state.selected_nodes.len(), 1);
    assert!(state.is_selected("b"));
}

#[test]
fn clicking_a_node_already_in_a_multiple_selection_keeps_it() {
    let mut state = Selection::new();
    state.select_only(vec!["a".into(), "b".into()]);
    state.click_node("a", false);
    assert_eq!(state.selected_nodes.len(), 2);
}

#[test]
fn the_rubber_band_selects_every_node_it_touches() {
    let mut state = Selection::new();
    state.click_node("z", false);
    state.apply_rubber_band(&["a".to_string(), "c".to_string()], false);
    assert!(state.is_selected("a"));
    assert!(state.is_selected("c"));
    assert!(!state.is_selected("b"));
    assert!(!state.is_selected("z"));
    state.apply_rubber_band(&["b".to_string(), "a".to_string()], true);
    assert_eq!(state.selected_nodes.len(), 3);
}

#[test]
fn selecting_a_node_clears_any_selected_wire() {
    let mut state = Selection::new();
    state.click_edge("edge-1", false);
    assert_eq!(state.selected_edges.len(), 1);
    state.click_node("a", false);
    assert!(state.selected_edges.is_empty());
}

#[test]
fn wires_follow_the_same_modifier_rules_and_let_go_of_nodes() {
    let mut state = Selection::new();
    state.click_node("a", false);
    state.click_edge("e1", false);
    assert!(state.selected_nodes.is_empty());
    state.click_edge("e2", true);
    assert_eq!(state.selected_edges.len(), 2);
    state.click_edge("e2", true);
    assert_eq!(state.selected_edges.len(), 1);
    state.click_edge("e1", false);
    assert_eq!(state.selected_edges.len(), 1);
    state.clear_selection();
    assert!(state.selected_edges.is_empty() && state.selected_nodes.is_empty());
}

#[test]
fn a_set_holds_each_identifier_once() {
    let mut set = IdSet::new();
    set.insert("a".to_string());
    set.insert("a".to_string());
    set.insert("b".to_string());
    assert_eq!(set.len(), 2);
    assert!(set.remove("a"));
    assert!(!set.remove("a"));
    assert!(set.contains("b") && !set.contains("a"));
    set.clear();
    assert!(set.is_empty());
}
