use bite::inspector::{row_state, shows_reset};
use bite::preview::GraphEdge;
use bite::widgets::RowState;

#[test]
fn an_incoming_wire_replaces_the_control() {
    let edges = vec![GraphEdge { source: "a".into(), target: "b".into(), target_handle: "param:width".into() }];
    assert_eq!(row_state("width", false, "b", &edges, false), RowState::Wired);
    assert_eq!(row_state("height", false, "b", &edges, false), RowState::Editable);
    assert_eq!(row_state("width", false, "a", &edges, false), RowState::Editable);
}

#[test]
fn a_computed_parameter_is_shown_rather_than_edited() {
    assert_eq!(row_state("result", true, "a", &[], true), RowState::Computed);
    assert_eq!(row_state("result", true, "a", &[], false), RowState::Editable);
}

#[test]
fn the_reset_control_appears_only_for_editable_rows_with_a_default() {
    assert!(shows_reset(false, true, false, RowState::Editable));
    assert!(!shows_reset(false, false, false, RowState::Editable));
    assert!(!shows_reset(false, true, false, RowState::Wired));
    assert!(!shows_reset(false, true, true, RowState::Editable));
    assert!(!shows_reset(true, true, false, RowState::Editable));
}
