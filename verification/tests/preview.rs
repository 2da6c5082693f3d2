use bite::preview::{
    auto_preview_node, can_group, can_ungroup, effective_preview_node, non_bypassed_predecessor, reachable_ids,
    sync_active_input, upstream_contains, upstream_input, GraphEdge, GraphNode, NodeRole,
};
use bite::selection::IdSet;

fn node(id: &str, role: NodeRole) -> GraphNode {
    GraphNode { id: id.to_string(), role, enabled: true, definition_id: "resize".to_string() }
}

fn edge(source: &str, target: &str) -> GraphEdge {
    GraphEdge { source: source.to_string(), target: target.to_string(), target_handle: "in:input".to_string() }
}

/// An Input, two processing nodes and an Image Output, wired in a line.
fn chain() -> (Vec<GraphNode>, Vec<GraphEdge>) {
    let nodes = vec![
        node("input", NodeRole::Input),
        node("output", NodeRole::Output),
        node("first", NodeRole::Processing),
        node("second", NodeRole::Processing),
    ];
    let edges = vec![edge("input", "first"), edge("first", "second"), edge("second", "output")];
    (nodes, edges)
}

#[test]
fn the_preview_follows_the_node_feeding_the_output_when_nothing_is_chosen() {
    let (nodes, edges) = chain();
    assert_eq!(effective_preview_node(&nodes, &edges, None).as_deref(), Some("second"));
}

#[test]
fn a_chosen_node_beats_the_one_feeding_the_output() {
    let (nodes, edges) = chain();
    assert_eq!(effective_preview_node(&nodes, &edges, Some("first")).as_deref(), Some("first"));
}

#[test]
fn a_bypassed_node_hands_the_preview_back_to_the_one_before_it() {
    let (mut nodes, edges) = chain();
    nodes[3].enabled = false;
    assert_eq!(effective_preview_node(&nodes, &edges, None).as_deref(), Some("first"));
}

#[test]
fn with_nothing_wired_to_an_output_the_end_of_the_chain_previews() {
    let (nodes, mut edges) = chain();
    edges.pop();
    assert_eq!(effective_preview_node(&nodes, &edges, None).as_deref(), Some("second"));
}

#[test]
fn a_workflow_without_processing_previews_through_nothing() {
    let nodes = vec![node("input", NodeRole::Input), node("output", NodeRole::Output)];
    let edges = vec![edge("input", "output")];
    assert_eq!(effective_preview_node(&nodes, &edges, None), None);
}

#[test]
fn a_process_as_set_upstream_is_detected_through_the_chain() {
    let mut set_node = node("s", NodeRole::Input);
    set_node.role = NodeRole::SetInput;
    let nodes = vec![set_node, node("m", NodeRole::Input), node("o", NodeRole::Input)];
    let edges = vec![
        GraphEdge { source: "s".into(), target: "m".into(), target_handle: "in:input".into() },
        GraphEdge { source: "m".into(), target: "o".into(), target_handle: "in:input".into() },
    ];
    assert!(upstream_contains(&nodes, &edges, "o", "process_as_set"));
    assert!(!upstream_contains(&nodes, &edges, "s", "process_as_set"));
}

#[test]
fn a_definition_upstream_is_found_and_a_cycle_ends_the_search() {
    let mut nodes = vec![node("a", NodeRole::Processing), node("b", NodeRole::Processing), node("c", NodeRole::Processing)];
    nodes[0].definition_id = "blur".to_string();
    let edges = vec![edge("b", "c"), edge("c", "b"), edge("ghost", "b")];
    assert!(!upstream_contains(&nodes, &edges, "c", "blur"));
    let with_a = vec![edge("b", "c"), edge("c", "b"), edge("a", "b")];
    assert!(upstream_contains(&nodes, &with_a, "c", "blur"));
    assert!(!upstream_contains(&nodes, &with_a, "a", "blur"));
}

#[test]
fn everything_the_inputs_reach_comes_out_breadth_first() {
    let nodes = vec![node("in1", NodeRole::Input), node("in2", NodeRole::Input), node("x", NodeRole::Processing)];
    let edges = vec![edge("in1", "a"), edge("in2", "b"), edge("a", "c"), edge("in1", "d"), edge("c", "a"), edge("b", "in1")];
    assert_eq!(reachable_ids(&nodes, &edges), ["in1", "in2", "a", "d", "b", "c"]);
}

#[test]
fn a_walk_back_stops_at_the_first_enabled_node_or_at_a_dead_end() {
    let (mut nodes, edges) = chain();
    nodes[2].enabled = false;
    nodes[3].enabled = false;
    assert_eq!(non_bypassed_predecessor(&nodes, &edges, "second"), None);
    assert_eq!(auto_preview_node(&nodes, &edges), None);
    nodes[2].enabled = true;
    assert_eq!(non_bypassed_predecessor(&nodes, &edges, "second").as_deref(), Some("first"));
    let looped = vec![edge("b", "a"), edge("a", "b")];
    let mut pair = vec![node("a", NodeRole::Processing), node("b", NodeRole::Processing)];
    pair[0].enabled = false;
    pair[1].enabled = false;
    assert_eq!(non_bypassed_predecessor(&pair, &looped, "a"), None);
}

#[test]
fn a_chosen_node_that_cannot_preview_is_passed_over() {
    let (mut nodes, edges) = chain();
    assert_eq!(effective_preview_node(&nodes, &edges, Some("input")).as_deref(), Some("second"));
    assert_eq!(effective_preview_node(&nodes, &edges, Some("missing")).as_deref(), Some("second"));
    nodes[2].enabled = false;
    assert_eq!(effective_preview_node(&nodes, &edges, Some("first")).as_deref(), Some("second"));
}

#[test]
fn the_walk_back_finds_the_input_that_feeds_a_node() {
    let (nodes, edges) = chain();
    assert_eq!(upstream_input(&nodes, &edges, "second").as_deref(), Some("input"));
    assert_eq!(upstream_input(&nodes, &edges, "input"), None);
    let two = vec![
        node("left", NodeRole::Input),
        node("right", NodeRole::Input),
        node("mix", NodeRole::Processing),
        node("step", NodeRole::Processing),
    ];
    let wires = vec![edge("left", "step"), edge("right", "mix"), edge("step", "mix")];
    assert_eq!(upstream_input(&two, &wires, "mix").as_deref(), Some("right"));
    let deep = vec![edge("step", "mix"), edge("left", "step"), edge("right", "mix")];
    assert_eq!(upstream_input(&two, &deep, "mix").as_deref(), Some("right"));
    let only_deep = vec![edge("step", "mix"), edge("left", "step")];
    assert_eq!(upstream_input(&two, &only_deep, "mix").as_deref(), Some("left"));
}

#[test]
fn the_shown_branch_follows_the_selection() {
    let (nodes, edges) = chain();
    assert_eq!(sync_active_input(&nodes, &edges, Some("input"), None).as_deref(), Some("input"));
    assert_eq!(sync_active_input(&nodes, &edges, Some("second"), None).as_deref(), Some("input"));
    assert_eq!(sync_active_input(&nodes, &edges, None, None).as_deref(), Some("input"));
    assert_eq!(sync_active_input(&nodes, &edges, None, Some("gone".to_string())).as_deref(), Some("input"));
    let two = vec![node("a", NodeRole::Input), node("b", NodeRole::Input), node("c", NodeRole::Processing)];
    assert_eq!(sync_active_input(&two, &[], Some("c"), Some("b".to_string())).as_deref(), Some("b"));
    assert_eq!(sync_active_input(&two, &[], Some("b"), Some("a".to_string())).as_deref(), Some("b"));
    assert_eq!(sync_active_input(&[], &[], None, Some("a".to_string())), None);
}

#[test]
fn only_ordinary_nodes_can_be_grouped_and_only_groups_ungrouped() {
    let nodes = vec![
        node("in", NodeRole::Input),
        node("out", NodeRole::Output),
        node("group", NodeRole::Group),
        node("blur", NodeRole::Processing),
        node("note", NodeRole::Other),
    ];
    let mut selected = IdSet::new();
    assert!(!can_group(&nodes, &selected));
    selected.insert("in".to_string());
    selected.insert("out".to_string());
    selected.insert("missing".to_string());
    assert!(!can_group(&nodes, &selected));
    assert!(!can_ungroup(&nodes, &selected));
    selected.insert("group".to_string());
    assert!(!can_group(&nodes, &selected));
    assert!(can_ungroup(&nodes, &selected));
    selected.insert("note".to_string());
    assert!(can_group(&nodes, &selected));
}
