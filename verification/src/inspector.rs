//! How the inspector presents a parameter row: editable, driven by a wire, or worked out by
//! the node itself, and whether it offers to reset the value.
use crate::preview::GraphEdge;
use crate::thumbnails::same_text;
use crate::widgets::RowState;
use vstd::string::StringExecFns;
use vstd::prelude::*;

verus! {

/// The handle of the input port that drives a parameter: `param:` and its name.
pub open spec fn param_handle(name: Seq<char>) -> Seq<char> {
    "param:"@ + name
}

/// Whether a wire drives the parameter `name` of node `node_id`.
pub open spec fn param_wired(edges: Seq<GraphEdge>, node_id: Seq<char>, name: Seq<char>) -> bool {
    exists|i: int|
        0 <= i < edges.len() && #[trigger] edges[i].target@ == node_id && edges[i].target_handle@ == param_handle(
            name,
        )
}

/// How a row is presented: a wired parameter shows its source; a read-only one the node
/// works out for itself is shown rather than edited; anything else is edited.
pub open spec fn row_state_of(wired: bool, readonly: bool, computed: bool) -> RowState {
    if wired {
        RowState::Wired
    } else if readonly && computed {
        RowState::Computed
    } else {
        RowState::Editable
    }
}

/// A row shows its wire exactly when some wire, wherever it stands among the edges, enters the
/// node by the parameter's port `param:` and its name; one more such wire at the end of the
/// list makes the row wired. A row with no wire is worked out by the node only where the
/// parameter is read-only and the node computes it, and is edited otherwise.
pub proof fn lemma_row_follows_its_wire(
    edges: Seq<GraphEdge>,
    node_id: Seq<char>,
    name: Seq<char>,
    readonly: bool,
    computed: bool,
    wire: GraphEdge,
)
    ensures
        (row_state_of(param_wired(edges, node_id, name), readonly, computed) == RowState::Wired) <==> exists|i: int|
            0 <= i < edges.len() && (#[trigger] edges[i]).target@ == node_id && edges[i].target_handle@ == "param:"@
                + name,
        wire.target@ == node_id && wire.target_handle@ == "param:"@ + name ==> row_state_of(
            param_wired(edges.push(wire), node_id, name),
            readonly,
            computed,
        ) == RowState::Wired,
        !param_wired(edges, node_id, name) ==> row_state_of(param_wired(edges, node_id, name), readonly, computed)
            == if readonly && computed {
            RowState::Computed
        } else {
            RowState::Editable
        },
{
    if wire.target@ == node_id && wire.target_handle@ == "param:"@ + name {
        let grown = edges.push(wire);
        assert(grown[edges.len() as int] == wire);
    }
    if exists|i: int|
        0 <= i < edges.len() && (#[trigger] edges[i]).target@ == node_id && edges[i].target_handle@ == "param:"@
            + name {
        let i = choose|i: int|
            0 <= i < edges.len() && (#[trigger] edges[i]).target@ == node_id && edges[i].target_handle@ == "param:"@
                + name;
        assert(edges[i].target@ == node_id && edges[i].target_handle@ == param_handle(name));
    }
}

/// Decides how the row of parameter `name` of node `node_id` is presented, given whether the
/// parameter is read-only and whether the node's own implementation produces it.
pub fn row_state(name: &str, readonly: bool, node_id: &str, edges: &[GraphEdge], computed: bool) -> (state: RowState)
    ensures
        state == row_state_of(param_wired(edges@, node_id@, name@), readonly, computed),
{
    let mut handle = String::from_str("param:");
    crate::text::push_str(&mut handle, name);
    let mut wired = false;
    let mut index: usize = 0;
    while index < edges.len()
        invariant
            index <= edges@.len(),
            handle@ == param_handle(name@),
            wired == exists|i: int|
                0 <= i < index && #[trigger] edges@[i].target@ == node_id@ && edges@[i].target_handle@
                    == param_handle(name@),
        decreases edges@.len() - index,
    {
        if !wired && same_text(edges[index].target.as_str(), node_id) && same_text(
            edges[index].target_handle.as_str(),
            handle.as_str(),
        ) {
            wired = true;
        }
        index = index + 1;
    }
    if wired {
        RowState::Wired
    } else if readonly && computed {
        RowState::Computed
    } else {
        RowState::Editable
    }
}

/// Whether the row offers the reset control: an editable, writable parameter with a default,
/// unless a checkbox edits it.
pub fn shows_reset(readonly: bool, has_default: bool, checkbox: bool, state: RowState) -> (shown: bool)
    ensures
        shown == (state == RowState::Editable && !readonly && has_default && !checkbox),
{
    state == RowState::Editable && !readonly && has_default && !checkbox
}

} // verus!
