//! Which node the preview shows, read off the workflow graph: what the Inputs reach, the node
//! that feeds an output, the active node before a bypassed one, and whether a kind of node
//! lies upstream of another.
use crate::thumbnails::same_text;
use vstd::prelude::*;
use vstd::string::StringExecFns;

verus! {

/// What the preview reads of a node's kind.
#[derive(Clone, Copy, PartialEq, Eq, Debug, Structural)]
pub enum NodeRole {
    /// An Input node, where images enter the workflow.
    Input,
    /// An image, text or flipbook output.
    Output,
    /// A processing node of any kind but Process As Set.
    Processing,
    /// The Process As Set node, which is a processing node too.
    SetInput,
    /// A group, which holds other nodes.
    Group,
    /// Anything else: folder paths, comments.
    Other,
}

/// A node of the workflow graph, as the preview reads it: its identifier, its kind, whether
/// it is enabled (not bypassed), and the definition it was made from.
#[derive(Clone, Debug)]
pub struct GraphNode {
    pub id: String,
    pub role: NodeRole,
    pub enabled: bool,
    pub definition_id: String,
}

/// A wire of the workflow graph: the node it leaves, the node it enters and the port it
/// enters by.
#[derive(Clone, Debug)]
pub struct GraphEdge {
    pub source: String,
    pub target: String,
    pub target_handle: String,
}

/// Whether a role is one of the processing kinds.
pub open spec fn is_processing(role: NodeRole) -> bool {
    role == NodeRole::Processing || role == NodeRole::SetInput
}

/// The position of the first node at or after `from` with identifier `id`.
pub open spec fn node_from(nodes: Seq<GraphNode>, id: Seq<char>, from: int) -> Option<int>
    decreases nodes.len() - from,
{
    if from < 0 || from >= nodes.len() {
        None
    } else if nodes[from].id@ == id {
        Some(from)
    } else {
        node_from(nodes, id, from + 1)
    }
}

proof fn lemma_node_from(nodes: Seq<GraphNode>, id: Seq<char>, from: int)
    requires
        0 <= from,
    ensures
        node_from(nodes, id, from) matches Some(i) ==> from <= i < nodes.len() && nodes[i].id@ == id
            && forall|j: int| from <= j < i ==> nodes[j].id@ != id,
        node_from(nodes, id, from) is None ==> forall|j: int| from <= j < nodes.len() ==> nodes[j].id@ != id,
    decreases nodes.len() - from,
{
    if from < nodes.len() && nodes[from].id@ != id {
        lemma_node_from(nodes, id, from + 1);
    }
}

/// The position of the first node with identifier `id`.
pub open spec fn node_of(nodes: Seq<GraphNode>, id: Seq<char>) -> Option<int> {
    node_from(nodes, id, 0)
}

/// Whether some node with identifier `id` is an output.
pub open spec fn is_output_id(nodes: Seq<GraphNode>, id: Seq<char>) -> bool {
    exists|i: int| 0 <= i < nodes.len() && nodes[i].id@ == id && #[trigger] nodes[i].role == NodeRole::Output
}

/// Whether some node with identifier `id` is a processing node.
pub open spec fn is_processing_id(nodes: Seq<GraphNode>, id: Seq<char>) -> bool {
    exists|i: int| 0 <= i < nodes.len() && nodes[i].id@ == id && is_processing(#[trigger] nodes[i].role)
}

/// Whether the first node with identifier `id` is enabled; no node is not.
pub open spec fn is_enabled_id(nodes: Seq<GraphNode>, id: Seq<char>) -> bool {
    match node_of(nodes, id) {
        Some(i) => nodes[i].enabled,
        None => false,
    }
}

/// The identifiers of the Input nodes among the first `count`, in order.
pub open spec fn input_ids(nodes: Seq<GraphNode>, count: int) -> Seq<Seq<char>>
    decreases count,
{
    if count <= 0 || count > nodes.len() {
        Seq::empty()
    } else if nodes[count - 1].role == NodeRole::Input {
        input_ids(nodes, count - 1).push(nodes[count - 1].id@)
    } else {
        input_ids(nodes, count - 1)
    }
}

/// What is reached after following the first `count` edges out of `id`: each target not yet
/// reached is added, in the order of the edges.
pub open spec fn follow(edges: Seq<GraphEdge>, reached: Seq<Seq<char>>, id: Seq<char>, count: int) -> Seq<
    Seq<char>,
>
    decreases count,
{
    if count <= 0 || count > edges.len() {
        reached
    } else {
        let before = follow(edges, reached, id, count - 1);
        let edge = edges[count - 1];
        if edge.source@ == id && !before.contains(edge.target@) {
            before.push(edge.target@)
        } else {
            before
        }
    }
}

/// The breadth-first walk along the edges from what has been reached, taking up each node
/// from position `index` on in the order it was reached, for at most `steps` of them.
pub open spec fn explored(edges: Seq<GraphEdge>, reached: Seq<Seq<char>>, index: int, steps: nat) -> Seq<
    Seq<char>,
>
    decreases steps,
{
    if steps == 0 || index < 0 || index >= reached.len() {
        reached
    } else {
        explored(edges, follow(edges, reached, reached[index], edges.len() as int), index + 1, (steps - 1) as nat)
    }
}

/// Everything an Input can reach, following edges forward, in the order a breadth-first walk
/// from the Inputs, in their order, reaches it. The walk never takes up more nodes than there
/// are Inputs and edges, so that many steps see it through.
pub open spec fn reachable(nodes: Seq<GraphNode>, edges: Seq<GraphEdge>) -> Seq<Seq<char>> {
    let inputs = input_ids(nodes, nodes.len() as int);
    explored(edges, inputs, 0, (inputs.len() + edges.len() + 1) as nat)
}

/// The identifiers of the edges' targets.
pub open spec fn targets(edges: Seq<GraphEdge>) -> Set<Seq<char>> {
    Set::new(|id: Seq<char>| exists|i: int| 0 <= i < edges.len() && #[trigger] edges[i].target@ == id)
}

proof fn lemma_targets_bounded(edges: Seq<GraphEdge>)
    ensures
        targets(edges).finite(),
        targets(edges).len() <= edges.len(),
{
    let ids = edges.map_values(|edge: GraphEdge| edge.target@);
    assert(targets(edges) =~= ids.to_set()) by {
        assert forall|id: Seq<char>| targets(edges).contains(id) implies ids.to_set().contains(id) by {
            let i = choose|i: int| 0 <= i < edges.len() && #[trigger] edges[i].target@ == id;
            assert(ids[i] == id);
        }
        assert forall|id: Seq<char>| ids.to_set().contains(id) implies targets(edges).contains(id) by {
            let i = choose|i: int| 0 <= i < ids.len() && ids[i] == id;
            assert(edges[i].target@ == id);
        }
    }
    ids.lemma_cardinality_of_set();
    vstd::seq_lib::seq_to_set_is_finite(ids);
}

/// A walk that only ever adds edge targets it has not reached adds no more of them than there
/// are distinct targets.
proof fn lemma_added_bounded(edges: Seq<GraphEdge>, start: Seq<Seq<char>>, added: Seq<Seq<char>>)
    requires
        added.no_duplicates(),
        forall|i: int| 0 <= i < added.len() ==> targets(edges).contains(#[trigger] added[i]),
    ensures
        added.len() <= edges.len(),
{
    lemma_targets_bounded(edges);
    added.unique_seq_to_set();
    assert(added.to_set().subset_of(targets(edges)));
    vstd::set_lib::lemma_len_subset(added.to_set(), targets(edges));
}

/// Following the edges out of one node keeps what was reached in front and only adds edge
/// targets not reached before, each once.
proof fn lemma_follow_grows(edges: Seq<GraphEdge>, reached: Seq<Seq<char>>, id: Seq<char>, count: int)
    requires
        0 <= count <= edges.len(),
    ensures
        follow(edges, reached, id, count).len() >= reached.len(),
        follow(edges, reached, id, count).take(reached.len() as int) == reached,
        follow(edges, reached, id, count).skip(reached.len() as int).no_duplicates(),
        forall|i: int|
            reached.len() <= i < follow(edges, reached, id, count).len() ==> {
                &&& targets(edges).contains(#[trigger] follow(edges, reached, id, count)[i])
                &&& !reached.contains(follow(edges, reached, id, count)[i])
            },
    decreases count,
{
    let after = follow(edges, reached, id, count);
    if count == 0 {
        assert(after.take(reached.len() as int) =~= reached);
        assert(after.skip(reached.len() as int) =~= Seq::<Seq<char>>::empty());
    } else {
        lemma_follow_grows(edges, reached, id, count - 1);
        let before = follow(edges, reached, id, count - 1);
        let edge = edges[count - 1];
        if edge.source@ == id && !before.contains(edge.target@) {
            assert(after.take(reached.len() as int) =~= before.take(reached.len() as int));
            assert(after.skip(reached.len() as int) =~= before.skip(reached.len() as int).push(edge.target@));
            assert(targets(edges).contains(edge.target@));
            let fresh = before.skip(reached.len() as int);
            assert forall|a: int, b: int| 0 <= a < b < fresh.len() + 1 implies fresh.push(edge.target@)[a]
                != fresh.push(edge.target@)[b] by {
                if b == fresh.len() {
                    assert(before[reached.len() + a] == fresh[a]);
                }
            }
            assert forall|i: int| reached.len() <= i < after.len() implies !reached.contains(#[trigger] after[i]) by {
                if i == after.len() - 1 {
                    if reached.contains(after[i]) {
                        let k = choose|k: int| 0 <= k < reached.len() && reached[k] == after[i];
                        assert(before[k] == reached[k]);
                    }
                } else {
                    assert(after[i] == before[i]);
                }
            }
        }
    }
}

/// The identifiers a list of strings holds.
pub open spec fn ids(list: Seq<String>) -> Seq<Seq<char>> {
    list.map_values(|id: String| id@)
}

/// The position of the first node with identifier `id`.
pub fn find_node(nodes: &[GraphNode], id: &str) -> (found: Option<usize>)
    ensures
        match node_of(nodes@, id@) {
            Some(i) => found == Some(i as usize),
            None => found is None,
        },
        found matches Some(i) ==> i < nodes@.len() && nodes@[i as int].id@ == id@,
{
    proof {
        lemma_node_from(nodes@, id@, 0);
    }
    let mut index: usize = 0;
    while index < nodes.len()
        invariant
            index <= nodes@.len(),
            node_of(nodes@, id@) == node_from(nodes@, id@, index as int),
        decreases nodes@.len() - index,
    {
        if same_text(nodes[index].id.as_str(), id) {
            return Some(index);
        }
        index = index + 1;
    }
    None
}

/// Whether some node with identifier `id` is an output.
fn output_id(nodes: &[GraphNode], id: &str) -> (output: bool)
    ensures
        output == is_output_id(nodes@, id@),
{
    let mut index: usize = 0;
    while index < nodes.len()
        invariant
            index <= nodes@.len(),
            forall|i: int| 0 <= i < index ==> !(nodes@[i].id@ == id@ && #[trigger] nodes@[i].role == NodeRole::Output),
        decreases nodes@.len() - index,
    {
        if nodes[index].role == NodeRole::Output && same_text(nodes[index].id.as_str(), id) {
            return true;
        }
        index = index + 1;
    }
    false
}

/// Whether some node with identifier `id` is a processing node.
fn processing_id(nodes: &[GraphNode], id: &str) -> (processing: bool)
    ensures
        processing == is_processing_id(nodes@, id@),
{
    let mut index: usize = 0;
    while index < nodes.len()
        invariant
            index <= nodes@.len(),
            forall|i: int| 0 <= i < index ==> !(nodes@[i].id@ == id@ && is_processing(#[trigger] nodes@[i].role)),
        decreases nodes@.len() - index,
    {
        let role = nodes[index].role;
        if (role == NodeRole::Processing || role == NodeRole::SetInput) && same_text(
            nodes[index].id.as_str(),
            id,
        ) {
            return true;
        }
        index = index + 1;
    }
    false
}

/// Whether the first node with identifier `id` is enabled.
fn enabled_id(nodes: &[GraphNode], id: &str) -> (enabled: bool)
    ensures
        enabled == is_enabled_id(nodes@, id@),
{
    proof {
        lemma_node_from(nodes@, id@, 0);
    }
    match find_node(nodes, id) {
        Some(i) => nodes[i].enabled,
        None => false,
    }
}

/// Whether `list` holds `id`.
fn holds_id(list: &Vec<String>, id: &str) -> (found: bool)
    ensures
        found == ids(list@).contains(id@),
{
    let mut index: usize = 0;
    while index < list.len()
        invariant
            index <= list@.len(),
            forall|i: int| 0 <= i < index ==> ids(list@)[i] != id@,
        decreases list@.len() - index,
    {
        if same_text(list[index].as_str(), id) {
            assert(ids(list@)[index as int] == id@);
            return true;
        }
        index = index + 1;
    }
    false
}

/// The identifiers of the Input nodes, in order.
fn input_list(nodes: &[GraphNode]) -> (inputs: Vec<String>)
    ensures
        ids(inputs@) == input_ids(nodes@, nodes@.len() as int),
{
    let mut inputs: Vec<String> = Vec::new();
    let mut index: usize = 0;
    while index < nodes.len()
        invariant
            index <= nodes@.len(),
            ids(inputs@) == input_ids(nodes@, index as int),
        decreases nodes@.len() - index,
    {
        if nodes[index].role == NodeRole::Input {
            inputs.push(nodes[index].id.clone());
            assert(ids(inputs@) =~= input_ids(nodes@, index as int).push(nodes@[index as int].id@));
        }
        index = index + 1;
    }
    inputs
}

/// Adds, in the order of the edges, each target of an edge out of `id` not reached yet.
fn follow_edges(edges: &[GraphEdge], reached: &mut Vec<String>, id: &str)
    ensures
        ids(final(reached)@) == follow(edges@, ids(old(reached)@), id@, edges@.len() as int),
{
    let ghost start = ids(reached@);
    let mut index: usize = 0;
    while index < edges.len()
        invariant
            index <= edges@.len(),
            ids(reached@) == follow(edges@, start, id@, index as int),
        decreases edges@.len() - index,
    {
        let edge = &edges[index];
        if same_text(edge.source.as_str(), id) && !holds_id(reached, edge.target.as_str()) {
            let ghost before = ids(reached@);
            reached.push(edge.target.clone());
            assert(ids(reached@) =~= before.push(edge.target@));
        }
        index = index + 1;
    }
}

/// Whether an edge runs from `source` to `target`.
pub open spec fn edge_between(edges: Seq<GraphEdge>, source: Seq<char>, target: Seq<char>) -> bool {
    exists|e: int| 0 <= e < edges.len() && #[trigger] edges[e].source@ == source && edges[e].target@ == target
}

/// Whether the entry of `list` at `q` is fed by an edge from an entry before it.
pub open spec fn fed_earlier(edges: Seq<GraphEdge>, list: Seq<Seq<char>>, q: int) -> bool {
    exists|j: int| 0 <= j < q && #[trigger] edge_between(edges, list[j], list[q])
}

/// Whether `path` starts at an Input and follows edges forward.
pub open spec fn is_forward_path(nodes: Seq<GraphNode>, edges: Seq<GraphEdge>, path: Seq<Seq<char>>) -> bool {
    &&& path.len() >= 1
    &&& input_ids(nodes, nodes.len() as int).contains(path[0])
    &&& forall|i: int| 0 <= i < path.len() - 1 ==> edge_between(edges, #[trigger] path[i], path[i + 1])
}

/// Whether an Input reaches `id` by following edges forward.
pub open spec fn flows_from_input(nodes: Seq<GraphNode>, edges: Seq<GraphEdge>, id: Seq<char>) -> bool {
    exists|path: Seq<Seq<char>>| #[trigger] is_forward_path(nodes, edges, path) && path.last() == id
}

/// Following the edges out of `id` adds the target of every such edge that was not reached,
/// and only such targets.
proof fn lemma_follow_covers(edges: Seq<GraphEdge>, reached: Seq<Seq<char>>, id: Seq<char>, count: int)
    requires
        0 <= count <= edges.len(),
    ensures
        forall|e: int|
            0 <= e < count && #[trigger] edges[e].source@ == id ==> follow(edges, reached, id, count).contains(
                edges[e].target@,
            ),
        forall|p: int|
            reached.len() <= p < follow(edges, reached, id, count).len() ==> edge_between(
                edges,
                id,
                #[trigger] follow(edges, reached, id, count)[p],
            ),
    decreases count,
{
    lemma_follow_grows(edges, reached, id, count);
    if count > 0 {
        lemma_follow_covers(edges, reached, id, count - 1);
        lemma_follow_grows(edges, reached, id, count - 1);
        let before = follow(edges, reached, id, count - 1);
        let after = follow(edges, reached, id, count);
        let edge = edges[count - 1];
        assert forall|w: Seq<char>| before.contains(w) implies after.contains(w) by {
            let k = choose|k: int| 0 <= k < before.len() && before[k] == w;
            if edge.source@ == id && !before.contains(edge.target@) {
                assert(after[k] == before[k]);
            }
        }
        if edge.source@ == id && !before.contains(edge.target@) {
            assert(after[after.len() - 1] == edge.target@);
            assert forall|p: int| reached.len() <= p < after.len() implies edge_between(edges, id, #[trigger] after[p]) by {
                if p < before.len() {
                    assert(after[p] == before[p]);
                } else {
                    assert(edges[count - 1].source@ == id && edges[count - 1].target@ == after[p]);
                }
            }
        }
    }
}

/// A list whose first entries are the Inputs, each later one fed by an edge from an earlier
/// one, holds only what the Inputs reach.
proof fn lemma_position_flows(
    nodes: Seq<GraphNode>,
    edges: Seq<GraphEdge>,
    list: Seq<Seq<char>>,
    inputs: Seq<Seq<char>>,
    i: int,
)
    requires
        inputs == input_ids(nodes, nodes.len() as int),
        list.len() >= inputs.len(),
        list.take(inputs.len() as int) == inputs,
        forall|q: int| inputs.len() <= q < list.len() ==> #[trigger] fed_earlier(edges, list, q),
        0 <= i < list.len(),
    ensures
        flows_from_input(nodes, edges, list[i]),
    decreases i,
{
    if i < inputs.len() {
        assert(list.take(inputs.len() as int)[i] == list[i]);
        let path = seq![list[i]];
        assert(inputs[i] == list[i]);
        assert(is_forward_path(nodes, edges, path));
    } else {
        assert(fed_earlier(edges, list, i));
        let j = choose|j: int| 0 <= j < i && #[trigger] edge_between(edges, list[j], list[i]);
        lemma_position_flows(nodes, edges, list, inputs, j);
        let path = choose|path: Seq<Seq<char>>| #[trigger] is_forward_path(nodes, edges, path) && path.last() == list[j];
        let longer = path.push(list[i]);
        assert forall|k: int| 0 <= k < longer.len() - 1 implies edge_between(edges, #[trigger] longer[k], longer[k + 1]) by {
            if k < path.len() - 1 {
                assert(longer[k] == path[k] && longer[k + 1] == path[k + 1]);
            } else {
                assert(longer[k] == list[j] && longer[k + 1] == list[i]);
            }
        }
        assert(longer[0] == path[0]);
        assert(is_forward_path(nodes, edges, longer));
    }
}

/// A list that holds the Inputs and, for everything it holds, every target of an edge out of
/// it, holds everything the Inputs reach.
proof fn lemma_closed_holds_flows(
    nodes: Seq<GraphNode>,
    edges: Seq<GraphEdge>,
    list: Seq<Seq<char>>,
    path: Seq<Seq<char>>,
    k: int,
)
    requires
        forall|i: int| 0 <= i < input_ids(nodes, nodes.len() as int).len() ==> list.contains(
            #[trigger] input_ids(nodes, nodes.len() as int)[i],
        ),
        forall|e: int| 0 <= e < edges.len() && list.contains(#[trigger] edges[e].source@) ==> list.contains(edges[e].target@),
        is_forward_path(nodes, edges, path),
        0 <= k < path.len(),
    ensures
        list.contains(path[k]),
    decreases k,
{
    if k == 0 {
        let inputs = input_ids(nodes, nodes.len() as int);
        let i = choose|i: int| 0 <= i < inputs.len() && inputs[i] == path[0];
        assert(list.contains(inputs[i]));
    } else {
        lemma_closed_holds_flows(nodes, edges, list, path, k - 1);
        assert(edge_between(edges, path[k - 1], path[k]));
        let e = choose|e: int| 0 <= e < edges.len() && #[trigger] edges[e].source@ == path[k - 1] && edges[e].target@ == path[k];
        assert(list.contains(edges[e].source@));
    }
}

/// Everything an Input can reach, following edges forward, in the order a breadth-first walk
/// from the Inputs reaches it.
pub fn reachable_ids(nodes: &[GraphNode], edges: &[GraphEdge]) -> (reached: Vec<String>)
    ensures
        ids(reached@) == reachable(nodes@, edges@),
        forall|id: Seq<char>| ids(reached@).contains(id) <==> flows_from_input(nodes@, edges@, id),
{
    let mut reached = input_list(nodes);
    let ghost inputs = ids(reached@);
    let ghost limit = inputs.len() + edges@.len();
    let mut index: usize = 0;
    assert(ids(reached@).skip(inputs.len() as int) =~= Seq::<Seq<char>>::empty());
    while index < reached.len()
        invariant
            inputs == input_ids(nodes@, nodes@.len() as int),
            limit == inputs.len() + edges@.len(),
            index <= reached@.len(),
            reached@.len() >= inputs.len(),
            ids(reached@).take(inputs.len() as int) == inputs,
            ids(reached@).skip(inputs.len() as int).no_duplicates(),
            forall|i: int|
                inputs.len() <= i < reached@.len() ==> targets(edges@).contains(#[trigger] ids(reached@)[i]),
            reached@.len() <= limit,
            explored(edges@, ids(reached@), index as int, (limit + 1 - index) as nat) == reachable(
                nodes@,
                edges@,
            ),
            forall|q: int| inputs.len() <= q < reached@.len() ==> #[trigger] fed_earlier(edges@, ids(reached@), q),
            forall|i: int, e: int|
                0 <= i < index && 0 <= e < edges@.len() && #[trigger] edges@[e].source@ == #[trigger] ids(reached@)[i]
                    ==> ids(reached@).contains(edges@[e].target@),
        decreases limit - index,
    {
        let ghost before = ids(reached@);
        let id = reached[index].clone();
        assert(id@ == before[index as int]);
        follow_edges(edges, &mut reached, id.as_str());
        proof {
            let after = ids(reached@);
            lemma_follow_grows(edges@, before, id@, edges@.len() as int);
            assert(after.take(inputs.len() as int) =~= inputs) by {
                assert(after.take(before.len() as int).take(inputs.len() as int) =~= after.take(inputs.len() as int));
            }
            let old_added = before.skip(inputs.len() as int);
            let fresh = after.skip(before.len() as int);
            assert(after.skip(inputs.len() as int) =~= old_added + fresh) by {
                assert(after.take(before.len() as int) == before);
            }
            assert forall|a: int, b: int| 0 <= a < b < (old_added + fresh).len() implies (old_added + fresh)[a]
                != (old_added + fresh)[b] by {
                if b >= old_added.len() && a < old_added.len() {
                    assert((old_added + fresh)[b] == after[before.len() + b - old_added.len()]);
                    assert(after[before.len() + b - old_added.len()] == fresh[b - old_added.len()]);
                    assert(!before.contains(after[before.len() + b - old_added.len()]));
                    assert(before[inputs.len() + a] == old_added[a]);
                } else if b >= old_added.len() {
                    assert(fresh[a - old_added.len()] != fresh[b - old_added.len()]);
                }
            }
            assert forall|i: int| inputs.len() <= i < after.len() implies targets(edges@).contains(#[trigger] after[i]) by {
                if i < before.len() {
                    assert(after[i] == after.take(before.len() as int)[i]);
                }
            }
            lemma_added_bounded(edges@, inputs, after.skip(inputs.len() as int));
            assert(ids(reached@) == after);
            lemma_follow_covers(edges@, before, id@, edges@.len() as int);
            assert forall|w: Seq<char>| before.contains(w) implies after.contains(w) by {
                let k = choose|k: int| 0 <= k < before.len() && before[k] == w;
                assert(after.take(before.len() as int)[k] == before[k]);
                assert(after[k] == w);
            }
            assert forall|q: int| inputs.len() <= q < after.len() implies #[trigger] fed_earlier(edges@, after, q) by {
                if q < before.len() {
                    assert(fed_earlier(edges@, before, q));
                    let j = choose|j: int| 0 <= j < q && #[trigger] edge_between(edges@, before[j], before[q]);
                    assert(after[j] == after.take(before.len() as int)[j]);
                    assert(after[q] == after.take(before.len() as int)[q]);
                    assert(edge_between(edges@, after[j], after[q]));
                } else {
                    assert(edge_between(edges@, id@, after[q]));
                    assert(after[index as int] == after.take(before.len() as int)[index as int]);
                    assert(edge_between(edges@, after[index as int], after[q]));
                }
            }
            assert forall|i: int, e: int|
                0 <= i < index + 1 && 0 <= e < edges@.len() && #[trigger] edges@[e].source@ == #[trigger] after[i]
                implies after.contains(edges@[e].target@) by {
                assert(after[i] == after.take(before.len() as int)[i]);
                assert(after[i] == before[i]);
                if i < index {
                    assert(before.contains(edges@[e].target@));
                }
            }
        }
        index = index + 1;
    }
    proof {
        let list = ids(reached@);
        assert forall|id: Seq<char>| list.contains(id) implies flows_from_input(nodes@, edges@, id) by {
            let i = choose|i: int| 0 <= i < list.len() && list[i] == id;
            lemma_position_flows(nodes@, edges@, list, inputs, i);
        }
        assert forall|id: Seq<char>| flows_from_input(nodes@, edges@, id) implies list.contains(id) by {
            let path = choose|path: Seq<Seq<char>>| #[trigger] is_forward_path(nodes@, edges@, path) && path.last() == id;
            assert forall|i: int| 0 <= i < inputs.len() implies list.contains(#[trigger] inputs[i]) by {
                assert(list.take(inputs.len() as int)[i] == list[i]);
            }
            assert forall|e: int| 0 <= e < edges@.len() && list.contains(#[trigger] edges@[e].source@) implies list.contains(
                edges@[e].target@,
            ) by {
                let i = choose|i: int| 0 <= i < list.len() && list[i] == edges@[e].source@;
                assert(edges@[e].source@ == list[i]);
            }
            lemma_closed_holds_flows(nodes@, edges@, list, path, path.len() - 1);
        }
    }
    reached
}

/// Whether a port is an input port: its handle begins with `in:`.
pub open spec fn is_in_port(handle: Seq<char>) -> bool {
    handle.len() >= 3 && handle.take(3) == "in:"@
}

/// The position of the first edge at or after `from` that enters `id` by an input port.
pub open spec fn edge_into(edges: Seq<GraphEdge>, id: Seq<char>, from: int) -> Option<int>
    decreases edges.len() - from,
{
    if from < 0 || from >= edges.len() {
        None
    } else if edges[from].target@ == id && is_in_port(edges[from].target_handle@) {
        Some(from)
    } else {
        edge_into(edges, id, from + 1)
    }
}

/// The walk back from `current` along the wires into image inputs, for at most `steps` nodes:
/// the first enabled node it meets, or nothing where the wire is missing or leaves something
/// other than a processing node.
pub open spec fn walk_back(nodes: Seq<GraphNode>, edges: Seq<GraphEdge>, current: Seq<char>, steps: nat) -> Option<
    Seq<char>,
>
    decreases steps,
{
    if steps == 0 {
        None
    } else {
        match edge_into(edges, current, 0) {
            None => None,
            Some(e) => match node_of(nodes, edges[e].source@) {
                None => None,
                Some(n) => if !is_processing(nodes[n].role) {
                    None
                } else if nodes[n].enabled {
                    Some(nodes[n].id@)
                } else {
                    walk_back(nodes, edges, nodes[n].id@, (steps - 1) as nat)
                },
            },
        }
    }
}

/// The nearest enabled node feeding the image input of a bypassed one. The walk takes at most
/// as many steps as there are nodes, which stops a cycle from spinning.
pub open spec fn active_predecessor(nodes: Seq<GraphNode>, edges: Seq<GraphEdge>, from: Seq<char>) -> Option<
    Seq<char>,
> {
    walk_back(nodes, edges, from, nodes.len())
}

proof fn lemma_edge_into(edges: Seq<GraphEdge>, id: Seq<char>, from: int)
    requires
        0 <= from,
    ensures
        edge_into(edges, id, from) matches Some(e) ==> from <= e < edges.len() && edges[e].target@ == id
            && is_in_port(edges[e].target_handle@),
    decreases edges.len() - from,
{
    if from < edges.len() && !(edges[from].target@ == id && is_in_port(edges[from].target_handle@)) {
        lemma_edge_into(edges, id, from + 1);
    }
}

fn in_port(handle: &str) -> (found: bool)
    ensures
        found == is_in_port(handle@),
{
    let chars = crate::text::chars_of(handle);
    proof {
        reveal_strlit("in:");
    }
    crate::text::starts_with(&chars, "in:")
}

/// The first edge that enters `id` by an input port.
fn find_edge_into(edges: &[GraphEdge], id: &str) -> (found: Option<usize>)
    ensures
        match edge_into(edges@, id@, 0) {
            Some(e) => found == Some(e as usize),
            None => found is None,
        },
        found matches Some(e) ==> e < edges@.len(),
{
    proof {
        lemma_edge_into(edges@, id@, 0);
    }
    let mut index: usize = 0;
    while index < edges.len()
        invariant
            index <= edges@.len(),
            edge_into(edges@, id@, 0) == edge_into(edges@, id@, index as int),
        decreases edges@.len() - index,
    {
        if same_text(edges[index].target.as_str(), id) && in_port(edges[index].target_handle.as_str()) {
            return Some(index);
        }
        index = index + 1;
    }
    None
}

/// Walks back from a bypassed node to the nearest active one feeding its image input.
pub fn non_bypassed_predecessor(nodes: &[GraphNode], edges: &[GraphEdge], from: &str) -> (found: Option<
    String,
>)
    ensures
        match active_predecessor(nodes@, edges@, from@) {
            Some(id) => found matches Some(s) && s@ == id,
            None => found is None,
        },
{
    let mut current = String::from_str(from);
    let mut steps: usize = 0;
    while steps < nodes.len()
        invariant
            steps <= nodes@.len(),
            walk_back(nodes@, edges@, current@, (nodes@.len() - steps) as nat) == active_predecessor(
                nodes@,
                edges@,
                from@,
            ),
        decreases nodes@.len() - steps,
    {
        proof {
            lemma_edge_into(edges@, current@, 0);
        }
        let edge = match find_edge_into(edges, current.as_str()) {
            Some(e) => e,
            None => return None,
        };
        proof {
            lemma_node_from(nodes@, edges@[edge as int].source@, 0);
        }
        let node = match find_node(nodes, edges[edge].source.as_str()) {
            Some(n) => n,
            None => return None,
        };
        let role = nodes[node].role;
        if !(role == NodeRole::Processing || role == NodeRole::SetInput) {
            return None;
        }
        if nodes[node].enabled {
            return Some(nodes[node].id.clone());
        }
        current = nodes[node].id.clone();
        steps = steps + 1;
    }
    None
}

/// Whether an edge feeds an output from a processing node the Inputs reach.
pub open spec fn feeds_output(nodes: Seq<GraphNode>, reached: Seq<Seq<char>>, edge: GraphEdge) -> bool {
    &&& is_output_id(nodes, edge.target@)
    &&& is_in_port(edge.target_handle@)
    &&& reached.contains(edge.source@)
    &&& is_processing_id(nodes, edge.source@)
}

/// The position of the first edge at or after `from` that feeds an output.
pub open spec fn feeding_from(nodes: Seq<GraphNode>, edges: Seq<GraphEdge>, reached: Seq<Seq<char>>, from: int) -> Option<
    int,
>
    decreases edges.len() - from,
{
    if from < 0 || from >= edges.len() {
        None
    } else if feeds_output(nodes, reached, edges[from]) {
        Some(from)
    } else {
        feeding_from(nodes, edges, reached, from + 1)
    }
}

/// The reached processing nodes that are enabled, among the first `count` reached, in order.
pub open spec fn candidates(nodes: Seq<GraphNode>, reached: Seq<Seq<char>>, count: int) -> Seq<Seq<char>>
    decreases count,
{
    if count <= 0 || count > reached.len() {
        Seq::empty()
    } else if is_processing_id(nodes, reached[count - 1]) && is_enabled_id(nodes, reached[count - 1]) {
        candidates(nodes, reached, count - 1).push(reached[count - 1])
    } else {
        candidates(nodes, reached, count - 1)
    }
}

/// Whether something reached, other than an output, is processed after `id`.
pub open spec fn continues(nodes: Seq<GraphNode>, edges: Seq<GraphEdge>, reached: Seq<Seq<char>>, id: Seq<char>) -> bool {
    exists|i: int|
        0 <= i < edges.len() && #[trigger] edges[i].source@ == id && reached.contains(edges[i].target@)
            && !is_output_id(nodes, edges[i].target@)
}

/// The last of the first `count` candidates that nothing reached processes after.
pub open spec fn last_terminal(
    nodes: Seq<GraphNode>,
    edges: Seq<GraphEdge>,
    reached: Seq<Seq<char>>,
    list: Seq<Seq<char>>,
    count: int,
) -> Option<Seq<char>>
    decreases count,
{
    if count <= 0 || count > list.len() {
        None
    } else if !continues(nodes, edges, reached, list[count - 1]) {
        Some(list[count - 1])
    } else {
        last_terminal(nodes, edges, reached, list, count - 1)
    }
}

/// The node the preview falls back to: the enabled processing node that feeds the first wire
/// into an output, or the nearest enabled one before it; otherwise the last processing node
/// the Inputs reach that nothing else processes after; otherwise the last one they reach.
pub open spec fn auto_preview(nodes: Seq<GraphNode>, edges: Seq<GraphEdge>) -> Option<Seq<char>> {
    let reached = reachable(nodes, edges);
    let fed = match feeding_from(nodes, edges, reached, 0) {
        Some(e) => if is_enabled_id(nodes, edges[e].source@) {
            Some(edges[e].source@)
        } else {
            active_predecessor(nodes, edges, edges[e].source@)
        },
        None => None,
    };
    if fed is Some {
        fed
    } else {
        let list = candidates(nodes, reached, reached.len() as int);
        match last_terminal(nodes, edges, reached, list, list.len() as int) {
            Some(id) => Some(id),
            None => if list.len() > 0 {
                Some(list.last())
            } else {
                None
            },
        }
    }
}

/// The node the preview shows: the chosen one where it is an enabled processing node, else
/// the one [`auto_preview`] falls back to.
pub open spec fn effective_preview(nodes: Seq<GraphNode>, edges: Seq<GraphEdge>, chosen: Option<Seq<char>>) -> Option<
    Seq<char>,
> {
    match chosen {
        Some(id) => match node_of(nodes, id) {
            Some(n) => if is_processing(nodes[n].role) && nodes[n].enabled {
                Some(id)
            } else {
                auto_preview(nodes, edges)
            },
            None => auto_preview(nodes, edges),
        },
        None => auto_preview(nodes, edges),
    }
}

proof fn lemma_feeding_from(nodes: Seq<GraphNode>, edges: Seq<GraphEdge>, reached: Seq<Seq<char>>, from: int)
    requires
        0 <= from,
    ensures
        feeding_from(nodes, edges, reached, from) matches Some(e) ==> from <= e < edges.len() && feeds_output(
            nodes,
            reached,
            edges[e],
        ),
    decreases edges.len() - from,
{
    if from < edges.len() && !feeds_output(nodes, reached, edges[from]) {
        lemma_feeding_from(nodes, edges, reached, from + 1);
    }
}

/// Whether `id` names a processing node, and the first node by that name is enabled.
pub open spec fn active_processing(nodes: Seq<GraphNode>, id: Seq<char>) -> bool {
    &&& exists|i: int|
        0 <= i < nodes.len() && #[trigger] nodes[i].id@ == id && (nodes[i].role == NodeRole::Processing
            || nodes[i].role == NodeRole::SetInput)
    &&& node_of(nodes, id) matches Some(n) && 0 <= n < nodes.len() && nodes[n].id@ == id && nodes[n].enabled
}

proof fn lemma_walk_back_active(nodes: Seq<GraphNode>, edges: Seq<GraphEdge>, current: Seq<char>, steps: nat)
    ensures
        walk_back(nodes, edges, current, steps) matches Some(s) ==> active_processing(nodes, s),
    decreases steps,
{
    if steps > 0 {
        lemma_edge_into(edges, current, 0);
        if let Some(e) = edge_into(edges, current, 0) {
            let source = edges[e].source@;
            lemma_node_from(nodes, source, 0);
            if let Some(n) = node_of(nodes, source) {
                if is_processing(nodes[n].role) && nodes[n].enabled {
                    assert(nodes[n].id@ == source);
                    assert(node_of(nodes, nodes[n].id@) == Some(n));
                } else if is_processing(nodes[n].role) {
                    lemma_walk_back_active(nodes, edges, nodes[n].id@, (steps - 1) as nat);
                }
            }
        }
    }
}

proof fn lemma_candidates_active(nodes: Seq<GraphNode>, reached: Seq<Seq<char>>, count: int)
    ensures
        forall|k: int|
            0 <= k < candidates(nodes, reached, count).len() ==> active_processing(
                nodes,
                #[trigger] candidates(nodes, reached, count)[k],
            ),
    decreases count,
{
    if count > 0 && count <= reached.len() {
        lemma_candidates_active(nodes, reached, count - 1);
        let id = reached[count - 1];
        if is_processing_id(nodes, id) && is_enabled_id(nodes, id) {
            lemma_node_from(nodes, id, 0);
            let list = candidates(nodes, reached, count);
            let before = candidates(nodes, reached, count - 1);
            assert forall|k: int| 0 <= k < list.len() implies active_processing(nodes, #[trigger] list[k]) by {
                if k < before.len() {
                    assert(list[k] == before[k]);
                } else {
                    assert(list[k] == id);
                }
            }
        }
    }
}

proof fn lemma_candidates_found(nodes: Seq<GraphNode>, reached: Seq<Seq<char>>, count: int, k: int)
    requires
        0 <= k < count <= reached.len(),
        is_processing_id(nodes, reached[k]),
        is_enabled_id(nodes, reached[k]),
    ensures
        candidates(nodes, reached, count).len() > 0,
    decreases count,
{
    if k < count - 1 {
        lemma_candidates_found(nodes, reached, count - 1, k);
    }
}

proof fn lemma_last_terminal_member(
    nodes: Seq<GraphNode>,
    edges: Seq<GraphEdge>,
    reached: Seq<Seq<char>>,
    list: Seq<Seq<char>>,
    count: int,
)
    ensures
        last_terminal(nodes, edges, reached, list, count) matches Some(s) ==> exists|k: int|
            0 <= k < list.len() && #[trigger] list[k] == s,
    decreases count,
{
    if count > 0 && count <= list.len() && continues(nodes, edges, reached, list[count - 1]) {
        lemma_last_terminal_member(nodes, edges, reached, list, count - 1);
    }
}

proof fn lemma_feeding_from_first(nodes: Seq<GraphNode>, edges: Seq<GraphEdge>, reached: Seq<Seq<char>>, from: int, e: int)
    requires
        0 <= from <= e < edges.len(),
        feeds_output(nodes, reached, edges[e]),
        forall|d: int| from <= d < e ==> !feeds_output(nodes, reached, #[trigger] edges[d]),
    ensures
        feeding_from(nodes, edges, reached, from) == Some(e),
    decreases e - from,
{
    if from < e {
        lemma_feeding_from_first(nodes, edges, reached, from + 1, e);
    }
}

/// With no node chosen, the preview shows the node whose wire is the first to feed an output:
/// where the first wire, in the order of the edges, that enters an output node by an image
/// input and leaves a processing node the Inputs reach leaves an enabled one, that node is
/// previewed, wherever the output and the source stand among the nodes.
pub proof fn lemma_first_wire_into_an_output_is_previewed(nodes: Seq<GraphNode>, edges: Seq<GraphEdge>, e: int, out: int, src: int)
    requires
        0 <= e < edges.len(),
        0 <= out < nodes.len(),
        nodes[out].id@ == edges[e].target@,
        nodes[out].role == NodeRole::Output,
        edges[e].target_handle@.len() >= 3 && edges[e].target_handle@.take(3) == "in:"@,
        reachable(nodes, edges).contains(edges[e].source@),
        node_of(nodes, edges[e].source@) == Some(src),
        nodes[src].role == NodeRole::Processing || nodes[src].role == NodeRole::SetInput,
        nodes[src].enabled,
        forall|d: int|
            0 <= d < e ==> !({
                &&& exists|k: int|
                    0 <= k < nodes.len() && #[trigger] nodes[k].id@ == (#[trigger] edges[d]).target@ && nodes[k].role
                        == NodeRole::Output
                &&& edges[d].target_handle@.len() >= 3 && edges[d].target_handle@.take(3) == "in:"@
                &&& reachable(nodes, edges).contains(edges[d].source@)
                &&& exists|k: int|
                    0 <= k < nodes.len() && #[trigger] nodes[k].id@ == edges[d].source@ && (nodes[k].role
                        == NodeRole::Processing || nodes[k].role == NodeRole::SetInput)
            }),
    ensures
        auto_preview(nodes, edges) == Some(edges[e].source@),
        effective_preview(nodes, edges, None) == Some(edges[e].source@),
{
    let reached = reachable(nodes, edges);
    lemma_node_from(nodes, edges[e].source@, 0);
    assert(nodes[out].role == NodeRole::Output);
    assert(is_output_id(nodes, edges[e].target@));
    assert(is_processing(nodes[src].role));
    assert(is_processing_id(nodes, edges[e].source@));
    assert(feeds_output(nodes, reached, edges[e]));
    assert forall|d: int| 0 <= d < e implies !feeds_output(nodes, reached, #[trigger] edges[d]) by {
        if feeds_output(nodes, reached, edges[d]) {
            let k = choose|k: int| 0 <= k < nodes.len() && nodes[k].id@ == edges[d].target@ && #[trigger] nodes[k].role == NodeRole::Output;
            let m = choose|m: int| 0 <= m < nodes.len() && nodes[m].id@ == edges[d].source@ && is_processing(#[trigger] nodes[m].role);
            assert(nodes[k].id@ == edges[d].target@);
            assert(nodes[m].id@ == edges[d].source@);
        }
    }
    lemma_feeding_from_first(nodes, edges, reached, 0, e);
}

/// The preview never lands on a node that makes no image. Whatever node it shows, chosen or
/// fallen back to, goes by the identifier of a processing node (a Process As Set node among
/// them) and the first node by that identifier is enabled; where no two nodes share an
/// identifier, it is an enabled processing node. A chosen node that is an enabled processing
/// node is shown as chosen; and where the Inputs reach any enabled processing node, the
/// preview shows something.
pub proof fn lemma_preview_shows_an_active_processing_node(
    nodes: Seq<GraphNode>,
    edges: Seq<GraphEdge>,
    chosen: Option<Seq<char>>,
)
    ensures
        effective_preview(nodes, edges, chosen) matches Some(s) ==> {
            &&& exists|i: int|
                0 <= i < nodes.len() && #[trigger] nodes[i].id@ == s && (nodes[i].role == NodeRole::Processing
                    || nodes[i].role == NodeRole::SetInput)
            &&& node_of(nodes, s) matches Some(n) && 0 <= n < nodes.len() && nodes[n].id@ == s && nodes[n].enabled
        },
        (forall|i: int, j: int| 0 <= i < j < nodes.len() ==> nodes[i].id@ != nodes[j].id@) ==> (effective_preview(
            nodes,
            edges,
            chosen,
        ) matches Some(s) ==> node_of(nodes, s) matches Some(n) && 0 <= n < nodes.len() && (nodes[n].role
            == NodeRole::Processing || nodes[n].role == NodeRole::SetInput) && nodes[n].enabled),
        chosen matches Some(id) && node_of(nodes, id) matches Some(n) && 0 <= n < nodes.len() && (nodes[n].role
            == NodeRole::Processing || nodes[n].role == NodeRole::SetInput) && nodes[n].enabled ==> effective_preview(
            nodes,
            edges,
            chosen,
        ) == chosen,
        (exists|k: int|
            0 <= k < reachable(nodes, edges).len() && is_processing_id(nodes, #[trigger] reachable(nodes, edges)[k])
                && is_enabled_id(nodes, reachable(nodes, edges)[k])) ==> effective_preview(nodes, edges, chosen) is Some,
{
    let reached = reachable(nodes, edges);
    lemma_feeding_from(nodes, edges, reached, 0);
    if let Some(e) = feeding_from(nodes, edges, reached, 0) {
        let source = edges[e].source@;
        lemma_node_from(nodes, source, 0);
        lemma_walk_back_active(nodes, edges, source, nodes.len());
    }
    let list = candidates(nodes, reached, reached.len() as int);
    lemma_candidates_active(nodes, reached, reached.len() as int);
    lemma_last_terminal_member(nodes, edges, reached, list, list.len() as int);
    if list.len() > 0 {
        assert(active_processing(nodes, list[list.len() - 1]));
    }
    if exists|k: int|
        0 <= k < reached.len() && is_processing_id(nodes, #[trigger] reached[k]) && is_enabled_id(nodes, reached[k]) {
        let k = choose|k: int|
            0 <= k < reached.len() && is_processing_id(nodes, #[trigger] reached[k]) && is_enabled_id(nodes, reached[k]);
        lemma_candidates_found(nodes, reached, reached.len() as int, k);
    }
    assert(auto_preview(nodes, edges) matches Some(s) ==> active_processing(nodes, s));
    if let Some(id) = chosen {
        lemma_node_from(nodes, id, 0);
    }
    assert(effective_preview(nodes, edges, chosen) matches Some(s) ==> active_processing(nodes, s));
}

fn find_feeding(nodes: &[GraphNode], edges: &[GraphEdge], reached: &Vec<String>) -> (found: Option<usize>)
    ensures
        match feeding_from(nodes@, edges@, ids(reached@), 0) {
            Some(e) => found == Some(e as usize),
            None => found is None,
        },
        found matches Some(e) ==> e < edges@.len(),
{
    proof {
        lemma_feeding_from(nodes@, edges@, ids(reached@), 0);
    }
    let mut index: usize = 0;
    while index < edges.len()
        invariant
            index <= edges@.len(),
            feeding_from(nodes@, edges@, ids(reached@), 0) == feeding_from(nodes@, edges@, ids(reached@), index as int),
        decreases edges@.len() - index,
    {
        let edge = &edges[index];
        if output_id(nodes, edge.target.as_str()) && in_port(edge.target_handle.as_str()) && holds_id(
            reached,
            edge.source.as_str(),
        ) && processing_id(nodes, edge.source.as_str()) {
            return Some(index);
        }
        index = index + 1;
    }
    None
}

fn candidate_list(nodes: &[GraphNode], reached: &Vec<String>) -> (list: Vec<String>)
    ensures
        ids(list@) == candidates(nodes@, ids(reached@), reached@.len() as int),
{
    let mut list: Vec<String> = Vec::new();
    let mut index: usize = 0;
    while index < reached.len()
        invariant
            index <= reached@.len(),
            ids(list@) == candidates(nodes@, ids(reached@), index as int),
        decreases reached@.len() - index,
    {
        let id = reached[index].as_str();
        assert(id@ == ids(reached@)[index as int]);
        if processing_id(nodes, id) && enabled_id(nodes, id) {
            let ghost before = ids(list@);
            list.push(reached[index].clone());
            assert(ids(list@) =~= before.push(ids(reached@)[index as int]));
        }
        index = index + 1;
    }
    list
}

fn goes_on(nodes: &[GraphNode], edges: &[GraphEdge], reached: &Vec<String>, id: &str) -> (more: bool)
    ensures
        more == continues(nodes@, edges@, ids(reached@), id@),
{
    let mut index: usize = 0;
    while index < edges.len()
        invariant
            index <= edges@.len(),
            forall|i: int|
                0 <= i < index ==> !(#[trigger] edges@[i].source@ == id@ && ids(reached@).contains(edges@[i].target@)
                    && !is_output_id(nodes@, edges@[i].target@)),
        decreases edges@.len() - index,
    {
        let edge = &edges[index];
        if same_text(edge.source.as_str(), id) && holds_id(reached, edge.target.as_str()) && !output_id(
            nodes,
            edge.target.as_str(),
        ) {
            return true;
        }
        index = index + 1;
    }
    false
}

/// The node the preview falls back to when none is chosen.
pub fn auto_preview_node(nodes: &[GraphNode], edges: &[GraphEdge]) -> (found: Option<String>)
    ensures
        match auto_preview(nodes@, edges@) {
            Some(id) => found matches Some(s) && s@ == id,
            None => found is None,
        },
{
    let reached = reachable_ids(nodes, edges);
    let ghost seen = ids(reached@);
    proof {
        lemma_feeding_from(nodes@, edges@, seen, 0);
    }
    match find_feeding(nodes, edges, &reached) {
        Some(e) => {
            let source = edges[e].source.as_str();
            if enabled_id(nodes, source) {
                return Some(edges[e].source.clone());
            }
            match non_bypassed_predecessor(nodes, edges, source) {
                Some(earlier) => {
                    return Some(earlier);
                },
                None => {},
            }
        },
        None => {},
    }
    let list = candidate_list(nodes, &reached);
    let ghost fallback = match last_terminal(nodes@, edges@, seen, ids(list@), list@.len() as int) {
        Some(id) => Some(id),
        None => if ids(list@).len() > 0 {
            Some(ids(list@).last())
        } else {
            None
        },
    };
    assert(auto_preview(nodes@, edges@) == fallback);
    let mut count: usize = list.len();
    while count > 0
        invariant
            count <= list@.len(),
            seen == ids(reached@),
            seen == reachable(nodes@, edges@),
            ids(list@) == candidates(nodes@, seen, seen.len() as int),
            auto_preview(nodes@, edges@) == fallback,
            fallback == match last_terminal(nodes@, edges@, seen, ids(list@), list@.len() as int) {
                Some(id) => Some(id),
                None => if ids(list@).len() > 0 {
                    Some(ids(list@).last())
                } else {
                    None
                },
            },
            last_terminal(nodes@, edges@, seen, ids(list@), list@.len() as int) == last_terminal(
                nodes@,
                edges@,
                seen,
                ids(list@),
                count as int,
            ),
        decreases count,
    {
        let id = list[count - 1].as_str();
        assert(id@ == ids(list@)[count - 1]);
        if !goes_on(nodes, edges, &reached, id) {
            return Some(list[count - 1].clone());
        }
        count = count - 1;
    }
    if list.len() > 0 {
        assert(ids(list@).last() == list@[list@.len() - 1]@);
        Some(list[list.len() - 1].clone())
    } else {
        None
    }
}

/// The node the preview shows: the chosen one where it is an enabled processing node, else
/// the one the graph falls back to.
pub fn effective_preview_node(nodes: &[GraphNode], edges: &[GraphEdge], chosen: Option<&str>) -> (found: Option<
    String,
>)
    ensures
        match effective_preview(
            nodes@,
            edges@,
            match chosen {
                Some(id) => Some(id@),
                None => None,
            },
        ) {
            Some(id) => found matches Some(s) && s@ == id,
            None => found is None,
        },
{
    if let Some(id) = chosen {
        proof {
            lemma_node_from(nodes@, id@, 0);
        }
        if let Some(n) = find_node(nodes, id) {
            let role = nodes[n].role;
            if (role == NodeRole::Processing || role == NodeRole::SetInput) && nodes[n].enabled {
                return Some(String::from_str(id));
            }
        }
    }
    auto_preview_node(nodes, edges)
}

/// Whether `source` feeds `target` directly: an edge runs from it to `target`, and it names a
/// node of the graph.
pub open spec fn linked(nodes: Seq<GraphNode>, edges: Seq<GraphEdge>, target: Seq<char>, source: Seq<char>) -> bool {
    &&& node_of(nodes, source) is Some
    &&& exists|i: int| 0 <= i < edges.len() && #[trigger] edges[i].source@ == source && edges[i].target@ == target
}

/// Whether `path` walks against the edges, each step to a node that feeds the one before.
pub open spec fn is_upstream_path(nodes: Seq<GraphNode>, edges: Seq<GraphEdge>, path: Seq<Seq<char>>) -> bool {
    &&& path.len() >= 2
    &&& forall|i: int| 0 <= i < path.len() - 1 ==> linked(nodes, edges, #[trigger] path[i], path[i + 1])
}

/// Whether `id` lies upstream of `start`: some chain of edges leads from it to `start`
/// through nodes of the graph.
pub open spec fn upstream_of(nodes: Seq<GraphNode>, edges: Seq<GraphEdge>, start: Seq<char>, id: Seq<char>) -> bool {
    exists|path: Seq<Seq<char>>|
        #[trigger] is_upstream_path(nodes, edges, path) && path[0] == start && path.last() == id
}

/// Whether the node `id` names was made from `definition`, or is a Process As Set node.
pub open spec fn marks_set(nodes: Seq<GraphNode>, id: Seq<char>, definition: Seq<char>) -> bool {
    match node_of(nodes, id) {
        Some(n) => nodes[n].definition_id@ == definition || nodes[n].role == NodeRole::SetInput,
        None => false,
    }
}

/// Whether a node made from `definition`, or a Process As Set node, lies upstream of `start`.
pub open spec fn set_upstream(nodes: Seq<GraphNode>, edges: Seq<GraphEdge>, start: Seq<char>, definition: Seq<char>) -> bool {
    exists|id: Seq<char>| #[trigger] upstream_of(nodes, edges, start, id) && marks_set(nodes, id, definition)
}

/// The identifiers of the edges' sources.
pub open spec fn sources(edges: Seq<GraphEdge>) -> Set<Seq<char>> {
    Set::new(|id: Seq<char>| exists|i: int| 0 <= i < edges.len() && #[trigger] edges[i].source@ == id)
}

proof fn lemma_sources_bounded(edges: Seq<GraphEdge>)
    ensures
        sources(edges).finite(),
        sources(edges).len() <= edges.len(),
{
    let list = edges.map_values(|edge: GraphEdge| edge.source@);
    assert(sources(edges) =~= list.to_set()) by {
        assert forall|id: Seq<char>| sources(edges).contains(id) implies list.to_set().contains(id) by {
            let i = choose|i: int| 0 <= i < edges.len() && #[trigger] edges[i].source@ == id;
            assert(list[i] == id);
        }
        assert forall|id: Seq<char>| list.to_set().contains(id) implies sources(edges).contains(id) by {
            let i = choose|i: int| 0 <= i < list.len() && list[i] == id;
            assert(edges[i].source@ == id);
        }
    }
    list.lemma_cardinality_of_set();
    vstd::seq_lib::seq_to_set_is_finite(list);
}

/// A list of distinct edge sources is no longer than the list of edges.
proof fn lemma_visited_bounded(edges: Seq<GraphEdge>, visited: Seq<Seq<char>>)
    requires
        visited.no_duplicates(),
        forall|i: int| 0 <= i < visited.len() ==> sources(edges).contains(#[trigger] visited[i]),
    ensures
        visited.len() <= edges.len(),
{
    lemma_sources_bounded(edges);
    visited.unique_seq_to_set();
    assert(visited.to_set().subset_of(sources(edges)));
    vstd::set_lib::lemma_len_subset(visited.to_set(), sources(edges));
}

/// One more step against an edge extends a walk upstream.
proof fn lemma_extend_upstream(
    nodes: Seq<GraphNode>,
    edges: Seq<GraphEdge>,
    start: Seq<char>,
    target: Seq<char>,
    source: Seq<char>,
)
    requires
        target == start || upstream_of(nodes, edges, start, target),
        linked(nodes, edges, target, source),
    ensures
        upstream_of(nodes, edges, start, source),
{
    if target == start {
        let path = seq![start, source];
        assert(is_upstream_path(nodes, edges, path));
    } else {
        let path = choose|path: Seq<Seq<char>>|
            #[trigger] is_upstream_path(nodes, edges, path) && path[0] == start && path.last() == target;
        let longer = path.push(source);
        assert forall|i: int| 0 <= i < longer.len() - 1 implies linked(nodes, edges, #[trigger] longer[i], longer[i + 1]) by {
            if i < path.len() - 1 {
                assert(longer[i] == path[i] && longer[i + 1] == path[i + 1]);
            }
        }
        assert(is_upstream_path(nodes, edges, longer));
    }
}

/// When every edge into a node that has been taken up comes from a visited node, and every
/// visited node of the graph has been taken up, everything upstream of `start` was visited.
proof fn lemma_upstream_visited(
    nodes: Seq<GraphNode>,
    edges: Seq<GraphEdge>,
    start: Seq<char>,
    visited: Seq<Seq<char>>,
    done: Set<Seq<char>>,
    path: Seq<Seq<char>>,
    k: int,
)
    requires
        is_upstream_path(nodes, edges, path),
        path[0] == start,
        done.contains(start),
        forall|i: int|
            0 <= i < edges.len() && done.contains(#[trigger] edges[i].target@) ==> visited.contains(
                edges[i].source@,
            ),
        forall|v: Seq<char>| visited.contains(v) && node_of(nodes, v) is Some ==> #[trigger] done.contains(v),
        1 <= k < path.len(),
    ensures
        visited.contains(path[k]),
        node_of(nodes, path[k]) is Some,
    decreases k,
{
    assert(linked(nodes, edges, path[k - 1], path[k]));
    let i = choose|i: int| 0 <= i < edges.len() && #[trigger] edges[i].source@ == path[k] && edges[i].target@ == path[k - 1];
    if k > 1 {
        lemma_upstream_visited(nodes, edges, start, visited, done, path, k - 1);
        assert(done.contains(path[k - 1]));
    }
    assert(edges[i].target@ == path[k - 1]);
}

/// True when a node made from `definition_id`, or a Process As Set node, appears anywhere
/// upstream of `node_id`.
pub fn upstream_contains(nodes: &[GraphNode], edges: &[GraphEdge], node_id: &str, definition_id: &str) -> (found: bool)
    ensures
        found == set_upstream(nodes@, edges@, node_id@, definition_id@),
{
    let ghost start = node_id@;
    let mut pending: Vec<String> = Vec::new();
    pending.push(String::from_str(node_id));
    assert(ids(pending@)[0] == start);
    let mut visited: Vec<String> = Vec::new();
    let ghost mut done: Set<Seq<char>> = Set::empty();
    proof {
        lemma_sources_bounded(edges@);
    }
    while pending.len() > 0
        invariant
            start == node_id@,
            sources(edges@).finite(),
            sources(edges@).len() <= edges@.len(),
            ids(visited@).no_duplicates(),
            forall|i: int| 0 <= i < visited@.len() ==> sources(edges@).contains(#[trigger] ids(visited@)[i]),
            forall|v: Seq<char>|
                ids(visited@).contains(v) && node_of(nodes@, v) is Some ==> upstream_of(nodes@, edges@, start, v),
            forall|j: int|
                0 <= j < pending@.len() ==> {
                    let p = #[trigger] ids(pending@)[j];
                    p == start || (upstream_of(nodes@, edges@, start, p) && node_of(nodes@, p) is Some)
                },
            forall|v: Seq<char>|
                ids(visited@).contains(v) && node_of(nodes@, v) is Some ==> !marks_set(nodes@, v, definition_id@),
            forall|i: int|
                0 <= i < edges@.len() && done.contains(#[trigger] edges@[i].target@) ==> ids(
                    visited@,
                ).contains(edges@[i].source@),
            forall|v: Seq<char>|
                ids(visited@).contains(v) && node_of(nodes@, v) is Some ==> ids(pending@).contains(v)
                    || #[trigger] done.contains(v),
            ids(pending@).contains(start) || done.contains(start),
            visited@.len() <= edges@.len(),
        decreases edges@.len() - visited@.len(), pending@.len(),
    {
        let ghost before_pop = ids(pending@);
        let target = pending.pop().unwrap();
        let ghost popped = ids(pending@);
        let ghost seen_before = ids(visited@);
        proof {
            assert(popped =~= before_pop.drop_last());
            assert(target@ == before_pop.last());
            assert forall|v: Seq<char>| before_pop.contains(v) implies popped.contains(v) || v == target@ by {
                let j = choose|j: int| 0 <= j < before_pop.len() && before_pop[j] == v;
                if j < before_pop.len() - 1 {
                    assert(popped[j] == v);
                }
            }
            assert(target@ == start || (upstream_of(nodes@, edges@, start, target@) && node_of(nodes@, target@) is Some)) by {
                assert(ids(pending@).len() + 1 == before_pop.len());
                let last = before_pop.len() - 1;
                assert(before_pop[last] == target@);
            }
        }
        let mut index: usize = 0;
        while index < edges.len()
            invariant
                start == node_id@,
                sources(edges@).finite(),
                sources(edges@).len() <= edges@.len(),
                index <= edges@.len(),
                target@ == start || (upstream_of(nodes@, edges@, start, target@) && node_of(nodes@, target@) is Some),
                ids(visited@).no_duplicates(),
                forall|i: int| 0 <= i < visited@.len() ==> sources(edges@).contains(#[trigger] ids(visited@)[i]),
                visited@.len() >= seen_before.len(),
                visited@.len() <= edges@.len(),
                visited@.len() == seen_before.len() ==> pending@.len() == popped.len(),
                forall|v: Seq<char>|
                    ids(visited@).contains(v) && node_of(nodes@, v) is Some ==> upstream_of(nodes@, edges@, start, v),
                forall|j: int|
                    0 <= j < pending@.len() ==> {
                        let p = #[trigger] ids(pending@)[j];
                        p == start || (upstream_of(nodes@, edges@, start, p) && node_of(nodes@, p) is Some)
                    },
                forall|v: Seq<char>|
                    ids(visited@).contains(v) && node_of(nodes@, v) is Some ==> !marks_set(nodes@, v, definition_id@),
                forall|i: int|
                    0 <= i < edges@.len() && done.contains(#[trigger] edges@[i].target@) ==> ids(
                        visited@,
                    ).contains(edges@[i].source@),
                forall|i: int|
                    0 <= i < index && #[trigger] edges@[i].target@ == target@ ==> ids(visited@).contains(
                        edges@[i].source@,
                    ),
                forall|v: Seq<char>|
                    ids(visited@).contains(v) && node_of(nodes@, v) is Some ==> ids(pending@).contains(v)
                        || #[trigger] done.contains(v) || v == target@,
                ids(pending@).contains(start) || done.contains(start) || target@ == start,
            decreases edges@.len() - index,
        {
            let edge = &edges[index];
            if same_text(edge.target.as_str(), target.as_str()) && !holds_id(&visited, edge.source.as_str()) {
                let ghost before_visit = ids(visited@);
                visited.push(edge.source.clone());
                proof {
                    assert(ids(visited@) =~= before_visit.push(edge.source@));
                    assert forall|w: Seq<char>| before_visit.contains(w) implies #[trigger] ids(visited@).contains(w) by {
                        let k = choose|k: int| 0 <= k < before_visit.len() && before_visit[k] == w;
                        assert(ids(visited@)[k] == w);
                    }
                    assert(ids(visited@)[visited@.len() - 1] == edge.source@);
                    assert(ids(visited@).contains(edge.source@));
                    assert(sources(edges@).contains(edge.source@));
                    lemma_visited_bounded(edges@, ids(visited@));
                }
                proof {
                    lemma_node_from(nodes@, edge.source@, 0);
                }
                let found_node = find_node(nodes, edge.source.as_str());
                proof {
                    assert forall|v: Seq<char>|
                        ids(visited@).contains(v) && node_of(nodes@, v) is Some implies upstream_of(
                            nodes@,
                            edges@,
                            start,
                            v,
                        ) by {
                        if v == edge.source@ {
                            assert(edges@[index as int].source@ == edge.source@ && edges@[index as int].target@
                                == target@);
                            assert(linked(nodes@, edges@, target@, edge.source@));
                            lemma_extend_upstream(nodes@, edges@, start, target@, edge.source@);
                        } else {
                            let k = choose|k: int| 0 <= k < ids(visited@).len() && ids(visited@)[k] == v;
                            assert(before_visit[k] == v);
                            assert(before_visit.contains(v));
                        }
                    }
                }
                if let Some(n) = found_node {
                    if same_text(nodes[n].definition_id.as_str(), definition_id)
                        || nodes[n].role == NodeRole::SetInput {
                        proof {
                            assert(marks_set(nodes@, edge.source@, definition_id@));
                            assert(ids(visited@)[visited@.len() - 1] == edge.source@);
                            assert(ids(visited@).contains(edge.source@));
                            assert(upstream_of(nodes@, edges@, start, edge.source@));
                            assert(set_upstream(nodes@, edges@, node_id@, definition_id@)) by {
                                let id = edge.source@;
                                assert(upstream_of(nodes@, edges@, start, id));
                                assert(marks_set(nodes@, id, definition_id@));
                                assert(upstream_of(nodes@, edges@, node_id@, id) && marks_set(nodes@, id, definition_id@));
                            }
                        }
                        return true;
                    }
                    proof {
                        assert(!marks_set(nodes@, edge.source@, definition_id@));
                    }
                    let ghost before_push = ids(pending@);
                    pending.push(nodes[n].id.clone());
                    assert(ids(pending@) =~= before_push.push(edge.source@));
                    assert(ids(pending@)[pending@.len() - 1] == edge.source@);
                    assert forall|w: Seq<char>| before_push.contains(w) implies #[trigger] ids(pending@).contains(w) by {
                        let k = choose|k: int| 0 <= k < before_push.len() && before_push[k] == w;
                        assert(ids(pending@)[k] == w);
                    }
                }
                proof {
                    assert forall|v: Seq<char>|
                        ids(visited@).contains(v) && node_of(nodes@, v) is Some implies !marks_set(
                            nodes@,
                            v,
                            definition_id@,
                        ) by {
                        if v != edge.source@ {
                            let k = choose|k: int| 0 <= k < ids(visited@).len() && ids(visited@)[k] == v;
                            assert(before_visit[k] == v);
                            assert(before_visit.contains(v));
                        }
                    }
                }
            }
            index = index + 1;
        }
        proof {
            done = done.insert(target@);
        }
    }
    proof {
        assert forall|id: Seq<char>| #[trigger] upstream_of(nodes@, edges@, start, id) implies !marks_set(
            nodes@,
            id,
            definition_id@,
        ) by {
            let path = choose|path: Seq<Seq<char>>|
                #[trigger] is_upstream_path(nodes@, edges@, path) && path[0] == start && path.last() == id;
            lemma_upstream_visited(nodes@, edges@, start, ids(visited@), done, path, path.len() - 1);
        }
    }
    false
}

/// One look along the first `count` edges into `current`, as the search for an upstream Input
/// takes it: each edge from a source not visited yet marks the source visited; a source that
/// is an Input node ends the search with it, and any other node of the graph is put on the
/// stack to be looked at later. Gives what was found, the stack and the visited sources.
pub open spec fn look_back(
    nodes: Seq<GraphNode>,
    edges: Seq<GraphEdge>,
    current: Seq<char>,
    pending: Seq<Seq<char>>,
    visited: Set<Seq<char>>,
    count: int,
) -> (Option<Seq<char>>, Seq<Seq<char>>, Set<Seq<char>>)
    decreases count,
{
    if count <= 0 || count > edges.len() {
        (None, pending, visited)
    } else {
        let (found, stack, seen) = look_back(nodes, edges, current, pending, visited, count - 1);
        let edge = edges[count - 1];
        if found is Some || edge.target@ != current || seen.contains(edge.source@) {
            (found, stack, seen)
        } else {
            let marked = seen.insert(edge.source@);
            match node_of(nodes, edge.source@) {
                None => (None, stack, marked),
                Some(n) => if nodes[n].role == NodeRole::Input {
                    (Some(nodes[n].id@), stack, marked)
                } else {
                    (None, stack.push(nodes[n].id@), marked)
                },
            }
        }
    }
}

/// The depth-first search for an upstream Input from the stack `pending`, for at most `steps`
/// nodes taken off it.
pub open spec fn search_back(
    nodes: Seq<GraphNode>,
    edges: Seq<GraphEdge>,
    pending: Seq<Seq<char>>,
    visited: Set<Seq<char>>,
    steps: nat,
) -> Option<Seq<char>>
    decreases steps,
{
    if steps == 0 || pending.len() == 0 {
        None
    } else {
        let (found, stack, seen) = look_back(
            nodes,
            edges,
            pending.last(),
            pending.drop_last(),
            visited,
            edges.len() as int,
        );
        if found is Some {
            found
        } else {
            search_back(nodes, edges, stack, seen, (steps - 1) as nat)
        }
    }
}

/// The Input node that feeds `start`, as a depth-first walk back along the edges finds it
/// first. Each node taken off the stack was put on it with a source visited for the first
/// time, so the walk takes at most one more node than there are edges.
pub open spec fn upstream_input_of(nodes: Seq<GraphNode>, edges: Seq<GraphEdge>, start: Seq<char>) -> Option<
    Seq<char>,
> {
    search_back(nodes, edges, seq![start], Set::empty(), (edges.len() + 2) as nat)
}

proof fn lemma_look_back(
    nodes: Seq<GraphNode>,
    edges: Seq<GraphEdge>,
    current: Seq<char>,
    pending: Seq<Seq<char>>,
    visited: Set<Seq<char>>,
    count: int,
)
    requires
        0 <= count <= edges.len(),
        visited.finite(),
        visited.subset_of(sources(edges)),
    ensures
        ({
            let (found, stack, seen) = look_back(nodes, edges, current, pending, visited, count);
            &&& seen.finite()
            &&& seen.subset_of(sources(edges))
            &&& visited.subset_of(seen)
            &&& stack.len() - pending.len() <= seen.len() - visited.len()
            &&& stack.len() >= pending.len()
        }),
    decreases count,
{
    if count > 0 {
        lemma_look_back(nodes, edges, current, pending, visited, count - 1);
        let (found, stack, seen) = look_back(nodes, edges, current, pending, visited, count - 1);
        let edge = edges[count - 1];
        if !(found is Some || edge.target@ != current || seen.contains(edge.source@)) {
            assert(sources(edges).contains(edge.source@));
            assert(seen.insert(edge.source@).len() == seen.len() + 1);
        }
    }
}

/// Once a look along the edges has found an Input, the later edges change nothing.
proof fn lemma_look_back_found(
    nodes: Seq<GraphNode>,
    edges: Seq<GraphEdge>,
    current: Seq<char>,
    pending: Seq<Seq<char>>,
    visited: Set<Seq<char>>,
    count: int,
)
    requires
        0 <= count <= edges.len(),
        look_back(nodes, edges, current, pending, visited, count).0 is Some,
    ensures
        look_back(nodes, edges, current, pending, visited, edges.len() as int).0 == look_back(
            nodes,
            edges,
            current,
            pending,
            visited,
            count,
        ).0,
    decreases edges.len() - count,
{
    if count < edges.len() {
        lemma_look_back_found(nodes, edges, current, pending, visited, count + 1);
    }
}

/// The Input node that feeds `node_id`, as a depth-first walk back along the edges finds it
/// first.
pub fn upstream_input(nodes: &[GraphNode], edges: &[GraphEdge], node_id: &str) -> (found: Option<String>)
    ensures
        match upstream_input_of(nodes@, edges@, node_id@) {
            Some(id) => found matches Some(s) && s@ == id,
            None => found is None,
        },
        found is None ==> forall|id: Seq<char>|
            #[trigger] upstream_of(nodes@, edges@, node_id@, id) ==> !names_input(nodes@, id),
{
    let ghost limit: nat = (edges@.len() + 2) as nat;
    let mut pending: Vec<String> = Vec::new();
    pending.push(String::from_str(node_id));
    let mut visited: Vec<String> = Vec::new();
    let ghost mut seen: Set<Seq<char>> = Set::empty();
    let ghost mut taken: nat = 0;
    let ghost mut done: Set<Seq<char>> = Set::empty();
    let ghost start = node_id@;
    proof {
        lemma_sources_bounded(edges@);
        assert(ids(pending@) =~= seq![node_id@]);
        assert(ids(pending@)[0] == start);
    }
    while pending.len() > 0
        invariant
            sources(edges@).finite(),
            sources(edges@).len() <= edges@.len(),
            seen.finite(),
            seen.subset_of(sources(edges@)),
            forall|v: Seq<char>| seen.contains(v) == ids(visited@).contains(v),
            taken + pending@.len() <= 1 + seen.len(),
            limit == edges@.len() + 2,
            search_back(nodes@, edges@, ids(pending@), seen, (limit - taken) as nat) == upstream_input_of(
                nodes@,
                edges@,
                node_id@,
            ),
            start == node_id@,
            ids(pending@).contains(start) || done.contains(start),
            forall|i: int|
                0 <= i < edges@.len() && done.contains(#[trigger] edges@[i].target@) ==> seen.contains(
                    edges@[i].source@,
                ),
            forall|v: Seq<char>|
                seen.contains(v) && node_of(nodes@, v) is Some ==> ids(pending@).contains(v) || #[trigger] done.contains(v),
            forall|v: Seq<char>| #[trigger] seen.contains(v) ==> !names_input(nodes@, v),
        decreases limit - taken,
    {
        proof {
            vstd::set_lib::lemma_len_subset(seen, sources(edges@));
        }
        let ghost before_pop = ids(pending@);
        let current = pending.pop().unwrap();
        proof {
            assert(ids(pending@) =~= before_pop.drop_last());
            assert(current@ == before_pop.last());
            assert forall|v: Seq<char>| before_pop.contains(v) implies ids(pending@).contains(v) || v == current@ by {
                let j = choose|j: int| 0 <= j < before_pop.len() && before_pop[j] == v;
                if j < before_pop.len() - 1 {
                    assert(ids(pending@)[j] == v);
                }
            }
        }
        let ghost outcome = look_back(nodes@, edges@, current@, ids(pending@), seen, edges@.len() as int);
        assert(before_pop.len() > 0 && taken < limit);
        let ghost seen_before = seen;
        let ghost pending_before = ids(pending@);
        proof {
            lemma_look_back(nodes@, edges@, current@, ids(pending@), seen, edges@.len() as int);
        }
        let mut index: usize = 0;
        while index < edges.len()
            invariant
                index <= edges@.len(),
                outcome == look_back(nodes@, edges@, current@, pending_before, seen_before, edges@.len() as int),
                before_pop.len() > 0,
                before_pop.last() == current@,
                before_pop.drop_last() == pending_before,
                limit == edges@.len() + 2,
                taken < limit,
                search_back(nodes@, edges@, before_pop, seen_before, (limit - taken) as nat) == upstream_input_of(
                    nodes@,
                    edges@,
                    node_id@,
                ),
                look_back(nodes@, edges@, current@, pending_before, seen_before, index as int) == (
                    None::<Seq<char>>,
                    ids(pending@),
                    seen,
                ),
                forall|v: Seq<char>| seen.contains(v) == ids(visited@).contains(v),
                start == node_id@,
                ids(pending@).contains(start) || done.contains(start) || current@ == start,
                forall|i: int|
                    0 <= i < edges@.len() && done.contains(#[trigger] edges@[i].target@) ==> seen.contains(
                        edges@[i].source@,
                    ),
                forall|i: int|
                    0 <= i < index && #[trigger] edges@[i].target@ == current@ ==> seen.contains(edges@[i].source@),
                forall|v: Seq<char>|
                    seen.contains(v) && node_of(nodes@, v) is Some ==> ids(pending@).contains(v) || #[trigger] done.contains(v)
                        || v == current@,
                forall|v: Seq<char>| #[trigger] seen.contains(v) ==> !names_input(nodes@, v),
            decreases edges@.len() - index,
        {
            let edge = &edges[index];
            if same_text(edge.target.as_str(), current.as_str()) && !holds_id(&visited, edge.source.as_str()) {
                let ghost before_visit = ids(visited@);
                visited.push(edge.source.clone());
                proof {
                    seen = seen.insert(edge.source@);
                    assert(ids(visited@) =~= before_visit.push(edge.source@));
                    assert forall|v: Seq<char>| seen.contains(v) == ids(visited@).contains(v) by {
                        if ids(visited@).contains(v) {
                            let k = choose|k: int| 0 <= k < ids(visited@).len() && ids(visited@)[k] == v;
                            if k < before_visit.len() {
                                assert(before_visit[k] == v);
                            }
                        }
                        if before_visit.contains(v) {
                            let k = choose|k: int| 0 <= k < before_visit.len() && before_visit[k] == v;
                            assert(ids(visited@)[k] == v);
                        }
                        if v == edge.source@ {
                            assert(ids(visited@)[before_visit.len() as int] == v);
                        }
                    }
                    lemma_node_from(nodes@, edge.source@, 0);
                }
                if let Some(n) = find_node(nodes, edge.source.as_str()) {
                    if nodes[n].role == NodeRole::Input {
                        proof {
                            assert(look_back(nodes@, edges@, current@, pending_before, seen_before, index as int + 1).0
                                == Some(nodes@[n as int].id@));
                            lemma_look_back_found(nodes@, edges@, current@, pending_before, seen_before, index as int + 1);
                        }
                        return Some(nodes[n].id.clone());
                    }
                    let ghost before_push = ids(pending@);
                    pending.push(nodes[n].id.clone());
                    proof {
                        assert(ids(pending@) =~= before_push.push(nodes@[n as int].id@));
                        assert(ids(pending@)[pending@.len() - 1] == edge.source@);
                        assert forall|w: Seq<char>| before_push.contains(w) implies #[trigger] ids(pending@).contains(w) by {
                            let k = choose|k: int| 0 <= k < before_push.len() && before_push[k] == w;
                            assert(ids(pending@)[k] == w);
                        }
                    }
                }
            }
            index = index + 1;
        }
        proof {
            taken = taken + 1;
            done = done.insert(current@);
        }
    }
    proof {
        assert forall|id: Seq<char>| #[trigger] upstream_of(nodes@, edges@, node_id@, id) implies !names_input(
            nodes@,
            id,
        ) by {
            let path = choose|path: Seq<Seq<char>>|
                #[trigger] is_upstream_path(nodes@, edges@, path) && path[0] == start && path.last() == id;
            assert forall|v: Seq<char>| ids(visited@).contains(v) && node_of(nodes@, v) is Some implies #[trigger] done.contains(v) by {
                assert(seen.contains(v));
            }
            lemma_upstream_visited(nodes@, edges@, start, ids(visited@), done, path, path.len() - 1);
            assert(seen.contains(id));
        }
    }
    None
}

/// The Input branch to show: the selected node where it is an Input, else the Input that
/// feeds it; otherwise the branch already shown while it is still an Input, or the first
/// Input.
pub open spec fn synced_input(
    nodes: Seq<GraphNode>,
    edges: Seq<GraphEdge>,
    selected: Option<Seq<char>>,
    active: Option<Seq<char>>,
) -> Option<Seq<char>> {
    let inputs = input_ids(nodes, nodes.len() as int);
    let chosen = match selected {
        Some(id) => if inputs.contains(id) {
            Some(id)
        } else {
            upstream_input_of(nodes, edges, id)
        },
        None => None,
    };
    if chosen is Some {
        chosen
    } else {
        match active {
            Some(id) => if inputs.contains(id) {
                Some(id)
            } else if inputs.len() > 0 {
                Some(inputs[0])
            } else {
                None
            },
            None => if inputs.len() > 0 {
                Some(inputs[0])
            } else {
                None
            },
        }
    }
}

/// Chooses the Input branch to show, following the selected node when it has one.
pub fn sync_active_input(
    nodes: &[GraphNode],
    edges: &[GraphEdge],
    selected: Option<&str>,
    active: Option<String>,
) -> (shown: Option<String>)
    ensures
        match synced_input(
            nodes@,
            edges@,
            match selected {
                Some(id) => Some(id@),
                None => None,
            },
            match active {
                Some(id) => Some(id@),
                None => None,
            },
        ) {
            Some(id) => shown matches Some(s) && s@ == id,
            None => shown is None,
        },
{
    let inputs = input_list(nodes);
    if let Some(id) = selected {
        if holds_id(&inputs, id) {
            return Some(String::from_str(id));
        }
        if let Some(upstream) = upstream_input(nodes, edges, id) {
            return Some(upstream);
        }
    }
    match active {
        Some(id) => {
            if holds_id(&inputs, id.as_str()) {
                return Some(id);
            }
        },
        None => {},
    }
    if inputs.len() > 0 {
        assert(ids(inputs@)[0] == inputs@[0]@);
        Some(inputs[0].clone())
    } else {
        None
    }
}

/// Whether the first node with identifier `id` is an Input node.
pub open spec fn names_input(nodes: Seq<GraphNode>, id: Seq<char>) -> bool {
    match node_of(nodes, id) {
        Some(n) => nodes[n].role == NodeRole::Input,
        None => false,
    }
}

/// Whether every node on a stack is `start` or a node of the graph upstream of it.
pub open spec fn stack_upstream(nodes: Seq<GraphNode>, edges: Seq<GraphEdge>, start: Seq<char>, stack: Seq<Seq<char>>) -> bool {
    forall|i: int|
        0 <= i < stack.len() ==> #[trigger] stack[i] == start || upstream_of(nodes, edges, start, stack[i])
}

proof fn lemma_look_back_upstream(
    nodes: Seq<GraphNode>,
    edges: Seq<GraphEdge>,
    start: Seq<char>,
    current: Seq<char>,
    pending: Seq<Seq<char>>,
    visited: Set<Seq<char>>,
    count: int,
)
    requires
        0 <= count <= edges.len(),
        current == start || upstream_of(nodes, edges, start, current),
        stack_upstream(nodes, edges, start, pending),
    ensures
        ({
            let (found, stack, seen) = look_back(nodes, edges, current, pending, visited, count);
            &&& stack_upstream(nodes, edges, start, stack)
            &&& found matches Some(id) ==> (upstream_of(nodes, edges, start, id) && names_input(nodes, id))
        }),
    decreases count,
{
    if count > 0 {
        lemma_look_back_upstream(nodes, edges, start, current, pending, visited, count - 1);
        let (found, stack, seen) = look_back(nodes, edges, current, pending, visited, count - 1);
        let edge = edges[count - 1];
        if !(found is Some || edge.target@ != current || seen.contains(edge.source@)) {
            lemma_node_from(nodes, edge.source@, 0);
            if let Some(n) = node_of(nodes, edge.source@) {
                assert(edges[count - 1].source@ == edge.source@ && edges[count - 1].target@ == current);
                assert(linked(nodes, edges, current, edge.source@));
                lemma_extend_upstream(nodes, edges, start, current, edge.source@);
                let pushed = stack.push(nodes[n].id@);
                assert forall|i: int| 0 <= i < pushed.len() implies #[trigger] pushed[i] == start || upstream_of(
                    nodes,
                    edges,
                    start,
                    pushed[i],
                ) by {
                    if i < stack.len() {
                        assert(pushed[i] == stack[i]);
                    }
                }
                lemma_node_from(nodes, nodes[n].id@, 0);
            }
        }
    }
}

proof fn lemma_search_back_upstream(
    nodes: Seq<GraphNode>,
    edges: Seq<GraphEdge>,
    start: Seq<char>,
    pending: Seq<Seq<char>>,
    visited: Set<Seq<char>>,
    steps: nat,
)
    requires
        stack_upstream(nodes, edges, start, pending),
    ensures
        search_back(nodes, edges, pending, visited, steps) matches Some(id) ==> (upstream_of(nodes, edges, start, id)
            && names_input(nodes, id)),
    decreases steps,
{
    if steps > 0 && pending.len() > 0 {
        let last = pending.len() - 1;
        assert(pending[last] == start || upstream_of(nodes, edges, start, pending[last]));
        let rest = pending.drop_last();
        assert forall|i: int| 0 <= i < rest.len() implies #[trigger] rest[i] == start || upstream_of(
            nodes,
            edges,
            start,
            rest[i],
        ) by {
            assert(rest[i] == pending[i]);
        }
        lemma_look_back_upstream(nodes, edges, start, pending.last(), rest, visited, edges.len() as int);
        let (found, stack, seen) = look_back(nodes, edges, pending.last(), rest, visited, edges.len() as int);
        if found is None {
            lemma_search_back_upstream(nodes, edges, start, stack, seen, (steps - 1) as nat);
        }
    }
}

/// The Input the walk back finds does feed the node: it is an Input node of the graph, and a
/// chain of edges leads from it to the node.
pub proof fn lemma_upstream_input_feeds_the_node(nodes: Seq<GraphNode>, edges: Seq<GraphEdge>, start: Seq<char>)
    ensures
        upstream_input_of(nodes, edges, start) matches Some(id) ==> (upstream_of(nodes, edges, start, id)
            && names_input(nodes, id)),
{
    assert(stack_upstream(nodes, edges, start, seq![start]));
    lemma_search_back_upstream(nodes, edges, start, seq![start], Set::empty(), (edges.len() + 2) as nat);
}

/// Whether a node of this kind can be put in a group: anything but an Input, an output or a
/// group itself.
pub open spec fn groupable(role: NodeRole) -> bool {
    role != NodeRole::Input && role != NodeRole::Output && role != NodeRole::Group
}

/// Whether some selected identifier names, by its first node, a node of a kind `wanted`
/// accepts.
pub open spec fn selects_kind(nodes: Seq<GraphNode>, selected: Set<Seq<char>>, wanted: spec_fn(NodeRole) -> bool) -> bool {
    exists|id: Seq<char>|
        #[trigger] selected.contains(id) && match node_of(nodes, id) {
            Some(n) => wanted(nodes[n].role),
            None => false,
        }
}

/// Whether some selected node is the first with its identifier and of a kind `wanted` accepts.
fn selects(nodes: &[GraphNode], selected: &crate::selection::IdSet, group: bool) -> (found: bool)
    ensures
        found == selects_kind(
            nodes@,
            selected@,
            if group {
                |role: NodeRole| role == NodeRole::Group
            } else {
                |role: NodeRole| groupable(role)
            },
        ),
{
    let ghost wanted = if group {
        |role: NodeRole| role == NodeRole::Group
    } else {
        |role: NodeRole| groupable(role)
    };
    let mut index: usize = 0;
    while index < nodes.len()
        invariant
            index <= nodes@.len(),
            wanted == (if group {
                |role: NodeRole| role == NodeRole::Group
            } else {
                |role: NodeRole| groupable(role)
            }),
            forall|i: int|
                0 <= i < index && selected@.contains(#[trigger] nodes@[i].id@) && node_of(nodes@, nodes@[i].id@)
                    == Some(i) ==> !wanted(nodes@[i].role),
        decreases nodes@.len() - index,
    {
        let role = nodes[index].role;
        let fits = if group {
            role == NodeRole::Group
        } else {
            role != NodeRole::Input && role != NodeRole::Output && role != NodeRole::Group
        };
        if fits && selected.contains(nodes[index].id.as_str()) {
            proof {
                lemma_node_from(nodes@, nodes@[index as int].id@, 0);
            }
            if let Some(first) = find_node(nodes, nodes[index].id.as_str()) {
                if first == index {
                    proof {
                        assert(selected@.contains(nodes@[index as int].id@));
                    }
                    return true;
                }
            }
        }
        index = index + 1;
    }
    proof {
        assert forall|id: Seq<char>| #[trigger] selected@.contains(id) implies !match node_of(nodes@, id) {
            Some(n) => wanted(nodes@[n].role),
            None => false,
        } by {
            lemma_node_from(nodes@, id, 0);
            if let Some(n) = node_of(nodes@, id) {
                lemma_node_from(nodes@, nodes@[n].id@, 0);
                assert(node_of(nodes@, nodes@[n].id@) == Some(n));
            }
        }
    }
    false
}

/// True when the selection can be grouped: at least one selected node is not an Input, an
/// output or a group.
pub fn can_group(nodes: &[GraphNode], selected: &crate::selection::IdSet) -> (possible: bool)
    ensures
        possible == selects_kind(nodes@, selected@, |role: NodeRole| groupable(role)),
{
    selects(nodes, selected, false)
}

/// True when a selected node is a group, which can be taken apart.
pub fn can_ungroup(nodes: &[GraphNode], selected: &crate::selection::IdSet) -> (possible: bool)
    ensures
        possible == selects_kind(nodes@, selected@, |role: NodeRole| role == NodeRole::Group),
{
    selects(nodes, selected, true)
}

} // verus!
