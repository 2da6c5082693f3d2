//! What is selected on the node canvas, and the click and rubber-band rules that change it.
use crate::thumbnails::same_text;
use vstd::prelude::*;
use vstd::string::StringExecFns;

verus! {

/// A set of identifiers, each held once.
pub struct IdSet {
    ids: Vec<String>,
}

impl View for IdSet {
    type V = Set<Seq<char>>;

    closed spec fn view(&self) -> Set<Seq<char>> {
        self.ids@.map_values(|id: String| id@).to_set()
    }
}

impl IdSet {
    #[verifier::type_invariant]
    closed spec fn distinct(self) -> bool {
        self.ids@.map_values(|id: String| id@).no_duplicates()
    }

    proof fn lemma_len(&self)
        requires
            self.distinct(),
        ensures
            self@.finite(),
            self@.len() == self.ids@.len(),
    {
        let list = self.ids@.map_values(|id: String| id@);
        list.unique_seq_to_set();
        vstd::seq_lib::seq_to_set_is_finite(list);
    }

    /// Nothing held.
    pub fn new() -> (set: Self)
        ensures
            set@ == Set::<Seq<char>>::empty(),
    {
        let set = IdSet { ids: Vec::new() };
        assert(set.ids@.map_values(|id: String| id@) =~= Seq::<Seq<char>>::empty());
        assert(set@ =~= Set::<Seq<char>>::empty());
        set
    }

    /// How many identifiers are held.
    pub fn len(&self) -> (count: usize)
        ensures
            self@.finite(),
            count == self@.len(),
    {
        proof {
            use_type_invariant(self);
            self.lemma_len();
        }
        self.ids.len()
    }

    /// Whether nothing is held.
    pub fn is_empty(&self) -> (empty: bool)
        ensures
            empty == (self@ == Set::<Seq<char>>::empty()),
    {
        proof {
            use_type_invariant(self);
            self.lemma_len();
            let list = self.ids@.map_values(|id: String| id@);
            if self.ids@.len() > 0 {
                assert(list[0] == self.ids@[0]@);
                assert(self@.contains(self.ids@[0]@));
            } else {
                assert(list =~= Seq::<Seq<char>>::empty());
                assert(self@ =~= Set::<Seq<char>>::empty());
            }
        }
        self.ids.len() == 0
    }

    fn position(&self, id: &str) -> (found: Option<usize>)
        ensures
            match found {
                Some(i) => i < self.ids@.len() && self.ids@[i as int]@ == id@,
                None => !self@.contains(id@),
            },
    {
        let mut index: usize = 0;
        while index < self.ids.len()
            invariant
                index <= self.ids@.len(),
                forall|i: int| 0 <= i < index ==> self.ids@[i]@ != id@,
            decreases self.ids@.len() - index,
        {
            if same_text(self.ids[index].as_str(), id) {
                return Some(index);
            }
            index = index + 1;
        }
        proof {
            if self@.contains(id@) {
                let list = self.ids@.map_values(|id: String| id@);
                let k = choose|k: int| 0 <= k < list.len() && list[k] == id@;
                assert(self.ids@[k]@ == id@);
            }
        }
        None
    }

    /// Whether `id` is held.
    pub fn contains(&self, id: &str) -> (held: bool)
        ensures
            held == self@.contains(id@),
    {
        match self.position(id) {
            Some(i) => {
                proof {
                    assert(self.ids@.map_values(|id: String| id@)[i as int] == id@);
                }
                true
            },
            None => false,
        }
    }

    /// Adds `id`, where it is not held already.
    pub fn insert(&mut self, id: String)
        ensures
            final(self)@ == old(self)@.insert(id@),
    {
        proof {
            use_type_invariant(&*self);
        }
        if self.position(id.as_str()).is_some() {
            proof {
                let i = choose|i: int| 0 <= i < self.ids@.len() && self.ids@[i]@ == id@;
                assert(self.ids@.map_values(|id: String| id@)[i] == id@);
                assert(self@.insert(id@) =~= self@);
            }
            return;
        }
        let ghost before = self.ids@.map_values(|id: String| id@);
        let mut ids: Vec<String> = Vec::new();
        std::mem::swap(&mut ids, &mut self.ids);
        let ghost key = id@;
        ids.push(id);
        proof {
            let after = ids@.map_values(|id: String| id@);
            assert(after =~= before.push(key));
            assert(!before.contains(key));
            assert forall|a: int, b: int| 0 <= a < b < after.len() implies after[a] != after[b] by {
                if b == after.len() - 1 {
                    assert(before[a] == after[a]);
                }
            }
            assert forall|x: Seq<char>| after.to_set().contains(x) == before.to_set().insert(key).contains(x) by {
                if after.to_set().contains(x) {
                    let k = choose|k: int| 0 <= k < after.len() && after[k] == x;
                    if k < before.len() {
                        assert(before[k] == x);
                    }
                }
                if before.to_set().contains(x) {
                    let k = choose|k: int| 0 <= k < before.len() && before[k] == x;
                    assert(after[k] == x);
                }
                if x == key {
                    assert(after[after.len() - 1] == key);
                }
            }
            assert(after.to_set() =~= before.to_set().insert(key));
        }
        self.ids = ids;
    }

    /// Takes `id` out, saying whether it was held.
    pub fn remove(&mut self, id: &str) -> (was_held: bool)
        ensures
            was_held == old(self)@.contains(id@),
            final(self)@ == old(self)@.remove(id@),
    {
        proof {
            use_type_invariant(&*self);
        }
        match self.position(id) {
            None => {
                proof {
                    assert(self@.remove(id@) =~= self@);
                }
                false
            },
            Some(i) => {
                let ghost before = self.ids@.map_values(|id: String| id@);
                let mut ids: Vec<String> = Vec::new();
                std::mem::swap(&mut ids, &mut self.ids);
                ids.remove(i);
                proof {
                    let after = ids@.map_values(|id: String| id@);
                    assert(after =~= before.remove(i as int));
                    assert(before[i as int] == id@);
                    assert forall|a: int, b: int| 0 <= a < b < after.len() implies after[a] != after[b] by {
                        let a0 = if a < i { a } else { a + 1 };
                        let b0 = if b < i { b } else { b + 1 };
                        assert(after[a] == before[a0] && after[b] == before[b0]);
                    }
                    assert forall|x: Seq<char>| after.to_set().contains(x) == before.to_set().remove(id@).contains(x) by {
                        if after.to_set().contains(x) {
                            let k = choose|k: int| 0 <= k < after.len() && after[k] == x;
                            let k0 = if k < i { k } else { k + 1 };
                            assert(before[k0] == x);
                            assert(k0 != i);
                        }
                        if before.to_set().remove(id@).contains(x) {
                            let k = choose|k: int| 0 <= k < before.len() && before[k] == x;
                            assert(k != i);
                            let k1 = if k < i { k } else { k - 1 };
                            assert(after[k1] == x);
                        }
                    }
                    assert(after.to_set() =~= before.to_set().remove(id@));
                    assert(before.contains(id@));
                }
                self.ids = ids;
                true
            },
        }
    }

    /// Holds nothing any more.
    pub fn clear(&mut self)
        ensures
            final(self)@ == Set::<Seq<char>>::empty(),
    {
        self.ids = Vec::new();
        proof {
            assert(self.ids@.map_values(|id: String| id@) =~= Seq::<Seq<char>>::empty());
            assert(self@ =~= Set::<Seq<char>>::empty());
        }
    }
}

/// A set with `id` taken out where it was held, and put in where it was not.
pub open spec fn toggled(set: Set<Seq<char>>, id: Seq<char>) -> Set<Seq<char>> {
    if set.contains(id) {
        set.remove(id)
    } else {
        set.insert(id)
    }
}

/// The nodes selected after a click on `id`: the platform modifier toggles it; a plain click
/// selects it alone, unless it is already selected, so that a selected group can be dragged.
pub open spec fn clicked(set: Set<Seq<char>>, id: Seq<char>, additive: bool) -> Set<Seq<char>> {
    if additive {
        toggled(set, id)
    } else if set.contains(id) {
        set
    } else {
        Set::empty().insert(id)
    }
}

/// The wires selected after a click on `id`: the modifier toggles it; a plain click selects
/// it alone.
pub open spec fn clicked_wire(set: Set<Seq<char>>, id: Seq<char>, additive: bool) -> Set<Seq<char>> {
    if additive {
        toggled(set, id)
    } else {
        Set::empty().insert(id)
    }
}

/// The selection of the node canvas: the selected nodes and the selected wires.
pub struct Selection {
    pub selected_nodes: IdSet,
    pub selected_edges: IdSet,
}

impl Selection {
    /// Nothing selected.
    pub fn new() -> (selection: Self)
        ensures
            selection.selected_nodes@ == Set::<Seq<char>>::empty(),
            selection.selected_edges@ == Set::<Seq<char>>::empty(),
    {
        Selection { selected_nodes: IdSet::new(), selected_edges: IdSet::new() }
    }

    fn toggle(set: &mut IdSet, id: &str)
        ensures
            final(set)@ == toggled(old(set)@, id@),
    {
        if !set.remove(id) {
            set.insert(String::from_str(id));
        }
    }

    /// Applies a click on a node: a plain click selects one node, and the platform modifier
    /// adds it to or removes it from the set. Any selected wire is let go.
    pub fn click_node(&mut self, id: &str, additive: bool)
        ensures
            final(self).selected_nodes@ == clicked(old(self).selected_nodes@, id@, additive),
            final(self).selected_edges@ == Set::<Seq<char>>::empty(),
    {
        self.selected_edges.clear();
        if additive {
            Self::toggle(&mut self.selected_nodes, id);
        } else if !self.selected_nodes.contains(id) {
            self.selected_nodes.clear();
            self.selected_nodes.insert(String::from_str(id));
        }
    }

    /// Applies a click on a wire, by the same rules; any selected node is let go.
    pub fn click_edge(&mut self, id: &str, additive: bool)
        ensures
            final(self).selected_edges@ == clicked_wire(old(self).selected_edges@, id@, additive),
            final(self).selected_nodes@ == Set::<Seq<char>>::empty(),
    {
        self.selected_nodes.clear();
        if additive {
            Self::toggle(&mut self.selected_edges, id);
        } else {
            self.selected_edges.clear();
            self.selected_edges.insert(String::from_str(id));
        }
    }

    /// Lets go of every node and wire.
    pub fn clear_selection(&mut self)
        ensures
            final(self).selected_nodes@ == Set::<Seq<char>>::empty(),
            final(self).selected_edges@ == Set::<Seq<char>>::empty(),
    {
        self.selected_nodes.clear();
        self.selected_edges.clear();
    }

    /// Selects exactly the given nodes.
    pub fn select_only(&mut self, ids: Vec<String>)
        ensures
            final(self).selected_nodes@ == ids@.map_values(|id: String| id@).to_set(),
            final(self).selected_edges@ == Set::<Seq<char>>::empty(),
    {
        self.selected_nodes.clear();
        self.selected_edges.clear();
        let mut index: usize = 0;
        while index < ids.len()
            invariant
                index <= ids@.len(),
                self.selected_nodes@ == ids@.take(index as int).map_values(|id: String| id@).to_set(),
                self.selected_edges@ == Set::<Seq<char>>::empty(),
            decreases ids@.len() - index,
        {
            let ghost before = ids@.take(index as int).map_values(|id: String| id@);
            self.selected_nodes.insert(ids[index].clone());
            proof {
                let after = ids@.take(index + 1).map_values(|id: String| id@);
                assert(after =~= before.push(ids@[index as int]@));
                assert forall|x: Seq<char>| after.to_set().contains(x) == before.to_set().insert(ids@[index as int]@).contains(x) by {
                    if after.to_set().contains(x) {
                        let k = choose|k: int| 0 <= k < after.len() && after[k] == x;
                        if k < before.len() {
                            assert(before[k] == x);
                        }
                    }
                    if before.to_set().contains(x) {
                        let k = choose|k: int| 0 <= k < before.len() && before[k] == x;
                        assert(after[k] == x);
                    }
                    if x == ids@[index as int]@ {
                        assert(after[index as int] == x);
                    }
                }
                assert(after.to_set() =~= before.to_set().insert(ids@[index as int]@));
            }
            index = index + 1;
        }
        assert(ids@.take(ids@.len() as int) =~= ids@);
    }

    /// Applies a rubber band: the nodes it touches are selected, in place of the selection or,
    /// with the modifier, beside it; any selected wire is let go.
    pub fn apply_rubber_band(&mut self, touched: &[String], additive: bool)
        ensures
            final(self).selected_nodes@ == if additive {
                old(self).selected_nodes@ + touched@.map_values(|id: String| id@).to_set()
            } else {
                touched@.map_values(|id: String| id@).to_set()
            },
            final(self).selected_edges@ == Set::<Seq<char>>::empty(),
    {
        if !additive {
            self.selected_nodes.clear();
        }
        self.selected_edges.clear();
        let ghost start = self.selected_nodes@;
        let mut index: usize = 0;
        while index < touched.len()
            invariant
                index <= touched@.len(),
                self.selected_nodes@ == start + touched@.take(index as int).map_values(|id: String| id@).to_set(),
                self.selected_edges@ == Set::<Seq<char>>::empty(),
            decreases touched@.len() - index,
        {
            let ghost before = touched@.take(index as int).map_values(|id: String| id@);
            self.selected_nodes.insert(touched[index].clone());
            proof {
                let after = touched@.take(index + 1).map_values(|id: String| id@);
                assert(after =~= before.push(touched@[index as int]@));
                assert forall|x: Seq<char>| after.to_set().contains(x) == before.to_set().insert(touched@[index as int]@).contains(x) by {
                    if after.to_set().contains(x) {
                        let k = choose|k: int| 0 <= k < after.len() && after[k] == x;
                        if k < before.len() {
                            assert(before[k] == x);
                        }
                    }
                    if before.to_set().contains(x) {
                        let k = choose|k: int| 0 <= k < before.len() && before[k] == x;
                        assert(after[k] == x);
                    }
                    if x == touched@[index as int]@ {
                        assert(after[index as int] == x);
                    }
                }
                assert(start + after.to_set() =~= (start + before.to_set()).insert(touched@[index as int]@));
            }
            index = index + 1;
        }
        proof {
            assert(touched@.take(touched@.len() as int) =~= touched@);
            if !additive {
                assert(start + touched@.map_values(|id: String| id@).to_set() =~= touched@.map_values(|id: String| id@).to_set());
            }
        }
    }

    /// Whether a node is selected.
    pub fn is_selected(&self, id: &str) -> (selected: bool)
        ensures
            selected == self.selected_nodes@.contains(id@),
    {
        self.selected_nodes.contains(id)
    }
}

/// Clicking a node twice with the modifier leaves the node selection as it was.
pub proof fn lemma_modifier_click_undoes_itself(set: Set<Seq<char>>, id: Seq<char>)
    ensures
        clicked(clicked(set, id, true), id, true) == set,
{
    if set.contains(id) {
        assert(set.remove(id).insert(id) =~= set);
    } else {
        assert(set.insert(id).remove(id) =~= set);
    }
}

/// After a plain click the clicked node is selected, and it is alone unless it was part of
/// the selection already.
pub proof fn lemma_plain_click_selects(set: Set<Seq<char>>, id: Seq<char>)
    ensures
        clicked(set, id, false).contains(id),
        !set.contains(id) ==> clicked(set, id, false) == Set::<Seq<char>>::empty().insert(id),
        set.contains(id) ==> clicked(set, id, false) == set,
{
}

} // verus!
