use std::collections::HashMap;
use std::collections::HashSet;
use vstd::prelude::*;

use crate::ctl::Proposition;

verus! {

broadcast use vstd::std_specs::hash::group_hash_axioms;

/// A state of a transition structure.
pub type State = i32;

/// The atomic propositions that hold at a state.
pub type Label = HashSet<Proposition>;

/// How many times `x` occurs in `s`.
pub open spec fn occurrences(s: Seq<State>, x: State) -> nat
    decreases s.len(),
{
    if s.len() == 0 {
        0
    } else {
        occurrences(s.drop_last(), x) + if s.last() == x { 1nat } else { 0nat }
    }
}

/// Pushing `y` counts it once more.
pub proof fn lemma_occurrences_push(s: Seq<State>, y: State, x: State)
    ensures
        occurrences(s.push(y), x) == occurrences(s, x) + if y == x { 1nat } else { 0nat },
{
    assert(s.push(y).drop_last() =~= s);
}

/// `x` occurs in `s` exactly when `s` contains it.
pub proof fn lemma_occurrences_contains(s: Seq<State>, x: State)
    ensures
        occurrences(s, x) > 0 <==> s.contains(x),
    decreases s.len(),
{
    if s.len() > 0 {
        lemma_occurrences_contains(s.drop_last(), x);
        if s.drop_last().contains(x) {
            let i = choose|i: int| 0 <= i < s.drop_last().len() && s.drop_last()[i] == x;
            assert(s[i] == x);
        }
        if s.contains(x) && s.last() != x {
            let i = choose|i: int| 0 <= i < s.len() && s[i] == x;
            assert(s.drop_last()[i] == x);
        }
    }
}

/// The mathematical content of a transition structure.
pub ghost struct ModelView {
    pub initial: State,
    pub states: Set<State>,
    pub label: Map<State, Set<Proposition>>,
    pub succ: Map<State, Seq<State>>,
    pub pred: Map<State, Seq<State>>,
}

impl ModelView {
    /// Every state has a label and adjacency lists, every edge joins two states, and the
    /// predecessor lists record each edge as often as the successor lists do.
    pub open spec fn wf(self) -> bool {
        &&& self.states.finite()
        &&& self.states.contains(self.initial)
        &&& self.label.dom() == self.states
        &&& self.succ.dom() == self.states
        &&& self.pred.dom() == self.states
        &&& forall|s: State, i: int|
            self.states.contains(s) && 0 <= i < self.succ[s].len() ==> self.states.contains(
                #[trigger] self.succ[s][i],
            )
        &&& forall|s: State, i: int|
            self.states.contains(s) && 0 <= i < self.pred[s].len() ==> self.states.contains(
                #[trigger] self.pred[s][i],
            )
        &&& forall|s: State, t: State|
            self.states.contains(s) && self.states.contains(t) ==> occurrences(
                #[trigger] self.pred[t],
                s,
            ) == occurrences(#[trigger] self.succ[s], t)
    }

    /// `t` is a successor of `s`.
    pub open spec fn edge(self, s: State, t: State) -> bool {
        self.succ[s].contains(t)
    }
}

/// A finite Kripke structure: states, a labelling and a transition relation.
pub struct Model {
    initial_state: State,
    states: HashSet<State>,
    order: Vec<State>,
    labeling: HashMap<State, Label>,
    successors_map: HashMap<State, Vec<State>>,
    predecessors_map: HashMap<State, Vec<State>>,
}

impl View for Model {
    type V = ModelView;

    closed spec fn view(&self) -> ModelView {
        ModelView {
            initial: self.initial_state,
            states: self.states@,
            label: Map::new(|s: State| self.states@.contains(s), |s: State| self.labeling@[s]@),
            succ: Map::new(
                |s: State| self.states@.contains(s),
                |s: State| self.successors_map@[s]@,
            ),
            pred: Map::new(
                |s: State| self.states@.contains(s),
                |s: State| self.predecessors_map@[s]@,
            ),
        }
    }
}

impl Model {
    pub closed spec fn inv(&self) -> bool {
        &&& self.order@.no_duplicates()
        &&& self.states@ == self.order@.to_set()
        &&& self.labeling@.dom() == self.states@
        &&& self.successors_map@.dom() == self.states@
        &&& self.predecessors_map@.dom() == self.states@
    }

    /// The structure is well formed.
    pub open spec fn wf(&self) -> bool {
        self.inv() && self@.wf()
    }

    /// A structure with the one state `initial_state`, labelled `initial_label`, and no edges.
    pub fn new(initial_state: State, initial_label: Label) -> (r: Model)
        ensures
            r.wf(),
            r@.initial == initial_state,
            r@.states == set![initial_state],
            r@.label == map![initial_state => initial_label@],
            r@.succ == map![initial_state => Seq::<State>::empty()],
            r@.pred == map![initial_state => Seq::<State>::empty()],
    {
        let mut states = HashSet::new();
        states.insert(initial_state);
        let mut order = Vec::new();
        order.push(initial_state);
        let mut labeling = HashMap::new();
        labeling.insert(initial_state, initial_label);
        let mut successors_map = HashMap::new();
        successors_map.insert(initial_state, Vec::new());
        let mut predecessors_map = HashMap::new();
        predecessors_map.insert(initial_state, Vec::new());
        let model = Model {
            initial_state: initial_state,
            states: states,
            order: order,
            labeling: labeling,
            successors_map: successors_map,
            predecessors_map: predecessors_map,
        };
        proof {
            assert(model.order@.to_set() =~= set![initial_state]) by {
                assert(model.order@.contains(initial_state)) by {
                    assert(model.order@[0] == initial_state);
                }
            }
            assert(model@.states =~= set![initial_state]);
            assert(model@.label =~= map![initial_state => initial_label@]);
            assert(model@.succ =~= map![initial_state => Seq::<State>::empty()]);
            assert(model@.pred =~= map![initial_state => Seq::<State>::empty()]);
        }
        model
    }

    /// Registers `state` with `label`. A state that is already there keeps its edges and gets
    /// `label` in place of its former label.
    pub fn add_state(&mut self, state: State, label: Label)
        requires
            old(self).wf(),
        ensures
            final(self).wf(),
            final(self)@.initial == old(self)@.initial,
            final(self)@.states == old(self)@.states.insert(state),
            final(self)@.label == old(self)@.label.insert(state, label@),
            old(self)@.states.contains(state) ==> final(self)@.succ == old(self)@.succ
                && final(self)@.pred == old(self)@.pred,
            !old(self)@.states.contains(state) ==> final(self)@.succ == old(self)@.succ.insert(
                state,
                Seq::empty(),
            ) && final(self)@.pred == old(self)@.pred.insert(state, Seq::empty()),
    {
        let ghost pre = self@;
        if self.states.contains(&state) {
            self.labeling.insert(state, label);
            assert(self@.states =~= pre.states.insert(state));
            assert(self@.label =~= pre.label.insert(state, label@));
            assert(self@.succ =~= pre.succ);
            assert(self@.pred =~= pre.pred);
        } else {
            proof {
                assert(!self.order@.contains(state));
            }
            self.states.insert(state);
            self.order.push(state);
            self.labeling.insert(state, label);
            self.successors_map.insert(state, Vec::new());
            self.predecessors_map.insert(state, Vec::new());
            proof {
                assert(self.order@.to_set() =~= old(self).order@.to_set().insert(state)) by {
                    old(self).order@.lemma_push_to_set_commute(state);
                }
                assert(self.order@.no_duplicates()) by {
                    assert forall|i: int, j: int|
                        0 <= i < self.order@.len() && 0 <= j < self.order@.len() && i != j
                        implies self.order@[i] != self.order@[j] by {
                        if i < old(self).order@.len() && j < old(self).order@.len() {
                        } else if i == old(self).order@.len() {
                            assert(old(self).order@[j] == self.order@[j]);
                        } else {
                            assert(old(self).order@[i] == self.order@[i]);
                        }
                    }
                }
                assert(self@.states =~= pre.states.insert(state));
                assert(self@.label =~= pre.label.insert(state, label@));
                assert(self@.succ =~= pre.succ.insert(state, Seq::empty()));
                assert(self@.pred =~= pre.pred.insert(state, Seq::empty()));
                assert forall|s: State, t: State|
                    self@.states.contains(s) && self@.states.contains(t) implies occurrences(
                    #[trigger] self@.pred[t],
                    s,
                ) == occurrences(#[trigger] self@.succ[s], t) by {
                    if s != state && t != state {
                        assert(pre.pred[t] == self@.pred[t]);
                        assert(pre.succ[s] == self@.succ[s]);
                    } else if s == state && t != state {
                        lemma_occurrences_contains(pre.pred[t], s);
                        assert(!pre.pred[t].contains(s));
                    } else if t == state && s != state {
                        lemma_occurrences_contains(pre.succ[s], t);
                        assert(!pre.succ[s].contains(t));
                    }
                }
            }
        }
    }

    /// Adds an edge from `origin` to `destination`; both must already be states.
    pub fn add_transition(&mut self, origin: State, destination: State)
        requires
            old(self).wf(),
            old(self)@.states.contains(origin),
            old(self)@.states.contains(destination),
        ensures
            final(self).wf(),
            final(self)@.initial == old(self)@.initial,
            final(self)@.states == old(self)@.states,
            final(self)@.label == old(self)@.label,
            final(self)@.succ == old(self)@.succ.insert(
                origin,
                old(self)@.succ[origin].push(destination),
            ),
            final(self)@.pred == old(self)@.pred.insert(
                destination,
                old(self)@.pred[destination].push(origin),
            ),
    {
        let ghost pre = self@;
        let mut out = self.successors_map.remove(&origin).unwrap();
        out.push(destination);
        self.successors_map.insert(origin, out);
        let mut inc = self.predecessors_map.remove(&destination).unwrap();
        inc.push(origin);
        self.predecessors_map.insert(destination, inc);
        proof {
            let post = self@;
            assert(post.states =~= pre.states);
            assert(post.label =~= pre.label);
            assert(post.succ =~= pre.succ.insert(origin, pre.succ[origin].push(destination)));
            assert(post.pred =~= pre.pred.insert(destination, pre.pred[destination].push(origin)));
            assert forall|s: State, i: int|
                post.states.contains(s) && 0 <= i < post.succ[s].len() implies post.states.contains(
                #[trigger] post.succ[s][i],
            ) by {
                if s == origin && i == pre.succ[s].len() {
                } else {
                    assert(post.succ[s][i] == pre.succ[s][i]);
                }
            }
            assert forall|s: State, i: int|
                post.states.contains(s) && 0 <= i < post.pred[s].len() implies post.states.contains(
                #[trigger] post.pred[s][i],
            ) by {
                if s == destination && i == pre.pred[s].len() {
                } else {
                    assert(post.pred[s][i] == pre.pred[s][i]);
                }
            }
            assert forall|s: State, t: State|
                post.states.contains(s) && post.states.contains(t) implies occurrences(
                #[trigger] post.pred[t],
                s,
            ) == occurrences(#[trigger] post.succ[s], t) by {
                if t == destination {
                    lemma_occurrences_push(pre.pred[t], origin, s);
                }
                if s == origin {
                    lemma_occurrences_push(pre.succ[s], destination, t);
                }
            }
        }
    }

    /// The propositions that hold at `state`.
    pub fn label(&self, state: &State) -> (r: &Label)
        requires
            self.wf(),
            self@.states.contains(*state),
        ensures
            r@ == self@.label[*state],
    {
        self.labeling.get(state).unwrap()
    }

    /// The designated initial state.
    pub fn initial_state(&self) -> (r: &State)
        ensures
            *r == self@.initial,
    {
        &self.initial_state
    }

    /// All states.
    pub fn states(&self) -> (r: &HashSet<State>)
        ensures
            r@ == self@.states,
    {
        &self.states
    }

    /// All states, each once, in the order in which they were added.
    pub fn state_list(&self) -> (r: &Vec<State>)
        requires
            self.wf(),
        ensures
            r@.no_duplicates(),
            r@.to_set() == self@.states,
    {
        &self.order
    }

    /// The targets of the edges out of `state`, one entry per edge.
    pub fn successors(&self, state: &State) -> (r: &Vec<State>)
        requires
            self.wf(),
            self@.states.contains(*state),
        ensures
            r@ == self@.succ[*state],
    {
        self.successors_map.get(state).unwrap()
    }

    /// The out-degree of `state`: the number of edges out of it, parallel edges counted apart.
    pub fn degree(&self, state: &State) -> (r: i32)
        requires
            self.wf(),
            self@.states.contains(*state),
            self@.succ[*state].len() <= i32::MAX,
        ensures
            r as int == self@.succ[*state].len(),
    {
        self.successors_map.get(state).unwrap().len() as i32
    }

    /// The sources of the edges into `state`, one entry per edge.
    pub fn predecessors(&self, state: &State) -> (r: &Vec<State>)
        requires
            self.wf(),
            self@.states.contains(*state),
        ensures
            r@ == self@.pred[*state],
    {
        self.predecessors_map.get(state).unwrap()
    }
}

} // verus!
