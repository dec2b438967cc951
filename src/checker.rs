use std::collections::{HashMap, HashSet};
use vstd::prelude::*;

use crate::ctl::{Formula, FormulaEnum, Proposition, TemporalFormula, TemporalFormulaEnum};
use crate::semantics::{
    au_iter, au_set, au_step, ax_set, eu_iter, eu_set, eu_step, ex_set, lemma_marking_within,
    marking, satisfies,
};
use crate::structure::{
    lemma_occurrences_contains, lemma_occurrences_push, occurrences, Model, ModelView, State,
};

verus! {

broadcast use {
    vstd::std_specs::hash::group_hash_axioms,
    vstd::seq_lib::lemma_seq_contains_after_push,
};

/// A set of states.
pub type Marking = HashSet<State>;

/// Decides CTL formulas on one transition structure.
pub struct Checker {
    model: Model,
}

/// `x` is one of the first `n` entries of `v`.
spec fn among_first(v: Seq<State>, n: int, x: State) -> bool {
    exists|j: int| 0 <= j < n && #[trigger] v[j] == x
}

/// Some entry of `v` is in `m`.
fn any_in(v: &Vec<State>, m: &Marking) -> (r: bool)
    ensures
        r == exists|i: int| 0 <= i < v@.len() && m@.contains(#[trigger] v@[i]),
{
    let mut i: usize = 0;
    while i < v.len()
        invariant
            i <= v@.len(),
            forall|j: int| 0 <= j < i ==> !m@.contains(#[trigger] v@[j]),
        decreases v@.len() - i,
    {
        if m.contains(&v[i]) {
            return true;
        }
        i = i + 1;
    }
    false
}

/// Every entry of `v` is in `m`.
fn all_in(v: &Vec<State>, m: &Marking) -> (r: bool)
    ensures
        r == forall|i: int| 0 <= i < v@.len() ==> m@.contains(#[trigger] v@[i]),
{
    let mut i: usize = 0;
    while i < v.len()
        invariant
            i <= v@.len(),
            forall|j: int| 0 <= j < i ==> m@.contains(#[trigger] v@[j]),
        decreases v@.len() - i,
    {
        if !m.contains(&v[i]) {
            return false;
        }
        i = i + 1;
    }
    true
}

/// Pushing a new entry keeps a sequence free of duplicates.
proof fn lemma_push_no_dup(v: Seq<State>, x: State)
    requires
        v.no_duplicates(),
        !v.contains(x),
    ensures
        v.push(x).no_duplicates(),
{
    let w = v.push(x);
    assert forall|i: int, j: int| 0 <= i < w.len() && 0 <= j < w.len() && i != j
        implies w[i] != w[j] by {
        if i < v.len() && j < v.len() {
            assert(w[i] == v[i] && w[j] == v[j]);
        } else if i == v.len() {
            assert(w[j] == v[j]);
        } else {
            assert(w[i] == v[i]);
        }
    }
}

/// Dropping the last entry of a sequence without duplicates leaves one that lacks it.
proof fn lemma_pop_no_dup(v: Seq<State>)
    requires
        v.no_duplicates(),
        v.len() > 0,
    ensures
        v.subrange(0, v.len() - 1).no_duplicates(),
        !v.subrange(0, v.len() - 1).contains(v.last()),
{
    let w = v.subrange(0, v.len() - 1);
    assert forall|i: int| 0 <= i < w.len() implies w[i] != v.last() by {
        assert(w[i] == v[i]);
    }
    assert forall|i: int, j: int| 0 <= i < w.len() && 0 <= j < w.len() && i != j
        implies w[i] != w[j] by {
        assert(w[i] == v[i] && w[j] == v[j]);
    }
}

/// The `j`-th predecessor of `t` has `t` among its successors.
proof fn lemma_pred_edge(m: ModelView, t: State, j: int)
    requires
        m.wf(),
        m.states.contains(t),
        0 <= j < m.pred[t].len(),
    ensures
        m.states.contains(m.pred[t][j]),
        m.succ[m.pred[t][j]].contains(t),
{
    let p = m.pred[t][j];
    assert(m.pred[t].contains(p));
    lemma_occurrences_contains(m.pred[t], p);
    lemma_occurrences_contains(m.succ[p], t);
    assert(occurrences(m.pred[t], p) == occurrences(m.succ[p], t));
}

/// `s` is among the predecessors of each of its successors.
proof fn lemma_succ_edge(m: ModelView, s: State, t: State)
    requires
        m.wf(),
        m.states.contains(s),
        m.succ[s].contains(t),
    ensures
        m.states.contains(t),
        exists|j: int| 0 <= j < m.pred[t].len() && m.pred[t][j] == s,
{
    let i = choose|i: int| 0 <= i < m.succ[s].len() && m.succ[s][i] == t;
    assert(m.states.contains(m.succ[s][i]));
    lemma_occurrences_contains(m.succ[s], t);
    lemma_occurrences_contains(m.pred[t], s);
    assert(occurrences(m.pred[t], s) == occurrences(m.succ[s], t));
    assert(m.pred[t].contains(s));
}

/// A set that holds the `b`-states and is closed under `a`-predecessors holds every state
/// of `E(a U b)`.
proof fn lemma_eu_least(
    m: ModelView,
    a: Set<State>,
    b: Set<State>,
    mk: Set<State>,
    k: nat,
    s: State,
)
    requires
        m.wf(),
        m.states.contains(s),
        eu_iter(m, a, b, k).contains(s),
        forall|x: State| m.states.contains(x) && b.contains(x) ==> mk.contains(x),
        forall|t: State, j: int|
            mk.contains(t) && 0 <= j < m.pred[t].len() && a.contains(#[trigger] m.pred[t][j])
                ==> mk.contains(m.pred[t][j]),
    ensures
        mk.contains(s),
    decreases k,
{
    if !b.contains(s) {
        assert(k > 0);
        let k0 = (k - 1) as nat;
        assert(eu_iter(m, a, b, k) == eu_step(m, a, b, eu_iter(m, a, b, k0)));
        assert(exists|i: int| 0 <= i < m.succ[s].len()
            && #[trigger] eu_iter(m, a, b, k0).contains(m.succ[s][i]));
        let i = choose|i: int| 0 <= i < m.succ[s].len()
            && #[trigger] eu_iter(m, a, b, k0).contains(m.succ[s][i]);
        let t = m.succ[s][i];
        assert(m.succ[s][i] == t);
        assert(m.succ[s].contains(t));
        lemma_succ_edge(m, s, t);
        lemma_eu_least(m, a, b, mk, k0, t);
        let j = choose|j: int| 0 <= j < m.pred[t].len() && m.pred[t][j] == s;
        assert(a.contains(m.pred[t][j]));
    }
}

/// How many entries of `v` lie in `x`.
spec fn count_in(v: Seq<State>, x: Set<State>) -> nat
    decreases v.len(),
{
    if v.len() == 0 {
        0
    } else {
        count_in(v.drop_last(), x) + if x.contains(v.last()) { 1nat } else { 0nat }
    }
}

/// No entry lies in the empty set.
proof fn lemma_count_in_empty(v: Seq<State>)
    ensures
        count_in(v, Set::empty()) == 0,
    decreases v.len(),
{
    if v.len() > 0 {
        lemma_count_in_empty(v.drop_last());
    }
}

/// Adding `s` to `x` adds the entries equal to `s`.
proof fn lemma_count_in_insert(v: Seq<State>, x: Set<State>, s: State)
    requires
        !x.contains(s),
    ensures
        count_in(v, x.insert(s)) == count_in(v, x) + occurrences(v, s),
    decreases v.len(),
{
    if v.len() > 0 {
        lemma_count_in_insert(v.drop_last(), x, s);
    }
}

/// At most every entry lies in `x`, and when every one does, each is in `x`.
proof fn lemma_count_in_full(v: Seq<State>, x: Set<State>)
    ensures
        count_in(v, x) <= v.len(),
        count_in(v, x) == v.len() ==> forall|i: int| 0 <= i < v.len()
            ==> x.contains(#[trigger] v[i]),
    decreases v.len(),
{
    if v.len() > 0 {
        let d = v.drop_last();
        lemma_count_in_full(d, x);
        if count_in(v, x) == v.len() {
            assert forall|i: int| 0 <= i < v.len() implies x.contains(#[trigger] v[i]) by {
                if i < d.len() {
                    assert(v[i] == d[i]);
                }
            }
        }
    }
}

/// When each entry is in `x`, every entry counts.
proof fn lemma_count_all(v: Seq<State>, x: Set<State>)
    requires
        forall|i: int| 0 <= i < v.len() ==> x.contains(#[trigger] v[i]),
    ensures
        count_in(v, x) == v.len(),
    decreases v.len(),
{
    if v.len() > 0 {
        let d = v.drop_last();
        assert forall|i: int| 0 <= i < d.len() implies x.contains(#[trigger] d[i]) by {
            assert(d[i] == v[i]);
        }
        lemma_count_all(d, x);
    }
}

/// Lengthening a prefix by one entry counts that entry.
proof fn lemma_occurrences_take(v: Seq<State>, j: int, x: State)
    requires
        0 <= j < v.len(),
    ensures
        occurrences(v.take(j + 1), x) == occurrences(v.take(j), x) + if v[j]
            == x { 1nat } else { 0nat },
{
    assert(v.take(j + 1) =~= v.take(j).push(v[j]));
    lemma_occurrences_push(v.take(j), v[j], x);
}

/// A prefix holds `x` at most as often as the whole.
proof fn lemma_occurrences_prefix(v: Seq<State>, j: int, x: State)
    requires
        0 <= j <= v.len(),
    ensures
        occurrences(v.take(j), x) <= occurrences(v, x),
    decreases v.len(),
{
    if j == v.len() {
        assert(v.take(j) =~= v);
    } else {
        let d = v.drop_last();
        assert(v.take(j) =~= d.take(j));
        lemma_occurrences_prefix(d, j, x);
    }
}

/// The iterates of `A(a U b)` grow.
proof fn lemma_au_mono(m: ModelView, a: Set<State>, b: Set<State>, k: nat)
    ensures
        au_iter(m, a, b, k).subset_of(au_iter(m, a, b, k + 1)),
    decreases k,
{
    if k > 0 {
        lemma_au_mono(m, a, b, (k - 1) as nat);
    }
}

/// A set that holds the `b`-states, and every `a`-state that has successors, all of them in
/// the set, holds every state of `A(a U b)`.
proof fn lemma_au_least(
    m: ModelView,
    a: Set<State>,
    b: Set<State>,
    mk: Set<State>,
    k: nat,
    s: State,
)
    requires
        m.wf(),
        m.states.contains(s),
        au_iter(m, a, b, k).contains(s),
        forall|x: State| m.states.contains(x) && b.contains(x) ==> mk.contains(x),
        forall|x: State|
            m.states.contains(x) && a.contains(x) && m.succ[x].len() > 0 && (forall|i: int|
                0 <= i < m.succ[x].len() ==> mk.contains(#[trigger] m.succ[x][i]))
                ==> #[trigger] mk.contains(x),
    ensures
        mk.contains(s),
    decreases k,
{
    if !b.contains(s) {
        let k0 = (k - 1) as nat;
        assert(au_iter(m, a, b, k) == au_step(m, a, b, au_iter(m, a, b, k0)));
        assert forall|i: int| 0 <= i < m.succ[s].len() implies mk.contains(#[trigger] m.succ[s][i])
            by {
            assert(m.states.contains(m.succ[s][i]));
            lemma_au_least(m, a, b, mk, k0, m.succ[s][i]);
        }
    }
}

impl Checker {
    /// The checker is ready to answer queries.
    pub closed spec fn wf(&self) -> bool {
        self.model.wf()
    }

    /// The structure that is checked.
    pub closed spec fn model_view(&self) -> ModelView {
        self.model@
    }

    /// A checker for `model`.
    pub fn new(model: Model) -> (r: Checker)
        requires
            model.wf(),
        ensures
            r.wf(),
            r.model_view() == model@,
    {
        Checker { model: model }
    }

    /// The states whose label holds `id`.
    fn marking_atomic(&self, id: &Proposition) -> (r: Marking)
        requires
            self.wf(),
        ensures
            r@ == self.model_view().states.filter(
                |s: State| self.model_view().label[s].contains(*id),
            ),
    {
        let m = Ghost(self.model@);
        let order = self.model.state_list();
        let mut r: Marking = HashSet::new();
        let mut i: usize = 0;
        while i < order.len()
            invariant
                self.wf(),
                m@ == self.model@,
                order@.to_set() == m@.states,
                i <= order@.len(),
                forall|s: State| #[trigger] r@.contains(s) <==> among_first(order@, i as int, s)
                    && m@.label[s].contains(*id),
            decreases order@.len() - i,
        {
            let s = order[i];
            assert(order@.contains(s));
            if self.model.label(&s).contains(id) {
                r.insert(s);
            }
            i = i + 1;
            assert forall|x: State| #[trigger] r@.contains(x) <==> among_first(order@, i as int, x)
                && m@.label[x].contains(*id) by {
                if among_first(order@, i - 1, x) {
                    assert(among_first(order@, i as int, x));
                }
                if x == s {
                    assert(order@[i - 1] == s);
                }
            }
        }
        assert(r@ =~= m@.states.filter(|s: State| m@.label[s].contains(*id))) by {
            assert forall|x: State| m@.states.contains(x)
                implies among_first(order@, order@.len() as int, x) by {
                assert(order@.contains(x));
            }
        }
        r
    }

    /// The states in both `m1` and `m2`.
    fn marking_and(&self, m1: &Marking, m2: &Marking) -> (r: Marking)
        requires
            self.wf(),
            m1@.subset_of(self.model_view().states),
        ensures
            r@ == m1@.intersect(m2@),
    {
        let m = Ghost(self.model@);
        let order = self.model.state_list();
        let mut r: Marking = HashSet::new();
        let mut i: usize = 0;
        while i < order.len()
            invariant
                self.wf(),
                m@ == self.model@,
                order@.to_set() == m@.states,
                i <= order@.len(),
                forall|s: State| #[trigger] r@.contains(s) <==> among_first(order@, i as int, s)
                    && m1@.contains(s) && m2@.contains(s),
            decreases order@.len() - i,
        {
            let s = order[i];
            assert(order@.contains(s));
            if m1.contains(&s) && m2.contains(&s) {
                r.insert(s);
            }
            i = i + 1;
            assert forall|x: State| #[trigger] r@.contains(x) <==> among_first(order@, i as int, x)
                && m1@.contains(x) && m2@.contains(x) by {
                if among_first(order@, i - 1, x) {
                    assert(among_first(order@, i as int, x));
                }
                if x == s {
                    assert(order@[i - 1] == s);
                }
            }
        }
        assert(r@ =~= m1@.intersect(m2@)) by {
            assert forall|x: State| m@.states.contains(x)
                implies among_first(order@, order@.len() as int, x) by {
                assert(order@.contains(x));
            }
        }
        r
    }

    /// The states not in `m1`.
    fn marking_not(&self, m1: &Marking) -> (r: Marking)
        requires
            self.wf(),
        ensures
            r@ == self.model_view().states.difference(m1@),
    {
        let m = Ghost(self.model@);
        let order = self.model.state_list();
        let mut r: Marking = HashSet::new();
        let mut i: usize = 0;
        while i < order.len()
            invariant
                self.wf(),
                m@ == self.model@,
                order@.to_set() == m@.states,
                i <= order@.len(),
                forall|s: State| #[trigger] r@.contains(s) <==> among_first(order@, i as int, s)
                    && !m1@.contains(s),
            decreases order@.len() - i,
        {
            let s = order[i];
            assert(order@.contains(s));
            if !m1.contains(&s) {
                r.insert(s);
            }
            i = i + 1;
            assert forall|x: State| #[trigger] r@.contains(x) <==> among_first(order@, i as int, x)
                && !m1@.contains(x) by {
                if among_first(order@, i - 1, x) {
                    assert(among_first(order@, i as int, x));
                }
                if x == s {
                    assert(order@[i - 1] == s);
                }
            }
        }
        assert(r@ =~= m@.states.difference(m1@)) by {
            assert forall|x: State| m@.states.contains(x)
                implies among_first(order@, order@.len() as int, x) by {
                assert(order@.contains(x));
            }
        }
        r
    }

    /// The states with a successor in `m1`.
    fn marking_ex(&self, m1: &Marking) -> (r: Marking)
        requires
            self.wf(),
        ensures
            r@ == ex_set(self.model_view(), m1@),
    {
        let m = Ghost(self.model@);
        let order = self.model.state_list();
        let mut r: Marking = HashSet::new();
        let mut i: usize = 0;
        while i < order.len()
            invariant
                self.wf(),
                m@ == self.model@,
                order@.to_set() == m@.states,
                i <= order@.len(),
                forall|s: State| #[trigger] r@.contains(s) <==> among_first(order@, i as int, s)
                    && exists|k: int| 0 <= k < m@.succ[s].len()
                    && m1@.contains(#[trigger] m@.succ[s][k]),
            decreases order@.len() - i,
        {
            let s = order[i];
            assert(order@.contains(s));
            if any_in(self.model.successors(&s), m1) {
                r.insert(s);
            }
            i = i + 1;
            assert forall|x: State| #[trigger] r@.contains(x) <==> among_first(order@, i as int, x)
                && exists|k: int| 0 <= k < m@.succ[x].len()
                && m1@.contains(#[trigger] m@.succ[x][k]) by {
                if among_first(order@, i - 1, x) {
                    assert(among_first(order@, i as int, x));
                }
                if x == s {
                    assert(order@[i - 1] == s);
                }
            }
        }
        assert(r@ =~= ex_set(m@, m1@)) by {
            assert forall|x: State| m@.states.contains(x)
                implies among_first(order@, order@.len() as int, x) by {
                assert(order@.contains(x));
            }
        }
        r
    }

    /// The states all of whose successors are in `m1`, among them every state without successors.
    fn marking_ax(&self, m1: &Marking) -> (r: Marking)
        requires
            self.wf(),
        ensures
            r@ == ax_set(self.model_view(), m1@),
    {
        let m = Ghost(self.model@);
        let order = self.model.state_list();
        let mut r: Marking = HashSet::new();
        let mut i: usize = 0;
        while i < order.len()
            invariant
                self.wf(),
                m@ == self.model@,
                order@.to_set() == m@.states,
                i <= order@.len(),
                forall|s: State| #[trigger] r@.contains(s) <==> among_first(order@, i as int, s)
                    && forall|k: int| 0 <= k < m@.succ[s].len()
                    ==> m1@.contains(#[trigger] m@.succ[s][k]),
            decreases order@.len() - i,
        {
            let s = order[i];
            assert(order@.contains(s));
            if all_in(self.model.successors(&s), m1) {
                r.insert(s);
            }
            i = i + 1;
            assert forall|x: State| #[trigger] r@.contains(x) <==> among_first(order@, i as int, x)
                && forall|k: int| 0 <= k < m@.succ[x].len()
                ==> m1@.contains(#[trigger] m@.succ[x][k]) by {
                if among_first(order@, i - 1, x) {
                    assert(among_first(order@, i as int, x));
                }
                if x == s {
                    assert(order@[i - 1] == s);
                }
            }
        }
        assert(r@ =~= ax_set(m@, m1@)) by {
            assert forall|x: State| m@.states.contains(x)
                implies among_first(order@, order@.len() as int, x) by {
                assert(order@.contains(x));
            }
        }
        r
    }

    /// The states of `E(m1 U m2)`, by a backward search from the `m2`-states through the
    /// `m1`-states; a state is marked when it enters the work-list and enters it at most once.
    fn marking_eu(&self, m1: &Marking, m2: &Marking) -> (r: Marking)
        requires
            self.wf(),
        ensures
            r@ == eu_set(self.model_view(), m1@, m2@),
    {
        let m = Ghost(self.model@);
        let order = self.model.state_list();
        let mut to_lookup: Vec<State> = Vec::new();
        let mut marking: Marking = HashSet::new();
        let mut i: usize = 0;
        while i < order.len()
            invariant
                self.wf(),
                m@ == self.model@,
                order@.to_set() == m@.states,
                order@.no_duplicates(),
                i <= order@.len(),
                forall|s: State| #[trigger] marking@.contains(s)
                    <==> among_first(order@, i as int, s) && m2@.contains(s),
                forall|s: State| #[trigger] to_lookup@.contains(s) <==> marking@.contains(s),
                to_lookup@.no_duplicates(),
            decreases order@.len() - i,
        {
            let s = order[i];
            proof {
                assert(order@.contains(s));
                if among_first(order@, i as int, s) {
                    let j = choose|j: int| 0 <= j < i && order@[j] == s;
                    assert(order@[j] == order@[i as int]);
                }
            }
            if m2.contains(&s) {
                proof {
                    lemma_push_no_dup(to_lookup@, s);
                }
                marking.insert(s);
                to_lookup.push(s);
            }
            i = i + 1;
            assert forall|x: State| #[trigger] marking@.contains(x)
                <==> among_first(order@, i as int, x) && m2@.contains(x) by {
                if among_first(order@, i - 1, x) {
                    assert(among_first(order@, i as int, x));
                }
                if x == s {
                    assert(order@[i - 1] == s);
                }
            }
        }
        proof {
            assert forall|x: State| m@.states.contains(x)
                implies among_first(order@, order@.len() as int, x) by {
                assert(order@.contains(x));
            }
            assert(marking@.subset_of(m@.states));
            vstd::set_lib::lemma_len_subset(marking@, m@.states);
            assert forall|x: State| #[trigger] marking@.contains(x)
                implies exists|k: nat| #[trigger] eu_iter(m@, m1@, m2@, k).contains(x) by {
                assert(eu_iter(m@, m1@, m2@, 0).contains(x));
            }
        }
        while to_lookup.len() > 0
            invariant
                self.wf(),
                m@ == self.model@,
                marking@.subset_of(m@.states),
                marking@.finite(),
                marking@.len() <= m@.states.len(),
                forall|s: State| #[trigger] marking@.contains(s)
                    ==> exists|k: nat| #[trigger] eu_iter(m@, m1@, m2@, k).contains(s),
                forall|s: State| m@.states.contains(s) && m2@.contains(s)
                    ==> #[trigger] marking@.contains(s),
                forall|s: State| #[trigger] to_lookup@.contains(s) ==> marking@.contains(s),
                to_lookup@.no_duplicates(),
                forall|t: State, j: int|
                    marking@.contains(t) && !to_lookup@.contains(t) && 0 <= j < m@.pred[t].len()
                        && m1@.contains(#[trigger] m@.pred[t][j])
                            ==> marking@.contains(m@.pred[t][j]),
            decreases 2 * (m@.states.len() - marking@.len()) + to_lookup@.len(),
        {
            let ghost before = to_lookup@;
            let s = to_lookup.pop().unwrap();
            proof {
                lemma_pop_no_dup(before);
                assert(before =~= to_lookup@.push(s));
                assert(before.contains(s));
                assert forall|x: State| #[trigger] to_lookup@.contains(x)
                    implies marking@.contains(x) by {
                    assert(before.contains(x));
                }
            }
            let ghost bound = 2 * (m@.states.len() - marking@.len()) + to_lookup@.len();
            let preds = self.model.predecessors(&s);
            let mut j: usize = 0;
            while j < preds.len()
                invariant
                    self.wf(),
                    m@ == self.model@,
                    preds@ == m@.pred[s],
                    j <= preds@.len(),
                    marking@.contains(s),
                    !to_lookup@.contains(s),
                    marking@.subset_of(m@.states),
                    marking@.finite(),
                    marking@.len() <= m@.states.len(),
                    2 * (m@.states.len() - marking@.len()) + to_lookup@.len() <= bound,
                    forall|x: State| #[trigger] marking@.contains(x)
                        ==> exists|k: nat| #[trigger] eu_iter(m@, m1@, m2@, k).contains(x),
                    forall|x: State| m@.states.contains(x) && m2@.contains(x)
                        ==> #[trigger] marking@.contains(x),
                    forall|x: State| #[trigger] to_lookup@.contains(x) ==> marking@.contains(x),
                    to_lookup@.no_duplicates(),
                    forall|t: State, jj: int|
                        t != s && marking@.contains(t) && !to_lookup@.contains(t) && 0
                            <= jj < m@.pred[t].len()
                            && m1@.contains(#[trigger] m@.pred[t][jj])
                                ==> marking@.contains(m@.pred[t][jj]),
                    forall|jj: int| 0 <= jj < j && m1@.contains(#[trigger] preds@[jj])
                        ==> marking@.contains(preds@[jj]),
                decreases preds@.len() - j,
            {
                let p = preds[j];
                proof {
                    lemma_pred_edge(m@, s, j as int);
                }
                if m1.contains(&p) && !marking.contains(&p) {
                    proof {
                        let k = choose|k: nat| #[trigger] eu_iter(m@, m1@, m2@, k).contains(s);
                        let ii = choose|ii: int| 0 <= ii < m@.succ[p].len() && m@.succ[p][ii] == s;
                        let k1: nat = k + 1;
                        assert(eu_iter(m@, m1@, m2@, (k1 - 1) as nat).contains(m@.succ[p][ii]));
                        assert(eu_iter(m@, m1@, m2@, k1)
                            == eu_step(m@, m1@, m2@, eu_iter(m@, m1@, m2@, k)));
                        assert(eu_iter(m@, m1@, m2@, k1).contains(p));
                        lemma_push_no_dup(to_lookup@, p);
                    }
                    marking.insert(p);
                    to_lookup.push(p);
                    proof {
                        vstd::set_lib::lemma_len_subset(marking@, m@.states);
                    }
                }
                j = j + 1;
            }
        }
        proof {
            assert forall|x: State| #[trigger] eu_set(m@, m1@, m2@).contains(x)
                implies marking@.contains(x) by {
                let k = choose|k: nat| #[trigger] eu_iter(m@, m1@, m2@, k).contains(x);
                lemma_eu_least(m@, m1@, m2@, marking@, k, x);
            }
            assert(marking@ =~= eu_set(m@, m1@, m2@));
        }
        marking
    }

    /// The states of `A(m1 U m2)`, by a backward search from the `m2`-states: each state keeps
    /// the number of its successors not yet found, and an `m1`-state joins when that number
    /// reaches zero. A state is marked when it enters the work-list and enters it at most once.
    fn marking_au(&self, m1: &Marking, m2: &Marking) -> (r: Marking)
        requires
            self.wf(),
        ensures
            r@ == au_set(self.model_view(), m1@, m2@),
    {
        let m = Ghost(self.model@);
        let order = self.model.state_list();
        let mut to_lookup: Vec<State> = Vec::new();
        let mut marking: Marking = HashSet::new();
        let mut count: HashMap<State, usize> = HashMap::new();
        let mut i: usize = 0;
        while i < order.len()
            invariant
                self.wf(),
                m@ == self.model@,
                order@.to_set() == m@.states,
                order@.no_duplicates(),
                i <= order@.len(),
                forall|s: State| #[trigger] marking@.contains(s)
                    <==> among_first(order@, i as int, s) && m2@.contains(s),
                forall|s: State| #[trigger] to_lookup@.contains(s) <==> marking@.contains(s),
                to_lookup@.no_duplicates(),
                forall|s: State| #[trigger] count@.contains_key(s)
                    <==> among_first(order@, i as int, s),
                forall|s: State| #[trigger] count@.contains_key(s) ==> count@[s]
                    == m@.succ[s].len(),
            decreases order@.len() - i,
        {
            let s = order[i];
            proof {
                assert(order@.contains(s));
                if among_first(order@, i as int, s) {
                    let j = choose|j: int| 0 <= j < i && order@[j] == s;
                    assert(order@[j] == order@[i as int]);
                }
            }
            count.insert(s, self.model.successors(&s).len());
            if m2.contains(&s) {
                proof {
                    lemma_push_no_dup(to_lookup@, s);
                }
                marking.insert(s);
                to_lookup.push(s);
            }
            i = i + 1;
            assert forall|x: State| among_first(order@, i as int, x)
                <==> among_first(order@, i - 1, x) || x == s by {
                if among_first(order@, i - 1, x) {
                    assert(among_first(order@, i as int, x));
                }
                if x == s {
                    assert(order@[i - 1] == s);
                }
            }
        }
        let ghost mut done: Set<State> = Set::empty();
        let ghost mut kmax: nat = 0;
        proof {
            assert forall|x: State| m@.states.contains(x)
                implies among_first(order@, order@.len() as int, x) by {
                assert(order@.contains(x));
            }
            assert(marking@.subset_of(m@.states));
            assert(count@.dom() =~= m@.states);
            vstd::set_lib::lemma_len_subset(marking@, m@.states);
            assert forall|p: State| m@.states.contains(p) implies #[trigger] count@[p] as int
                == m@.succ[p].len() - count_in(m@.succ[p], done) by {
                lemma_count_in_empty(m@.succ[p]);
            }
        }
        while to_lookup.len() > 0
            invariant
                self.wf(),
                m@ == self.model@,
                marking@.subset_of(m@.states),
                marking@.finite(),
                marking@.len() <= m@.states.len(),
                forall|s: State| #[trigger] marking@.contains(s)
                    ==> au_iter(m@, m1@, m2@, kmax).contains(s),
                forall|s: State| m@.states.contains(s) && m2@.contains(s)
                    ==> #[trigger] marking@.contains(s),
                forall|s: State| #[trigger] to_lookup@.contains(s) ==> marking@.contains(s),
                to_lookup@.no_duplicates(),
                forall|s: State| #[trigger] done.contains(s) <==> marking@.contains(s)
                    && !to_lookup@.contains(s),
                count@.dom() == m@.states,
                forall|p: State| m@.states.contains(p) ==> #[trigger] count@[p] as int
                    == m@.succ[p].len() - count_in(m@.succ[p], done),
                forall|p: State|
                    m@.states.contains(p) && m1@.contains(p) && m@.succ[p].len() > 0 && count@[p]
                        == 0
                        ==> #[trigger] marking@.contains(p),
            decreases 2 * (m@.states.len() - marking@.len()) + to_lookup@.len(),
        {
            let ghost before = to_lookup@;
            let s = to_lookup.pop().unwrap();
            proof {
                lemma_pop_no_dup(before);
                assert(before =~= to_lookup@.push(s));
                assert(before.contains(s));
                assert forall|x: State| #[trigger] to_lookup@.contains(x)
                    implies marking@.contains(x) by {
                    assert(before.contains(x));
                }
            }
            let ghost bound = 2 * (m@.states.len() - marking@.len()) + to_lookup@.len();
            let preds = self.model.predecessors(&s);
            let mut j: usize = 0;
            while j < preds.len()
                invariant
                    self.wf(),
                    m@ == self.model@,
                    preds@ == m@.pred[s],
                    j <= preds@.len(),
                    marking@.contains(s),
                    !to_lookup@.contains(s),
                    !done.contains(s),
                    marking@.subset_of(m@.states),
                    marking@.finite(),
                    marking@.len() <= m@.states.len(),
                    2 * (m@.states.len() - marking@.len()) + to_lookup@.len() <= bound,
                    forall|x: State| #[trigger] marking@.contains(x)
                        ==> au_iter(m@, m1@, m2@, kmax).contains(x),
                    forall|x: State| m@.states.contains(x) && m2@.contains(x)
                        ==> #[trigger] marking@.contains(x),
                    forall|x: State| #[trigger] to_lookup@.contains(x) ==> marking@.contains(x),
                    to_lookup@.no_duplicates(),
                    forall|x: State| #[trigger] done.contains(x) <==> marking@.contains(x)
                        && !to_lookup@.contains(x) && x != s,
                    count@.dom() == m@.states,
                    forall|p: State| m@.states.contains(p) ==> #[trigger] count@[p] as int
                        == m@.succ[p].len()
                        - count_in(m@.succ[p], done) - occurrences(preds@.take(j as int), p),
                    forall|p: State|
                        m@.states.contains(p) && m1@.contains(p) && m@.succ[p].len() > 0
                            && count@[p] == 0
                            ==> #[trigger] marking@.contains(p),
                decreases preds@.len() - j,
            {
                let p = preds[j];
                let ghost old_count = count@;
                proof {
                    lemma_pred_edge(m@, s, j as int);
                    lemma_occurrences_take(preds@, j as int, p);
                    lemma_occurrences_prefix(preds@, j + 1, p);
                    assert(occurrences(m@.pred[s], p) == occurrences(m@.succ[p], s));
                    lemma_count_in_insert(m@.succ[p], done, s);
                    lemma_count_in_full(m@.succ[p], done.insert(s));
                }
                let c = *count.get(&p).unwrap();
                count.insert(p, c - 1);
                proof {
                    assert forall|q: State| m@.states.contains(q)
                        implies #[trigger] count@[q] as int == m@.succ[q].len()
                        - count_in(m@.succ[q], done) - occurrences(preds@.take(j + 1), q) by {
                        lemma_occurrences_take(preds@, j as int, q);
                        if q != p {
                            assert(count@[q] == old_count[q]);
                        }
                    }
                }
                if c - 1 == 0 && m1.contains(&p) && !marking.contains(&p) {
                    proof {
                        assert forall|ii: int| 0 <= ii < m@.succ[p].len()
                            implies au_iter(m@, m1@, m2@, kmax).contains(#[trigger] m@.succ[p][ii])
                            by {
                            assert(done.insert(s).contains(m@.succ[p][ii]));
                        }
                        let k1: nat = kmax + 1;
                        assert(au_iter(m@, m1@, m2@, k1)
                            == au_step(m@, m1@, m2@, au_iter(m@, m1@, m2@, kmax)));
                        assert(au_iter(m@, m1@, m2@, k1).contains(p));
                        lemma_au_mono(m@, m1@, m2@, kmax);
                        kmax = k1;
                        lemma_push_no_dup(to_lookup@, p);
                    }
                    marking.insert(p);
                    to_lookup.push(p);
                    proof {
                        vstd::set_lib::lemma_len_subset(marking@, m@.states);
                    }
                }
                j = j + 1;
            }
            proof {
                assert(preds@.take(preds@.len() as int) =~= preds@);
                assert forall|q: State| m@.states.contains(q) implies #[trigger] count@[q] as int
                    == m@.succ[q].len()
                    - count_in(m@.succ[q], done.insert(s)) by {
                    assert(occurrences(m@.pred[s], q) == occurrences(m@.succ[q], s));
                    lemma_count_in_insert(m@.succ[q], done, s);
                }
                done = done.insert(s);
            }
        }
        proof {
            assert forall|p: State|
                m@.states.contains(p) && m1@.contains(p) && m@.succ[p].len() > 0 && (forall|i: int|
                    0 <= i < m@.succ[p].len() ==> marking@.contains(#[trigger] m@.succ[p][i]))
                    implies #[trigger] marking@.contains(p) by {
                assert(marking@ == done);
                lemma_count_in_full(m@.succ[p], done);
                assert(count_in(m@.succ[p], done) == m@.succ[p].len()) by {
                    lemma_count_all(m@.succ[p], done);
                }
            }
            assert forall|x: State| #[trigger] au_set(m@, m1@, m2@).contains(x)
                implies marking@.contains(x) by {
                let k = choose|k: nat| #[trigger] au_iter(m@, m1@, m2@, k).contains(x);
                lemma_au_least(m@, m1@, m2@, marking@, k, x);
            }
            assert forall|x: State| #[trigger] marking@.contains(x)
                implies au_set(m@, m1@, m2@).contains(x) by {
                assert(au_iter(m@, m1@, m2@, kmax).contains(x));
            }
            assert(marking@ =~= au_set(m@, m1@, m2@));
        }
        marking
    }

    /// The states of `E phi`.
    fn marking_e(&self, phi: &TemporalFormula) -> (r: Marking)
        requires
            self.wf(),
        ensures
            r@ == marking(self.model_view(), FormulaEnum::E(*phi)),
        decreases **phi,
    {
        match &**phi {
            TemporalFormulaEnum::X(psi) => {
                let m1 = self.marking(psi);
                self.marking_ex(&m1)
            },
            TemporalFormulaEnum::U(psi1, psi2) => {
                let m1 = self.marking(psi1);
                let m2 = self.marking(psi2);
                self.marking_eu(&m1, &m2)
            },
        }
    }

    /// The states of `A phi`.
    fn marking_a(&self, phi: &TemporalFormula) -> (r: Marking)
        requires
            self.wf(),
        ensures
            r@ == marking(self.model_view(), FormulaEnum::A(*phi)),
        decreases **phi,
    {
        match &**phi {
            TemporalFormulaEnum::X(psi) => {
                let m1 = self.marking(psi);
                self.marking_ax(&m1)
            },
            TemporalFormulaEnum::U(psi1, psi2) => {
                let m1 = self.marking(psi1);
                let m2 = self.marking(psi2);
                self.marking_au(&m1, &m2)
            },
        }
    }

    /// The states at which `phi` holds; the operands are marked first, then combined.
    fn marking(&self, phi: &Formula) -> (r: Marking)
        requires
            self.wf(),
        ensures
            r@ == marking(self.model_view(), **phi),
        decreases **phi,
    {
        match &**phi {
            FormulaEnum::Atomic(id) => self.marking_atomic(id),
            FormulaEnum::And(psi1, psi2) => {
                let m1 = self.marking(psi1);
                let m2 = self.marking(psi2);
                proof {
                    lemma_marking_within(self.model_view(), &**psi1);
                }
                self.marking_and(&m1, &m2)
            },
            FormulaEnum::Not(psi) => {
                let m1 = self.marking(psi);
                self.marking_not(&m1)
            },
            FormulaEnum::E(psi) => self.marking_e(psi),
            FormulaEnum::A(psi) => self.marking_a(psi),
        }
    }

    /// Whether `property` holds at the initial state.
    pub fn check(&self, property: &Formula) -> (r: bool)
        requires
            self.wf(),
        ensures
            r == satisfies(self.model_view(), **property),
    {
        let marking = self.marking(property);
        marking.contains(self.model.initial_state())
    }

    /// The structure that is checked.
    pub fn model(&self) -> (r: &Model)
        ensures
            r@ == self.model_view(),
            self.wf() ==> r.wf(),
    {
        &self.model
    }
}

} // verus!
