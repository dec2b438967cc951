use std::rc::Rc;
use vstd::prelude::*;

use crate::ctl::{Formula, FormulaEnum, TemporalFormulaEnum};
use crate::semantics::{au_iter, au_step, eu_iter, eu_step, lemma_marking_within, marking};
use crate::structure::{ModelView, State};

verus! {

/// `E(f U g)` as a formula.
pub open spec fn eu_formula(f: Formula, g: Formula) -> FormulaEnum {
    FormulaEnum::E(Rc::new(TemporalFormulaEnum::U(f, g)))
}

/// `A(f U g)` as a formula.
pub open spec fn au_formula(f: Formula, g: Formula) -> FormulaEnum {
    FormulaEnum::A(Rc::new(TemporalFormulaEnum::U(f, g)))
}

/// Negation complements: `Not f` holds exactly at the states where `f` does not.
pub proof fn lemma_complement(m: ModelView, f: Formula)
    ensures
        marking(m, FormulaEnum::Not(f)) == m.states.difference(marking(m, *f)),
{
}

/// A state without successors satisfies `A(X f)`, whatever `f` is.
pub proof fn lemma_vacuous_ax(m: ModelView, f: Formula, s: State)
    requires
        m.wf(),
        m.states.contains(s),
        m.succ[s].len() == 0,
    ensures
        marking(m, FormulaEnum::A(Rc::new(TemporalFormulaEnum::X(f)))).contains(s),
{
}

/// Every state of `g` is a state of `E(f U g)`.
pub proof fn lemma_eu_contains_goal(m: ModelView, f: Formula, g: Formula)
    ensures
        marking(m, *g).subset_of(marking(m, eu_formula(f, g))),
{
    lemma_marking_within(m, &*g);
    assert forall|s: State| marking(m, *g).contains(s)
        implies marking(m, eu_formula(f, g)).contains(s) by {
        assert(eu_iter(m, marking(m, *f), marking(m, *g), 0).contains(s));
    }
}

/// Where no `a`-state has a successor in `b`, the iterates of `E(a U b)` add no state.
proof fn lemma_eu_iter_stays(m: ModelView, a: Set<State>, b: Set<State>, k: nat, s: State)
    requires
        m.wf(),
        m.states.contains(s),
        eu_iter(m, a, b, k).contains(s),
        forall|x: State, i: int|
            m.states.contains(x) && a.contains(x) && 0 <= i < m.succ[x].len() ==> !b.contains(
                #[trigger] m.succ[x][i],
            ),
    ensures
        b.contains(s),
    decreases k,
{
    if k > 0 && !b.contains(s) {
        let k0 = (k - 1) as nat;
        assert(eu_iter(m, a, b, k) == eu_step(m, a, b, eu_iter(m, a, b, k0)));
        let i = choose|i: int| 0 <= i < m.succ[s].len()
            && eu_iter(m, a, b, k0).contains(#[trigger] m.succ[s][i]);
        lemma_eu_iter_stays(m, a, b, k0, m.succ[s][i]);
    }
}

/// Where no state of `f` has a successor in `g`, `E(f U g)` holds exactly where `g` does.
pub proof fn lemma_eu_no_progress(m: ModelView, f: Formula, g: Formula)
    requires
        m.wf(),
        forall|x: State, i: int|
            m.states.contains(x) && marking(m, *f).contains(x) && 0 <= i < m.succ[x].len()
                ==> !marking(m, *g).contains(#[trigger] m.succ[x][i]),
    ensures
        marking(m, eu_formula(f, g)) == marking(m, *g),
{
    lemma_eu_contains_goal(m, f, g);
    assert forall|s: State| marking(m, eu_formula(f, g)).contains(s)
        implies marking(m, *g).contains(s) by {
        let k = choose|k: nat| #[trigger] eu_iter(m, marking(m, *f), marking(m, *g), k).contains(s);
        lemma_eu_iter_stays(m, marking(m, *f), marking(m, *g), k, s);
    }
    assert(marking(m, eu_formula(f, g)) =~= marking(m, *g));
}

/// Each iterate of `A(a U b)` lies within the same iterate of `E(a U b)`.
proof fn lemma_au_iter_in_eu_iter(m: ModelView, a: Set<State>, b: Set<State>, k: nat, s: State)
    requires
        m.wf(),
        m.states.contains(s),
        au_iter(m, a, b, k).contains(s),
    ensures
        eu_iter(m, a, b, k).contains(s),
    decreases k,
{
    if k > 0 && !b.contains(s) {
        let k0 = (k - 1) as nat;
        assert(au_iter(m, a, b, k) == au_step(m, a, b, au_iter(m, a, b, k0)));
        assert(eu_iter(m, a, b, k) == eu_step(m, a, b, eu_iter(m, a, b, k0)));
        let t = m.succ[s][0];
        assert(au_iter(m, a, b, k0).contains(t));
        lemma_au_iter_in_eu_iter(m, a, b, k0, t);
        assert(eu_iter(m, a, b, k0).contains(m.succ[s][0]));
    }
}

/// `A(f U g)` implies `E(f U g)`.
pub proof fn lemma_au_implies_eu(m: ModelView, f: Formula, g: Formula)
    requires
        m.wf(),
    ensures
        marking(m, au_formula(f, g)).subset_of(marking(m, eu_formula(f, g))),
{
    assert forall|s: State| marking(m, au_formula(f, g)).contains(s)
        implies marking(m, eu_formula(f, g)).contains(s) by {
        let k = choose|k: nat| #[trigger] au_iter(m, marking(m, *f), marking(m, *g), k).contains(s);
        lemma_au_iter_in_eu_iter(m, marking(m, *f), marking(m, *g), k, s);
    }
}

/// With a single state, the iterates of `A(a U b)` add no state to `b`.
proof fn lemma_au_iter_single(m: ModelView, a: Set<State>, b: Set<State>, k: nat, s: State)
    requires
        m.wf(),
        m.states == set![s],
        au_iter(m, a, b, k).contains(s),
    ensures
        b.contains(s),
    decreases k,
{
    if k > 0 && !b.contains(s) {
        let k0 = (k - 1) as nat;
        assert(au_iter(m, a, b, k) == au_step(m, a, b, au_iter(m, a, b, k0)));
        let t = m.succ[s][0];
        assert(m.states.contains(t));
        assert(t == s);
        assert(au_iter(m, a, b, k0).contains(t));
        lemma_au_iter_single(m, a, b, k0, s);
    }
}

/// In a structure with a single state, whatever its edges (a self-loop among them),
/// `A(f U g)` holds exactly where `g` does.
pub proof fn lemma_au_single_state(m: ModelView, f: Formula, g: Formula, s: State)
    requires
        m.wf(),
        m.states == set![s],
    ensures
        marking(m, au_formula(f, g)) == marking(m, *g),
{
    lemma_marking_within(m, &*g);
    assert forall|x: State| marking(m, au_formula(f, g)).contains(x)
        implies marking(m, *g).contains(x) by {
        let k = choose|k: nat| #[trigger] au_iter(m, marking(m, *f), marking(m, *g), k).contains(x);
        lemma_au_iter_single(m, marking(m, *f), marking(m, *g), k, x);
    }
    assert forall|x: State| marking(m, *g).contains(x)
        implies marking(m, au_formula(f, g)).contains(x) by {
        assert(au_iter(m, marking(m, *f), marking(m, *g), 0).contains(x));
    }
    assert(marking(m, au_formula(f, g)) =~= marking(m, *g));
}

} // verus!
