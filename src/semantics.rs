use vstd::prelude::*;

use crate::ctl::{FormulaEnum, TemporalFormulaEnum};
use crate::structure::{ModelView, State};

verus! {

/// States with at least one successor in `a`.
pub open spec fn ex_set(m: ModelView, a: Set<State>) -> Set<State> {
    Set::new(
        |s: State|
            m.states.contains(s) && exists|i: int|
                0 <= i < m.succ[s].len() && a.contains(#[trigger] m.succ[s][i]),
    )
}

/// States all of whose successors are in `a`; a state without successors is one of them.
pub open spec fn ax_set(m: ModelView, a: Set<State>) -> Set<State> {
    Set::new(
        |s: State|
            m.states.contains(s) && forall|i: int|
                0 <= i < m.succ[s].len() ==> a.contains(#[trigger] m.succ[s][i]),
    )
}

/// One backward step of `E(a U b)` from `x`: the `b`-states, and the `a`-states with a
/// successor in `x`.
pub open spec fn eu_step(m: ModelView, a: Set<State>, b: Set<State>, x: Set<State>) -> Set<State> {
    Set::new(
        |s: State|
            b.contains(s) || (a.contains(s) && exists|i: int|
                0 <= i < m.succ[s].len() && x.contains(#[trigger] m.succ[s][i])),
    )
}

/// One backward step of `A(a U b)` from `x`: the `b`-states, and the `a`-states that have
/// successors, all of them in `x`.
pub open spec fn au_step(m: ModelView, a: Set<State>, b: Set<State>, x: Set<State>) -> Set<State> {
    Set::new(
        |s: State|
            b.contains(s) || (a.contains(s) && m.succ[s].len() > 0 && forall|i: int|
                0 <= i < m.succ[s].len() ==> x.contains(#[trigger] m.succ[s][i])),
    )
}

/// The states from which some path reaches a `b`-state in at most `k` steps, through
/// `a`-states before it.
pub open spec fn eu_iter(m: ModelView, a: Set<State>, b: Set<State>, k: nat) -> Set<State>
    decreases k,
{
    if k == 0 {
        b
    } else {
        eu_step(m, a, b, eu_iter(m, a, b, (k - 1) as nat))
    }
}

/// The states from which every path reaches a `b`-state in at most `k` steps, through
/// `a`-states before it.
pub open spec fn au_iter(m: ModelView, a: Set<State>, b: Set<State>, k: nat) -> Set<State>
    decreases k,
{
    if k == 0 {
        b
    } else {
        au_step(m, a, b, au_iter(m, a, b, (k - 1) as nat))
    }
}

/// The states of `E(a U b)`: the least fixpoint of `eu_step`, the union of its iterates.
pub open spec fn eu_set(m: ModelView, a: Set<State>, b: Set<State>) -> Set<State> {
    Set::new(
        |s: State| m.states.contains(s)
            && exists|k: nat| #[trigger] eu_iter(m, a, b, k).contains(s),
    )
}

/// The states of `A(a U b)`: the least fixpoint of `au_step`, the union of its iterates.
pub open spec fn au_set(m: ModelView, a: Set<State>, b: Set<State>) -> Set<State> {
    Set::new(
        |s: State| m.states.contains(s)
            && exists|k: nat| #[trigger] au_iter(m, a, b, k).contains(s),
    )
}

/// The marking of `f` in `m`: the states at which `f` holds.
pub open spec fn marking(m: ModelView, f: FormulaEnum) -> Set<State>
    decreases f,
{
    match f {
        FormulaEnum::Atomic(p) => m.states.filter(|s: State| m.label[s].contains(p)),
        FormulaEnum::And(a, b) => marking(m, *a).intersect(marking(m, *b)),
        FormulaEnum::Not(a) => m.states.difference(marking(m, *a)),
        FormulaEnum::E(t) => match *t {
            TemporalFormulaEnum::X(a) => ex_set(m, marking(m, *a)),
            TemporalFormulaEnum::U(a, b) => eu_set(m, marking(m, *a), marking(m, *b)),
        },
        FormulaEnum::A(t) => match *t {
            TemporalFormulaEnum::X(a) => ax_set(m, marking(m, *a)),
            TemporalFormulaEnum::U(a, b) => au_set(m, marking(m, *a), marking(m, *b)),
        },
    }
}

/// `f` holds at the initial state of `m`.
pub open spec fn satisfies(m: ModelView, f: FormulaEnum) -> bool {
    marking(m, f).contains(m.initial)
}

/// Every marking lies within the states of the structure.
pub proof fn lemma_marking_within(m: ModelView, f: &FormulaEnum)
    ensures
        marking(m, *f).subset_of(m.states),
    decreases f,
{
    match f {
        FormulaEnum::And(a, b) => {
            lemma_marking_within(m, &**a);
        },
        _ => {},
    }
}

} // verus!
