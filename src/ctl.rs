use std::rc::Rc;
use vstd::prelude::*;

verus! {

/// An atomic proposition.
pub type Proposition = i32;

/// A shared handle to a state formula.
pub type Formula = Rc<FormulaEnum>;

/// A shared handle to a path formula.
pub type TemporalFormula = Rc<TemporalFormulaEnum>;

/// A CTL state formula.
pub enum FormulaEnum {
    Atomic(Proposition),
    And(Formula, Formula),
    Not(Formula),
    E(TemporalFormula),
    A(TemporalFormula),
}

/// A CTL path formula; it only has meaning under `E` or `A`.
pub enum TemporalFormulaEnum {
    X(Formula),
    U(Formula, Formula),
}

} // verus!
