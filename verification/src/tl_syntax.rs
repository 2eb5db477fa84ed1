//! The CTL formula tree.

use vstd::prelude::*;

verus! {

/// A Computation Tree Logic formula over atomic propositions of type `T`.
///
/// The constant leaves `True` and `False`, the atomic leaf `Atom`, and the
/// Boolean connectives `And`, `Or`, `Not` and `Imply` are evaluated at a
/// single state.  The eight temporal forms pair a path quantifier (`A`: on
/// every path, `E`: on some path) with a path operator (`X`: at the next
/// state, `G`: at every state of the path, `F`: at some state of the path,
/// `U`: until).  Each node owns its sub-formulas, so a formula is a finite
/// tree.
pub enum CTLFormula<T: PartialEq> {
    True,
    False,
    Atom(T),
    And(Box<CTLFormula<T>>, Box<CTLFormula<T>>),
    Or(Box<CTLFormula<T>>, Box<CTLFormula<T>>),
    Not(Box<CTLFormula<T>>),
    Imply(Box<CTLFormula<T>>, Box<CTLFormula<T>>),
    AG(Box<CTLFormula<T>>),
    AF(Box<CTLFormula<T>>),
    AX(Box<CTLFormula<T>>),
    AU(Box<CTLFormula<T>>, Box<CTLFormula<T>>),
    EG(Box<CTLFormula<T>>),
    EF(Box<CTLFormula<T>>),
    EX(Box<CTLFormula<T>>),
    EU(Box<CTLFormula<T>>, Box<CTLFormula<T>>),
}

impl<T: PartialEq> CTLFormula<T> {
    /// The number of nodes of the formula tree; the termination measure for
    /// everything that recurses over a formula.
    pub open spec fn size(self) -> nat
        decreases self,
    {
        match self {
            CTLFormula::True => 1,
            CTLFormula::False => 1,
            CTLFormula::Atom(_) => 1,
            CTLFormula::And(f, g) => 1 + f.size() + g.size(),
            CTLFormula::Or(f, g) => 1 + f.size() + g.size(),
            CTLFormula::Not(f) => 1 + f.size(),
            CTLFormula::Imply(f, g) => 1 + f.size() + g.size(),
            CTLFormula::AG(f) => 1 + f.size(),
            CTLFormula::AF(f) => 1 + f.size(),
            CTLFormula::AX(f) => 1 + f.size(),
            CTLFormula::AU(f, g) => 1 + f.size() + g.size(),
            CTLFormula::EG(f) => 1 + f.size(),
            CTLFormula::EF(f) => 1 + f.size(),
            CTLFormula::EX(f) => 1 + f.size(),
            CTLFormula::EU(f, g) => 1 + f.size() + g.size(),
        }
    }
}

/// Every formula has at least one node.
pub proof fn lemma_size_pos<T: PartialEq>(f: CTLFormula<T>)
    ensures
        f.size() >= 1,
{
}

} // verus!
