//! A model checker for Computation Tree Logic (CTL) over finite labeled
//! transition systems.
//!
//! A caller describes a system as a set of states, each carrying the atomic
//! propositions that hold there and the list of states it can step to, and
//! asks whether a chosen state satisfies a CTL formula.  The evaluation
//! routines are verified against a mathematical satisfaction relation: paths
//! for the reachability operators, and self-sustaining state sets for the
//! operators that speak about infinite runs.

mod checker;
mod laws;
mod model;
mod semantics;
mod tl_syntax;

pub use checker::verify;
pub use laws::lemma_ag_fixed_point;
pub use laws::lemma_backend_equivalence;
pub use laws::lemma_eg_fixed_point;
pub use laws::lemma_future_duality;
pub use laws::lemma_global_duality;
pub use laws::lemma_next_duality;
pub use laws::lemma_order_independence;
pub use laws::lemma_until_all_degenerate;
pub use laws::lemma_until_any_degenerate;
pub use laws::same_shape;
pub use model::keyed_sys;
pub use model::lemma_rows_keyed_agree;
pub use model::rows_has_label;
pub use model::reliable_eq;
pub use model::rows_sys;
pub use model::DiscreteModel;
pub use model::HashedDiscreteModel;
pub use model::Model;
pub use model::StateNotFound;

pub use semantics::closed_sys;
pub use semantics::is_path;
pub use semantics::lemma_mk_step;
pub use semantics::lemma_pick_step;
pub use semantics::reaches;
pub use semantics::sat;
pub use semantics::stay_set;
pub use semantics::step_into;
pub use semantics::until_break_path;
pub use semantics::StateLabel;
pub use semantics::SysMap;
pub use tl_syntax::CTLFormula;
