//! The transition-system abstraction and its two concrete backings.

use std::collections::HashMap;
use std::hash::Hash;

use vstd::prelude::*;
use vstd::std_specs::cmp::PartialEqSpec;
use vstd::std_specs::hash::obeys_key_model;

use crate::semantics::StateLabel;
use crate::semantics::SysMap;

verus! {

broadcast use vstd::std_specs::hash::group_hash_axioms;

/// The single failure of the checker: a lookup named a state that the
/// transition system does not contain.  This marks a malformed model — most
/// often a successor list naming a state that was never declared — and it
/// aborts the enclosing evaluation unchanged.
#[derive(Clone, Copy, Debug, PartialEq, Eq)]
pub struct StateNotFound;

/// Exec equality on `T` can be relied on: the `PartialEq` implementation
/// obeys its vstd specification, and that specification is equality of the
/// values themselves.  This holds for the primitive types and tuples of
/// them; for a hand-written `PartialEq` it is a promise the caller makes.
pub open spec fn reliable_eq<T: PartialEq>() -> bool {
    &&& T::obeys_eq_spec()
    &&& forall|a: &T, b: &T| #[trigger] a.eq_spec(b) <==> a == b
}

/// Does the sequence of values contain `x`?  The linear scan behind both
/// backends' atom lookup.
fn seq_has<T: PartialEq>(values: &Vec<T>, x: &T) -> (r: bool)
    requires
        reliable_eq::<T>(),
    ensures
        r == values@.contains(*x),
{
    let n = values.len();
    let mut i: usize = 0;
    while i < n
        invariant
            reliable_eq::<T>(),
            n == values@.len(),
            0 <= i <= n,
            forall|j: int| 0 <= j < i ==> values@[j] != *x,
        decreases n - i,
    {
        if values[i] == *x {
            return true;
        }
        i += 1;
    }
    false
}

/// A transition system over states of type `S` labeled with atomic
/// propositions of type `A`.  Two operations describe it completely: a
/// membership test for atoms at a state, and the list of states a state can
/// step to.  Each lookup fails with [`StateNotFound`] when the named state
/// is not part of the system.
pub trait Model<S, A>: Sized {
    /// The mathematical transition system that this value represents.
    spec fn sys(&self) -> SysMap<S, A>;

    /// The representation is fit for verified use; each backend states here
    /// what it needs of the state and atom types.
    spec fn wf(&self) -> bool;

    /// A well-formed representation holds finitely many states.
    proof fn wf_finite(&self)
        requires
            self.wf(),
        ensures
            self.sys().dom().finite(),
    ;

    /// Does `atom` hold at `state`?
    fn state_has(&self, state: &S, atom: &A) -> (r: Result<bool, StateNotFound>)
        requires
            self.wf(),
        ensures
            match r {
                Ok(b) => self.sys().contains_key(*state) && b == self.sys()[*state].atoms.contains(
                    *atom,
                ),
                Err(_) => !self.sys().contains_key(*state),
            },
    ;

    /// The ordered list of states that `state` can step to; empty for a
    /// deadlock state, which is a valid answer and not a failure.
    fn transitions<'a>(&'a self, state: &S) -> (r: Result<&'a Vec<S>, StateNotFound>)
        requires
            self.wf(),
        ensures
            match r {
                Ok(v) => self.sys().contains_key(*state) && v@ == self.sys()[*state].nexts,
                Err(_) => !self.sys().contains_key(*state),
            },
    ;
}

/// A transition system stored as a row per state: the state's label, the
/// atoms that hold there, and its successor list.  Lookup scans the rows, so
/// each query costs time linear in the number of states, and the first row
/// wins when two rows carry the same state label.
pub struct DiscreteModel<S, A> {
    states: Vec<(S, Vec<A>, Vec<S>)>,
}

/// The transition system described by a sequence of rows, the earliest row
/// winning on a repeated state label.
pub open spec fn rows_sys<S, A>(rows: Seq<(S, Vec<A>, Vec<S>)>) -> SysMap<S, A>
    decreases rows.len(),
{
    if rows.len() == 0 {
        Map::empty()
    } else {
        rows_sys(rows.drop_first()).insert(
            rows.first().0,
            StateLabel { atoms: rows.first().1@.to_set(), nexts: rows.first().2@ },
        )
    }
}

/// The map described by a sequence of rows has finitely many keys.
proof fn lemma_rows_sys_finite<S, A>(rows: Seq<(S, Vec<A>, Vec<S>)>)
    ensures
        rows_sys::<S, A>(rows).dom().finite(),
    decreases rows.len(),
{
    if rows.len() > 0 {
        lemma_rows_sys_finite::<S, A>(rows.drop_first());
    }
}

/// When no row carries the label `s`, the described map has no key `s`.
proof fn lemma_rows_sys_absent<S, A>(rows: Seq<(S, Vec<A>, Vec<S>)>, s: S)
    requires
        forall|j: int| 0 <= j < rows.len() ==> (#[trigger] rows[j]).0 != s,
    ensures
        !rows_sys::<S, A>(rows).contains_key(s),
    decreases rows.len(),
{
    if rows.len() > 0 {
        assert(rows.first() == rows[0]);
        assert(forall|j: int|
            0 <= j < rows.drop_first().len() ==> (#[trigger] rows.drop_first()[j]) == rows[j + 1]);
        lemma_rows_sys_absent::<S, A>(rows.drop_first(), s);
    }
}

/// The first row carrying the label `s` decides what the described map
/// holds at `s`.
proof fn lemma_rows_sys_found<S, A>(rows: Seq<(S, Vec<A>, Vec<S>)>, s: S, k: int)
    requires
        0 <= k < rows.len(),
        rows[k].0 == s,
        forall|j: int| 0 <= j < k ==> (#[trigger] rows[j]).0 != s,
    ensures
        rows_sys::<S, A>(rows).contains_key(s),
        rows_sys::<S, A>(rows)[s] == (StateLabel {
            atoms: rows[k].1@.to_set(),
            nexts: rows[k].2@,
        }),
    decreases rows.len(),
{
    assert(rows.first() == rows[0]);
    if k == 0 {
    } else {
        assert(forall|j: int|
            0 <= j < rows.drop_first().len() ==> (#[trigger] rows.drop_first()[j]) == rows[j + 1]);
        lemma_rows_sys_found::<S, A>(rows.drop_first(), s, k - 1);
    }
}


/// A system expressible in both backends is the same system in both: when
/// the rows carry distinct state labels and the keyed map holds exactly
/// those rows, the two described transition systems are equal, so by
/// [`crate::sat`] every verification verdict agrees between the backends.
pub proof fn lemma_rows_keyed_agree<S, A>(
    rows: Seq<(S, Vec<A>, Vec<S>)>,
    keyed: Map<S, (Vec<A>, Vec<S>)>,
)
    requires
        forall|i: int, j: int|
            0 <= i < j < rows.len() ==> (#[trigger] rows[i]).0 != (#[trigger] rows[j]).0,
        forall|i: int|
            0 <= i < rows.len() ==> keyed.contains_key((#[trigger] rows[i]).0)
                && keyed[rows[i].0] == (rows[i].1, rows[i].2),
        forall|s: S| #[trigger] keyed.contains_key(s) ==> rows_has_label(rows, s),
    ensures
        rows_sys::<S, A>(rows) == keyed_sys::<S, A>(keyed),
{
    let mr = rows_sys::<S, A>(rows);
    let mk = keyed_sys::<S, A>(keyed);
    assert forall|s: S| #[trigger] mk.contains_key(s) implies mr.contains_key(s) && mr[s]
        == mk[s] by {
        let i = choose|i: int| 0 <= i < rows.len() && (#[trigger] rows[i]).0 == s;
        lemma_rows_sys_found::<S, A>(rows, s, i);
    }
    assert forall|s: S| #[trigger] mr.contains_key(s) implies mk.contains_key(s) by {
        if !rows_has_label(rows, s) {
            lemma_rows_sys_absent::<S, A>(rows, s);
        }
    }
    assert(mr =~= mk);
}

/// Some row carries the state label `s`.
pub open spec fn rows_has_label<S, A>(rows: Seq<(S, Vec<A>, Vec<S>)>, s: S) -> bool {
    exists|i: int| 0 <= i < rows.len() && (#[trigger] rows[i]).0 == s
}

impl<S: PartialEq, A: PartialEq> DiscreteModel<S, A> {
    /// Builds the row-backed transition system from one row per state: the
    /// state's label, the atoms that hold there, and its successor list.
    pub fn new(states: Vec<(S, Vec<A>, Vec<S>)>) -> (r: Self)
        ensures
            r.sys() == rows_sys::<S, A>(states@),
    {
        Self { states }
    }

    /// Finds the first row carrying the label `state`, as the index into the
    /// row vector; the shared lookup behind both trait operations.
    fn find_row(&self, state: &S) -> (r: Result<usize, StateNotFound>)
        requires
            reliable_eq::<S>(),
        ensures
            match r {
                Ok(k) => {
                    &&& 0 <= k < self.states@.len()
                    &&& self.states@[k as int].0 == *state
                    &&& self.sys().contains_key(*state)
                    &&& self.sys()[*state] == (StateLabel {
                        atoms: self.states@[k as int].1@.to_set(),
                        nexts: self.states@[k as int].2@,
                    })
                },
                Err(_) => !self.sys().contains_key(*state),
            },
    {
        let n = self.states.len();
        let mut i: usize = 0;
        while i < n
            invariant
                reliable_eq::<S>(),
                n == self.states@.len(),
                0 <= i <= n,
                forall|j: int| 0 <= j < i ==> (#[trigger] self.states@[j]).0 != *state,
            decreases n - i,
        {
            if self.states[i].0 == *state {
                proof {
                    lemma_rows_sys_found::<S, A>(self.states@, *state, i as int);
                }
                return Ok(i);
            }
            i += 1;
        }
        proof {
            lemma_rows_sys_absent::<S, A>(self.states@, *state);
        }
        Err(StateNotFound)
    }
}

impl<S: PartialEq, A: PartialEq> Model<S, A> for DiscreteModel<S, A> {
    closed spec fn sys(&self) -> SysMap<S, A> {
        rows_sys(self.states@)
    }

    open spec fn wf(&self) -> bool {
        reliable_eq::<S>() && reliable_eq::<A>()
    }

    proof fn wf_finite(&self) {
        lemma_rows_sys_finite::<S, A>(self.states@);
    }

    fn state_has(&self, state: &S, atom: &A) -> (r: Result<bool, StateNotFound>) {
        let k = self.find_row(state)?;
        Ok(seq_has(&self.states[k].1, atom))
    }

    fn transitions<'a>(&'a self, state: &S) -> (r: Result<&'a Vec<S>, StateNotFound>) {
        let k = self.find_row(state)?;
        Ok(&self.states[k].2)
    }
}

/// A transition system keyed by state: a hash map from each state to the
/// atoms that hold there and its successor list.  Lookup costs amortized
/// constant time.  The map is built by the caller, so a state inserted twice
/// keeps the later entry — the usual last-write-wins of a map.
pub struct HashedDiscreteModel<S, A> {
    states: HashMap<S, (Vec<A>, Vec<S>)>,
}

/// The transition system described by a map from states to their atoms and
/// successor lists.
pub open spec fn keyed_sys<S, A>(m: Map<S, (Vec<A>, Vec<S>)>) -> SysMap<S, A> {
    Map::new(
        |s: S| m.contains_key(s),
        |s: S| StateLabel { atoms: m[s].0@.to_set(), nexts: m[s].1@ },
    )
}

impl<S: Eq + Hash, A: PartialEq> HashedDiscreteModel<S, A> {
    /// Builds the keyed transition system from a map that carries, for each
    /// state, the atoms that hold there and its successor list.
    pub fn new(states: HashMap<S, (Vec<A>, Vec<S>)>) -> (r: Self)
        ensures
            r.sys() == keyed_sys::<S, A>(states@),
    {
        Self { states }
    }
}

impl<S: Eq + Hash, A: PartialEq> Model<S, A> for HashedDiscreteModel<S, A> {
    closed spec fn sys(&self) -> SysMap<S, A> {
        keyed_sys(self.states@)
    }

    open spec fn wf(&self) -> bool {
        obeys_key_model::<S>() && reliable_eq::<A>()
    }

    proof fn wf_finite(&self) {
        assert(self.sys().dom() =~= self.states@.dom());
    }

    fn state_has(&self, state: &S, atom: &A) -> (r: Result<bool, StateNotFound>) {
        match self.states.get(state) {
            Some(entry) => Ok(seq_has(&entry.0, atom)),
            None => Err(StateNotFound),
        }
    }

    fn transitions<'a>(&'a self, state: &S) -> (r: Result<&'a Vec<S>, StateNotFound>) {
        match self.states.get(state) {
            Some(entry) => Ok(&entry.1),
            None => Err(StateNotFound),
        }
    }
}

} // verus!
