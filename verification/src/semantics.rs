//! The mathematical satisfaction relation for CTL over a finite transition
//! system, together with the path notions the relation is built from.

use vstd::prelude::*;

use crate::tl_syntax::CTLFormula;

verus! {

/// What a transition system records about one state: the set of atomic
/// propositions that hold there and the ordered list of successor states.
#[verifier::reject_recursive_types(A)]
pub ghost struct StateLabel<S, A> {
    pub atoms: Set<A>,
    pub nexts: Seq<S>,
}

/// The mathematical form of a transition system: a partial map from states
/// to their labels.
pub type SysMap<S, A> = Map<S, StateLabel<S, A>>;

/// Every successor named anywhere in the system is itself a state of the
/// system, so no lookup made while following edges can fail.
pub open spec fn closed_sys<S, A>(m: SysMap<S, A>) -> bool {
    forall|s: S, i: int|
        m.contains_key(s) && 0 <= i < m[s].nexts.len() ==> m.contains_key(
            #[trigger] m[s].nexts[i],
        )
}

/// A non-empty sequence of states in which each state steps to the one after
/// it.  A single state is a path; only the states before the end need to be
/// states of the system, since only they are asked for their successors.
pub open spec fn is_path<S, A>(m: SysMap<S, A>, p: Seq<S>) -> bool {
    &&& p.len() >= 1
    &&& forall|i: int|
        0 <= i < p.len() - 1 ==> m.contains_key(#[trigger] p[i]) && m[p[i]].nexts.contains(
            p[i + 1],
        )
}

/// State `t` can be reached from state `s` by following successor edges;
/// every state reaches itself.
pub open spec fn reaches<S, A>(m: SysMap<S, A>, s: S, t: S) -> bool {
    exists|p: Seq<S>| is_path(m, p) && p.first() == s && p.last() == t
}

/// `u` has at least one successor inside `x`.  Kept opaque so that using a
/// [`stay_set`] hypothesis does not endlessly chain from one member of `x`
/// to the next; proofs reveal it where they need the successor itself.
#[verifier::opaque]
pub open spec fn step_into<S, A>(m: SysMap<S, A>, u: S, x: Set<S>) -> bool {
    exists|i: int| 0 <= i < m[u].nexts.len() && x.contains(#[trigger] m[u].nexts[i])
}

/// A witness that the system can run inside `x` forever while `f` holds and
/// `g` does not: every state of `x` is a state of the system that satisfies
/// `f` but not `g` and has at least one successor inside `x`.  From any
/// state of such a set an infinite run of `f`-and-not-`g` states exists, and
/// conversely any such infinite run in a finite system yields such a set.
pub open spec fn stay_set<S, A: PartialEq>(
    m: SysMap<S, A>,
    x: Set<S>,
    f: CTLFormula<A>,
    g: CTLFormula<A>,
) -> bool
    decreases f.size() + g.size(), 0int,
{
    forall|u: S| #[trigger] x.contains(u) ==> {
        &&& m.contains_key(u)
        &&& sat(m, u, f)
        &&& !sat(m, u, g)
        &&& step_into(m, u, x)
    }
}

/// A witness that `A[f U g]` fails at `p.first()` because of a finite run: a
/// path whose states satisfy `f` but not `g` until its end, which satisfies
/// neither.  On such a path `g` never becomes true, and at the end `f` is
/// broken before `g` arrives.
pub open spec fn until_break_path<S, A: PartialEq>(
    m: SysMap<S, A>,
    p: Seq<S>,
    f: CTLFormula<A>,
    g: CTLFormula<A>,
) -> bool
    decreases f.size() + g.size(), 0int,
{
    &&& is_path(m, p)
    &&& forall|i: int|
        0 <= i < p.len() - 1 ==> sat(m, #[trigger] p[i], f) && !sat(m, p[i], g)
    &&& !sat(m, p.last(), f)
    &&& !sat(m, p.last(), g)
}

/// The satisfaction relation of CTL: does the formula `f` hold at state `s`
/// of the system `m`?
///
/// The temporal operators are read over the runs that start at `s`, where a
/// run either is infinite or ends in a state without successors:
/// - `EX`/`AX`: some / every direct successor satisfies the sub-formula;
///   `AX` is vacuously true at a state without successors.
/// - `EF`: some reachable state satisfies it; `AG`: every reachable state
///   does.
/// - `EG`: some infinite run keeps it true forever, witnessed by a
///   [`stay_set`]; `AF`: no infinite run avoids it forever.
/// - `E[f U g]`: some path keeps `f` true until a state satisfying `g`;
///   `A[f U g]`: no run breaks `f` before `g` arrives ([`until_break_path`])
///   and no infinite run keeps `f` true while `g` never arrives.
///
/// The relation is meaningful when `closed_sys(m)` holds and `s` is a state
/// of `m`; the evaluator's contracts only speak of it under that condition.
pub open spec fn sat<S, A: PartialEq>(m: SysMap<S, A>, s: S, f: CTLFormula<A>) -> bool
    decreases f.size(), 1int,
{
    match f {
        CTLFormula::True => true,
        CTLFormula::False => false,
        CTLFormula::Atom(a) => m[s].atoms.contains(a),
        CTLFormula::And(f1, f2) => sat(m, s, *f1) && sat(m, s, *f2),
        CTLFormula::Or(f1, f2) => sat(m, s, *f1) || sat(m, s, *f2),
        CTLFormula::Not(f1) => !sat(m, s, *f1),
        CTLFormula::Imply(f1, f2) => !sat(m, s, *f1) || sat(m, s, *f2),
        CTLFormula::AX(f1) => forall|i: int|
            0 <= i < m[s].nexts.len() ==> sat(m, #[trigger] m[s].nexts[i], *f1),
        CTLFormula::EX(f1) => exists|i: int|
            0 <= i < m[s].nexts.len() && sat(m, #[trigger] m[s].nexts[i], *f1),
        CTLFormula::AG(f1) => forall|t: S| #[trigger] reaches(m, s, t) ==> sat(m, t, *f1),
        CTLFormula::EF(f1) => exists|t: S| #[trigger] reaches(m, s, t) && sat(m, t, *f1),
        CTLFormula::EG(f1) => exists|x: Set<S>|
            #[trigger] x.contains(s) && stay_set(m, x, *f1, CTLFormula::False),
        CTLFormula::AF(f1) => !(exists|x: Set<S>|
            #[trigger] x.contains(s) && stay_set(m, x, CTLFormula::True, *f1)),
        CTLFormula::EU(f1, f2) => exists|p: Seq<S>|
            {
                &&& #[trigger] is_path(m, p)
                &&& p.first() == s
                &&& sat(m, p.last(), *f2)
                &&& forall|i: int| 0 <= i < p.len() - 1 ==> sat(m, #[trigger] p[i], *f1)
            },
        CTLFormula::AU(f1, f2) => {
            &&& !(exists|p: Seq<S>|
                #![trigger p.first()]
                until_break_path(m, p, *f1, *f2) && p.first() == s)
            &&& !(exists|x: Set<S>| #[trigger] x.contains(s) && stay_set(m, x, *f1, *f2))
        },
    }
}

/// A path stays inside `x` when `x` contains its start and is closed under
/// the steps the path takes: every state of the path before the end passes
/// `scond`, every later state passes `tcond`, and a step from an
/// `scond`-member of `x` into a `tcond`-state lands in `x`.
pub proof fn lemma_path_confined<S, A>(
    m: SysMap<S, A>,
    p: Seq<S>,
    x: Set<S>,
    scond: spec_fn(S) -> bool,
    tcond: spec_fn(S) -> bool,
)
    requires
        is_path(m, p),
        x.contains(p.first()),
        forall|i: int| 0 <= i < p.len() - 1 ==> scond(#[trigger] p[i]),
        forall|i: int| 1 <= i < p.len() ==> tcond(#[trigger] p[i]),
        forall|u: S, k: int|
            x.contains(u) && scond(u) && m.contains_key(u) && 0 <= k < m[u].nexts.len() && tcond(
                #[trigger] m[u].nexts[k],
            ) ==> x.contains(m[u].nexts[k]),
    ensures
        forall|i: int| 0 <= i < p.len() ==> x.contains(#[trigger] p[i]),
    decreases p.len(),
{
    assert(x.contains(p[0]));
    if p.len() >= 2 {
        assert(m.contains_key(p[0]) && m[p[0]].nexts.contains(p[1]));
        let k = choose|k: int| 0 <= k < m[p[0]].nexts.len() && m[p[0]].nexts[k] == p[1];
        assert(x.contains(m[p[0]].nexts[k]));
        let q = p.drop_first();
        assert forall|i: int| 0 <= i < q.len() - 1 implies m.contains_key(#[trigger] q[i])
            && m[q[i]].nexts.contains(q[i + 1]) by {
            assert(q[i] == p[i + 1]);
            assert(q[i + 1] == p[i + 2]);
        }
        assert(is_path(m, q));
        lemma_path_confined(m, q, x, scond, tcond);
        assert forall|i: int| 0 <= i < p.len() implies x.contains(p[i]) by {
            if i >= 1 {
                assert(q[i - 1] == p[i]);
                assert(x.contains(q[i - 1]));
            }
        }
    }
}

/// Following one edge extends reachability.
pub proof fn lemma_reaches_step<S, A>(m: SysMap<S, A>, s: S, u: S, v: S)
    requires
        reaches(m, s, u),
        m.contains_key(u),
        m[u].nexts.contains(v),
    ensures
        reaches(m, s, v),
{
    let p = choose|p: Seq<S>| is_path(m, p) && p.first() == s && p.last() == u;
    let q = p.push(v);
    assert forall|i: int| 0 <= i < q.len() - 1 implies m.contains_key(#[trigger] q[i])
        && m[q[i]].nexts.contains(q[i + 1]) by {
        if i < p.len() - 1 {
            assert(q[i] == p[i]);
            assert(q[i + 1] == p[i + 1]);
        } else {
            assert(q[i] == p[p.len() - 1]);
            assert(p[p.len() - 1] == p.last());
            assert(q[i + 1] == v);
        }
    }
    assert(is_path(m, q));
    assert(q.first() == s && q.last() == v);
}

/// In a closed system, every state of a path out of a system state is a
/// system state.
pub proof fn lemma_path_in_dom<S, A>(m: SysMap<S, A>, p: Seq<S>)
    requires
        closed_sys(m),
        is_path(m, p),
        m.contains_key(p.first()),
    ensures
        forall|i: int| 0 <= i < p.len() ==> m.contains_key(#[trigger] p[i]),
{
    lemma_path_confined(m, p, m.dom(), |z: S| true, |z: S| true);
}

/// In a closed system, a state reachable from a system state is itself a
/// system state.
pub proof fn lemma_reaches_in_dom<S, A>(m: SysMap<S, A>, s: S, t: S)
    requires
        closed_sys(m),
        m.contains_key(s),
        reaches(m, s, t),
    ensures
        m.contains_key(t),
{
    let p = choose|p: Seq<S>| is_path(m, p) && p.first() == s && p.last() == t;
    lemma_path_in_dom(m, p);
    assert(p.last() == p[p.len() - 1]);
}

/// Fetches the successor that an opaque [`step_into`]
/// fact promises; a separate lemma so that nothing else in the caller's
/// context is dragged into the instantiation.
pub proof fn lemma_pick_step<S, A>(m: SysMap<S, A>, u: S, x: Set<S>) -> (k: int)
    requires
        step_into(m, u, x),
    ensures
        0 <= k < m[u].nexts.len() && x.contains(m[u].nexts[k]),
{
    reveal(step_into);
    choose|k: int| 0 <= k < m[u].nexts.len() && x.contains(#[trigger] m[u].nexts[k])
}

/// Packages a concrete successor into an opaque
/// [`step_into`] fact.
pub proof fn lemma_mk_step<S, A>(m: SysMap<S, A>, u: S, x: Set<S>, k: int)
    requires
        0 <= k < m[u].nexts.len(),
        x.contains(m[u].nexts[k]),
    ensures
        step_into(m, u, x),
{
    reveal(step_into);
}

} // verus!
