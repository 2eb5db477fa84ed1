//! The general laws of the satisfaction relation: the dualities between
//! the universal and existential operators, the degenerate until forms,
//! the fixed-point equations of the global operators, and backend
//! independence.

use vstd::prelude::*;

use crate::model::Model;
use crate::semantics::closed_sys;
use crate::semantics::is_path;
use crate::semantics::lemma_mk_step;
use crate::semantics::lemma_path_in_dom;
use crate::semantics::lemma_pick_step;
use crate::semantics::lemma_reaches_in_dom;
use crate::semantics::reaches;
use crate::semantics::sat;
use crate::semantics::stay_set;
use crate::semantics::until_break_path;
use crate::semantics::SysMap;
use crate::tl_syntax::CTLFormula;

verus! {

/// Stepping to a direct successor extends reachability from `s`.
proof fn lemma_reach_successor<S, A>(m: SysMap<S, A>, s: S, k: int)
    requires
        m.contains_key(s),
        0 <= k < m[s].nexts.len(),
    ensures
        reaches(m, s, m[s].nexts[k]),
{
    let p = seq![s, m[s].nexts[k]];
    assert(p[0] == s && p[1] == m[s].nexts[k]);
    assert(m[p[0]].nexts.contains(p[1]));
    assert(is_path(m, p));
    assert(p.first() == s && p.last() == m[s].nexts[k]);
}

/// Reachability composes: what `b` reaches, `a` reaches through `b`.
proof fn lemma_reaches_trans<S, A>(m: SysMap<S, A>, a: S, b: S, c: S)
    requires
        reaches(m, a, b),
        reaches(m, b, c),
    ensures
        reaches(m, a, c),
{
    let p1 = choose|p: Seq<S>| is_path(m, p) && p.first() == a && p.last() == b;
    let p2 = choose|p: Seq<S>| is_path(m, p) && p.first() == b && p.last() == c;
    if p2.len() == 1 {
        assert(c == b);
    } else {
        let q = p1 + p2.drop_first();
        assert(q.len() == p1.len() + p2.len() - 1);
        assert forall|i: int| 0 <= i < q.len() implies q[i] == (if i < p1.len() {
            p1[i]
        } else {
            p2[i - p1.len() + 1]
        }) by {}
        assert forall|i: int| 0 <= i < q.len() - 1 implies m.contains_key(#[trigger] q[i])
            && m[q[i]].nexts.contains(q[i + 1]) by {
            if i < p1.len() - 1 {
                assert(q[i] == p1[i]);
                assert(q[i + 1] == p1[i + 1]);
            } else if i == p1.len() - 1 {
                assert(q[i] == p1[p1.len() - 1]);
                assert(p1[p1.len() - 1] == p1.last());
                assert(q[i + 1] == p2[1]);
                assert(p2[0] == b);
                assert(m.contains_key(p2[0]) && m[p2[0]].nexts.contains(p2[1]));
            } else {
                assert(q[i] == p2[i - p1.len() + 1]);
                assert(q[i + 1] == p2[i - p1.len() + 2]);
            }
        }
        assert(is_path(m, q));
        assert(q.first() == a);
        assert(q.last() == p2[p2.len() - 1]);
        assert(p2[p2.len() - 1] == p2.last());
    }
}

/// `AX f` is the dual of `EX`: all successors satisfy `f` exactly when no
/// successor satisfies `Not(f)`.
pub proof fn lemma_next_duality<S, A: PartialEq>(m: SysMap<S, A>, s: S, f: CTLFormula<A>)
    ensures
        sat(m, s, CTLFormula::AX(Box::new(f))) == !sat(
            m,
            s,
            CTLFormula::EX(Box::new(CTLFormula::Not(Box::new(f)))),
        ),
{
    assert forall|i: int| 0 <= i < m[s].nexts.len() implies sat(
        m,
        #[trigger] m[s].nexts[i],
        CTLFormula::Not(Box::new(f)),
    ) == !sat(m, m[s].nexts[i], f) by {}
}

/// `AG f` is the dual of `EF`: `f` holds everywhere reachable exactly when
/// no reachable state satisfies `Not(f)`.
pub proof fn lemma_global_duality<S, A: PartialEq>(m: SysMap<S, A>, s: S, f: CTLFormula<A>)
    ensures
        sat(m, s, CTLFormula::AG(Box::new(f))) == !sat(
            m,
            s,
            CTLFormula::EF(Box::new(CTLFormula::Not(Box::new(f)))),
        ),
{
    assert forall|t: S| #[trigger] reaches(m, s, t) implies sat(
        m,
        t,
        CTLFormula::Not(Box::new(f)),
    ) == !sat(m, t, f) by {}
}

/// `AF f` is the dual of `EG`: every run eventually reaches `f` exactly
/// when no run keeps `Not(f)` true forever.
pub proof fn lemma_future_duality<S, A: PartialEq>(m: SysMap<S, A>, s: S, f: CTLFormula<A>)
    ensures
        sat(m, s, CTLFormula::AF(Box::new(f))) == !sat(
            m,
            s,
            CTLFormula::EG(Box::new(CTLFormula::Not(Box::new(f)))),
        ),
{
    let nf = CTLFormula::Not(Box::new(f));
    assert forall|x: Set<S>| #[trigger] x.contains(s) implies stay_set(
        m,
        x,
        CTLFormula::True,
        f,
    ) == stay_set(m, x, nf, CTLFormula::False) by {
        if stay_set(m, x, CTLFormula::True, f) {
            assert forall|u: S| x.contains(u) implies (m.contains_key(u) && sat(m, u, nf) && !sat(
                m,
                u,
                CTLFormula::False,
            ) && crate::semantics::step_into(m, u, x)) by {}
            assert(stay_set(m, x, nf, CTLFormula::False));
        }
        if stay_set(m, x, nf, CTLFormula::False) {
            assert forall|u: S| x.contains(u) implies (m.contains_key(u) && sat(
                m,
                u,
                CTLFormula::True,
            ) && !sat(m, u, f) && crate::semantics::step_into(m, u, x)) by {}
            assert(stay_set(m, x, CTLFormula::True, f));
        }
    }
}

/// `E[True U f]` collapses to `EF f`: with a trivially true left side, the
/// until search is plain reachability.
pub proof fn lemma_until_any_degenerate<S, A: PartialEq>(m: SysMap<S, A>, s: S, f: CTLFormula<A>)
    ensures
        sat(m, s, CTLFormula::EU(Box::new(CTLFormula::True), Box::new(f))) == sat(
            m,
            s,
            CTLFormula::EF(Box::new(f)),
        ),
{
    if sat(m, s, CTLFormula::EU(Box::new(CTLFormula::True), Box::new(f))) {
        let p = choose|p: Seq<S>|
            {
                &&& #[trigger] is_path(m, p)
                &&& p.first() == s
                &&& sat(m, p.last(), f)
                &&& forall|i: int| 0 <= i < p.len() - 1 ==> sat(m, #[trigger] p[i], CTLFormula::True)
            };
        assert(reaches(m, s, p.last()));
    }
    if sat(m, s, CTLFormula::EF(Box::new(f))) {
        let t = choose|t: S| #[trigger] reaches(m, s, t) && sat(m, t, f);
        let p = choose|p: Seq<S>| is_path(m, p) && p.first() == s && p.last() == t;
        assert forall|i: int| 0 <= i < p.len() - 1 implies sat(
            m,
            #[trigger] p[i],
            CTLFormula::True,
        ) by {}
        assert(sat(m, s, CTLFormula::EU(Box::new(CTLFormula::True), Box::new(f))));
    }
}

/// `A[True U f]` collapses to `AF f`: with a trivially true left side, no
/// run can break the until, so only the infinite-avoidance side remains.
pub proof fn lemma_until_all_degenerate<S, A: PartialEq>(m: SysMap<S, A>, s: S, f: CTLFormula<A>)
    ensures
        sat(m, s, CTLFormula::AU(Box::new(CTLFormula::True), Box::new(f))) == sat(
            m,
            s,
            CTLFormula::AF(Box::new(f)),
        ),
{
    assert forall|p: Seq<S>| #![trigger p.first()] !(until_break_path(m, p, CTLFormula::True, f)
        && p.first() == s) by {
        if until_break_path(m, p, CTLFormula::True, f) {
            assert(sat(m, p.last(), CTLFormula::True));
        }
    }
}

/// `EG f` is a greatest fixed point: it holds exactly when `f` holds now
/// and some direct successor satisfies `EG f` again.
pub proof fn lemma_eg_fixed_point<S, A: PartialEq>(m: SysMap<S, A>, s: S, f: CTLFormula<A>)
    requires
        closed_sys(m),
        m.contains_key(s),
    ensures
        sat(m, s, CTLFormula::EG(Box::new(f))) == (sat(m, s, f) && sat(
            m,
            s,
            CTLFormula::EX(Box::new(CTLFormula::EG(Box::new(f)))),
        )),
{
    let eg = CTLFormula::EG(Box::new(f));
    if sat(m, s, eg) {
        let x = choose|x: Set<S>| #[trigger] x.contains(s) && stay_set(m, x, f, CTLFormula::False);
        assert(sat(m, s, f));
        let k = lemma_pick_step(m, s, x);
        assert(x.contains(m[s].nexts[k]));
        assert(sat(m, m[s].nexts[k], eg));
    }
    if sat(m, s, f) && sat(m, s, CTLFormula::EX(Box::new(eg))) {
        let i = choose|i: int| 0 <= i < m[s].nexts.len() && sat(m, #[trigger] m[s].nexts[i], eg);
        let v = m[s].nexts[i];
        let x = choose|x: Set<S>| #[trigger] x.contains(v) && stay_set(m, x, f, CTLFormula::False);
        let x2 = x.insert(s);
        assert forall|u: S| x2.contains(u) implies (m.contains_key(u) && sat(m, u, f) && !sat(
            m,
            u,
            CTLFormula::False,
        ) && crate::semantics::step_into(m, u, x2)) by {
            if u == s {
                assert(x2.contains(v));
                lemma_mk_step(m, s, x2, i);
            } else {
                assert(x.contains(u));
                let k = lemma_pick_step(m, u, x);
                assert(x2.contains(m[u].nexts[k]));
                lemma_mk_step(m, u, x2, k);
            }
        }
        assert(stay_set(m, x2, f, CTLFormula::False));
        assert(x2.contains(s));
    }
}

/// `AG f` is a greatest fixed point: it holds exactly when `f` holds now
/// and every direct successor satisfies `AG f` again.
pub proof fn lemma_ag_fixed_point<S, A: PartialEq>(m: SysMap<S, A>, s: S, f: CTLFormula<A>)
    requires
        closed_sys(m),
        m.contains_key(s),
    ensures
        sat(m, s, CTLFormula::AG(Box::new(f))) == (sat(m, s, f) && sat(
            m,
            s,
            CTLFormula::AX(Box::new(CTLFormula::AG(Box::new(f)))),
        )),
{
    let ag = CTLFormula::AG(Box::new(f));
    assert(reaches(m, s, s)) by {
        let p = seq![s];
        assert(is_path(m, p));
        assert(p.first() == s && p.last() == s);
    }
    if sat(m, s, ag) {
        assert(sat(m, s, f));
        assert forall|i: int| 0 <= i < m[s].nexts.len() implies sat(
            m,
            #[trigger] m[s].nexts[i],
            ag,
        ) by {
            lemma_reach_successor(m, s, i);
            assert forall|t: S| #[trigger] reaches(m, m[s].nexts[i], t) implies sat(m, t, f) by {
                lemma_reaches_trans(m, s, m[s].nexts[i], t);
            }
        }
    }
    if sat(m, s, f) && sat(m, s, CTLFormula::AX(Box::new(ag))) {
        assert forall|t: S| #[trigger] reaches(m, s, t) implies sat(m, t, f) by {
            let p = choose|p: Seq<S>| is_path(m, p) && p.first() == s && p.last() == t;
            if p.len() == 1 {
                assert(t == p.first());
            } else {
                assert(m.contains_key(p[0]) && m[p[0]].nexts.contains(p[1]));
                let k = choose|k: int| 0 <= k < m[p[0]].nexts.len() && m[p[0]].nexts[k] == p[1];
                assert(sat(m, m[s].nexts[k], ag));
                let q = p.drop_first();
                assert forall|i: int| 0 <= i < q.len() - 1 implies m.contains_key(#[trigger] q[i])
                    && m[q[i]].nexts.contains(q[i + 1]) by {
                    assert(q[i] == p[i + 1]);
                    assert(q[i + 1] == p[i + 2]);
                }
                assert(is_path(m, q));
                assert(q.first() == p[1] && q.last() == p[p.len() - 1]);
                assert(p.last() == p[p.len() - 1]);
                assert(reaches(m, p[1], t));
            }
        }
    }
}

/// The verdict depends only on the represented transition system: two
/// backends whose mathematical systems agree satisfy exactly the same
/// formulas at every state.
pub proof fn lemma_backend_equivalence<S, A: PartialEq, M1: Model<S, A>, M2: Model<S, A>>(
    first: &M1,
    second: &M2,
    s: S,
    f: CTLFormula<A>,
)
    requires
        first.sys() == second.sys(),
    ensures
        sat(first.sys(), s, f) == sat(second.sys(), s, f),
{
}

/// Two systems agree in shape: same states, same atoms at each state, and
/// successor lists that hold the same steps the same number of times —
/// each state's list of the second system is a permutation of its list in
/// the first.
pub open spec fn same_shape<S, A>(m1: SysMap<S, A>, m2: SysMap<S, A>) -> bool {
    &&& m2.dom() == m1.dom()
    &&& forall|s: S| #[trigger] m1.contains_key(s) ==> m2[s].atoms == m1[s].atoms
    &&& forall|s: S| #[trigger] m1.contains_key(s) ==> m2[s].nexts.to_multiset()
        == m1[s].nexts.to_multiset()
}

/// Permuted successor lists hold the same states.
proof fn lemma_shape_contains<S, A>(m1: SysMap<S, A>, m2: SysMap<S, A>, s: S, v: S)
    requires
        same_shape(m1, m2),
        m1.contains_key(s),
    ensures
        m1[s].nexts.contains(v) == m2[s].nexts.contains(v),
{
    m1[s].nexts.to_multiset_ensures();
    m2[s].nexts.to_multiset_ensures();
    assert(m1[s].nexts.contains(v) <==> m1[s].nexts.to_multiset().count(v) > 0);
    assert(m2[s].nexts.contains(v) <==> m2[s].nexts.to_multiset().count(v) > 0);
}

/// A system shaped like a closed system is closed.
proof fn lemma_shape_closed<S, A>(m1: SysMap<S, A>, m2: SysMap<S, A>)
    requires
        same_shape(m1, m2),
        closed_sys(m1),
    ensures
        closed_sys(m2),
{
    assert forall|s: S, i: int|
        m2.contains_key(s) && 0 <= i < m2[s].nexts.len() implies m2.contains_key(
        #[trigger] m2[s].nexts[i],
    ) by {
        let v = m2[s].nexts[i];
        assert(m2[s].nexts.contains(v));
        lemma_shape_contains(m1, m2, s, v);
        let j = choose|j: int| 0 <= j < m1[s].nexts.len() && m1[s].nexts[j] == v;
        assert(m1.contains_key(m1[s].nexts[j]));
    }
}

/// A path of one system is a path of any system of the same shape.
proof fn lemma_shape_path<S, A>(m1: SysMap<S, A>, m2: SysMap<S, A>, p: Seq<S>)
    requires
        same_shape(m1, m2),
    ensures
        is_path(m1, p) == is_path(m2, p),
{
    if is_path(m1, p) {
        assert forall|i: int| 0 <= i < p.len() - 1 implies m2.contains_key(#[trigger] p[i])
            && m2[p[i]].nexts.contains(p[i + 1]) by {
            lemma_shape_contains(m1, m2, p[i], p[i + 1]);
        }
    }
    if is_path(m2, p) {
        assert forall|i: int| 0 <= i < p.len() - 1 implies m1.contains_key(#[trigger] p[i])
            && m1[p[i]].nexts.contains(p[i + 1]) by {
            lemma_shape_contains(m1, m2, p[i], p[i + 1]);
        }
    }
}

/// Reachability agrees between systems of the same shape.
proof fn lemma_shape_reaches<S, A>(m1: SysMap<S, A>, m2: SysMap<S, A>, s: S, t: S)
    requires
        same_shape(m1, m2),
    ensures
        reaches(m1, s, t) == reaches(m2, s, t),
{
    if reaches(m1, s, t) {
        let p = choose|p: Seq<S>| is_path(m1, p) && p.first() == s && p.last() == t;
        lemma_shape_path(m1, m2, p);
    }
    if reaches(m2, s, t) {
        let p = choose|p: Seq<S>| is_path(m2, p) && p.first() == s && p.last() == t;
        lemma_shape_path(m1, m2, p);
    }
}

/// A stay set of one system is a stay set of any system of the same shape,
/// once the two systems agree on the two sub-formulas at every state.
proof fn lemma_shape_stay<S, A: PartialEq>(
    m1: SysMap<S, A>,
    m2: SysMap<S, A>,
    x: Set<S>,
    f: CTLFormula<A>,
    g: CTLFormula<A>,
)
    requires
        same_shape(m1, m2),
        forall|u: S| #[trigger] m1.contains_key(u) ==> sat(m1, u, f) == sat(m2, u, f),
        forall|u: S| #[trigger] m1.contains_key(u) ==> sat(m1, u, g) == sat(m2, u, g),
    ensures
        stay_set(m1, x, f, g) == stay_set(m2, x, f, g),
{
    if stay_set(m1, x, f, g) {
        assert forall|u: S| x.contains(u) implies (m2.contains_key(u) && sat(m2, u, f) && !sat(
            m2,
            u,
            g,
        ) && crate::semantics::step_into(m2, u, x)) by {
            let k = lemma_pick_step(m1, u, x);
            let v = m1[u].nexts[k];
            assert(m1[u].nexts.contains(v));
            lemma_shape_contains(m1, m2, u, v);
            let k2 = choose|k2: int| 0 <= k2 < m2[u].nexts.len() && m2[u].nexts[k2] == v;
            lemma_mk_step(m2, u, x, k2);
        }
        assert(stay_set(m2, x, f, g));
    }
    if stay_set(m2, x, f, g) {
        assert forall|u: S| x.contains(u) implies (m1.contains_key(u) && sat(m1, u, f) && !sat(
            m1,
            u,
            g,
        ) && crate::semantics::step_into(m1, u, x)) by {
            let k = lemma_pick_step(m2, u, x);
            let v = m2[u].nexts[k];
            assert(m2[u].nexts.contains(v));
            lemma_shape_contains(m1, m2, u, v);
            let k2 = choose|k2: int| 0 <= k2 < m1[u].nexts.len() && m1[u].nexts[k2] == v;
            lemma_mk_step(m1, u, x, k2);
        }
        assert(stay_set(m1, x, f, g));
    }
}


/// The stay-set form of satisfaction agrees between systems of the same
/// shape.
proof fn lemma_shape_stay_pointwise<S, A: PartialEq>(
    m1: SysMap<S, A>,
    m2: SysMap<S, A>,
    s: S,
    f1: CTLFormula<A>,
    g1: CTLFormula<A>,
)
    requires
        same_shape(m1, m2),
        forall|u: S| #[trigger] m1.contains_key(u) ==> sat(m1, u, f1) == sat(m2, u, f1),
        forall|u: S| #[trigger] m1.contains_key(u) ==> sat(m1, u, g1) == sat(m2, u, g1),
    ensures
        (exists|x: Set<S>| #[trigger] x.contains(s) && stay_set(m1, x, f1, g1)) == (exists|
            x: Set<S>,
        |
            #[trigger] x.contains(s) && stay_set(m2, x, f1, g1)),
{
    if exists|x: Set<S>| #[trigger] x.contains(s) && stay_set(m1, x, f1, g1) {
        let x = choose|x: Set<S>| #[trigger] x.contains(s) && stay_set(m1, x, f1, g1);
        lemma_shape_stay(m1, m2, x, f1, g1);
    }
    if exists|x: Set<S>| #[trigger] x.contains(s) && stay_set(m2, x, f1, g1) {
        let x = choose|x: Set<S>| #[trigger] x.contains(s) && stay_set(m2, x, f1, g1);
        lemma_shape_stay(m1, m2, x, f1, g1);
    }
}


/// The reachability forms of satisfaction agree between systems of the
/// same shape.
proof fn lemma_shape_reach_pointwise<S, A: PartialEq>(
    m1: SysMap<S, A>,
    m2: SysMap<S, A>,
    s: S,
    f1: CTLFormula<A>,
)
    requires
        closed_sys(m1),
        same_shape(m1, m2),
        m1.contains_key(s),
        forall|u: S| #[trigger] m1.contains_key(u) ==> sat(m1, u, f1) == sat(m2, u, f1),
    ensures
        (forall|t: S| #[trigger] reaches(m1, s, t) ==> sat(m1, t, f1)) == (forall|t: S|
            #[trigger] reaches(m2, s, t) ==> sat(m2, t, f1)),
        (exists|t: S| #[trigger] reaches(m1, s, t) && sat(m1, t, f1)) == (exists|t: S|
            #[trigger] reaches(m2, s, t) && sat(m2, t, f1)),
{
    assert forall|t: S|
        #![trigger reaches(m1, s, t)]
        #![trigger reaches(m2, s, t)]
        reaches(m1, s, t) == reaches(m2, s, t) by {
        lemma_shape_reaches(m1, m2, s, t);
    }
    assert forall|t: S|
        #![trigger reaches(m1, s, t)]
        #![trigger reaches(m2, s, t)]
        reaches(m1, s, t) implies sat(m1, t, f1) == sat(m2, t, f1) by {
        lemma_reaches_in_dom(m1, s, t);
    }
}

/// Order independence: permuting any state's successor list leaves every
/// verdict unchanged.  Satisfaction at the states of a closed system
/// depends only on each state's atom set and on which states its successor
/// list holds, never on the order or multiplicity in which it holds them.
#[verifier::rlimit(100)]
pub proof fn lemma_order_independence<S, A: PartialEq>(
    m1: SysMap<S, A>,
    m2: SysMap<S, A>,
    f: CTLFormula<A>,
)
    requires
        closed_sys(m1),
        same_shape(m1, m2),
    ensures
        forall|s: S| #[trigger] m1.contains_key(s) ==> sat(m1, s, f) == sat(m2, s, f),
    decreases f.size(),
{
    lemma_shape_closed(m1, m2);
    match f {
        CTLFormula::True => {},
        CTLFormula::False => {},
        CTLFormula::Atom(_) => {},
        CTLFormula::And(f1, f2) => {
            lemma_order_independence(m1, m2, *f1);
            lemma_order_independence(m1, m2, *f2);
        },
        CTLFormula::Or(f1, f2) => {
            lemma_order_independence(m1, m2, *f1);
            lemma_order_independence(m1, m2, *f2);
        },
        CTLFormula::Not(f1) => {
            lemma_order_independence(m1, m2, *f1);
        },
        CTLFormula::Imply(f1, f2) => {
            lemma_order_independence(m1, m2, *f1);
            lemma_order_independence(m1, m2, *f2);
        },
        CTLFormula::AX(f1) => {
            lemma_order_independence(m1, m2, *f1);
            assert forall|s: S| #[trigger] m1.contains_key(s) implies sat(m1, s, f) == sat(
                m2,
                s,
                f,
            ) by {
                lemma_shape_next_pointwise(m1, m2, s, *f1);
            }
        },
        CTLFormula::EX(f1) => {
            lemma_order_independence(m1, m2, *f1);
            assert forall|s: S| #[trigger] m1.contains_key(s) implies sat(m1, s, f) == sat(
                m2,
                s,
                f,
            ) by {
                lemma_shape_next_pointwise(m1, m2, s, *f1);
            }
        },
        CTLFormula::AG(f1) => {
            lemma_order_independence(m1, m2, *f1);
            assert forall|s: S| #[trigger] m1.contains_key(s) implies sat(m1, s, f) == sat(
                m2,
                s,
                f,
            ) by {
                lemma_shape_reach_pointwise(m1, m2, s, *f1);
            }
        },
        CTLFormula::EF(f1) => {
            lemma_order_independence(m1, m2, *f1);
            assert forall|s: S| #[trigger] m1.contains_key(s) implies sat(m1, s, f) == sat(
                m2,
                s,
                f,
            ) by {
                lemma_shape_reach_pointwise(m1, m2, s, *f1);
            }
        },
        CTLFormula::EG(f1) => {
            lemma_order_independence(m1, m2, *f1);
            assert forall|s: S| #[trigger] m1.contains_key(s) implies sat(m1, s, f) == sat(
                m2,
                s,
                f,
            ) by {
                lemma_shape_stay_pointwise(m1, m2, s, *f1, CTLFormula::False);
            }
        },
        CTLFormula::AF(f1) => {
            lemma_order_independence(m1, m2, *f1);
            assert forall|s: S| #[trigger] m1.contains_key(s) implies sat(m1, s, f) == sat(
                m2,
                s,
                f,
            ) by {
                lemma_shape_stay_pointwise(m1, m2, s, CTLFormula::True, *f1);
            }
        },
        CTLFormula::EU(f1, f2) => {
            lemma_order_independence(m1, m2, *f1);
            lemma_order_independence(m1, m2, *f2);
            assert forall|s: S| #[trigger] m1.contains_key(s) implies sat(m1, s, f) == sat(
                m2,
                s,
                f,
            ) by {
                lemma_shape_eu_pointwise(m1, m2, s, *f1, *f2);
            }
        },
        CTLFormula::AU(f1, f2) => {
            lemma_order_independence(m1, m2, *f1);
            lemma_order_independence(m1, m2, *f2);
            assert forall|s: S| #[trigger] m1.contains_key(s) implies sat(m1, s, f) == sat(
                m2,
                s,
                f,
            ) by {
                lemma_shape_stay_pointwise(m1, m2, s, *f1, *f2);
                lemma_shape_au_break_pointwise(m1, m2, s, *f1, *f2);
            }
        },
    }
}

/// Successor-wise satisfaction agrees between systems of the same shape.
proof fn lemma_shape_next_pointwise<S, A: PartialEq>(
    m1: SysMap<S, A>,
    m2: SysMap<S, A>,
    s: S,
    f1: CTLFormula<A>,
)
    requires
        closed_sys(m1),
        closed_sys(m2),
        same_shape(m1, m2),
        m1.contains_key(s),
        forall|u: S| #[trigger] m1.contains_key(u) ==> sat(m1, u, f1) == sat(m2, u, f1),
    ensures
        (exists|i: int| 0 <= i < m1[s].nexts.len() && sat(m1, #[trigger] m1[s].nexts[i], f1))
            == (exists|i: int|
            0 <= i < m2[s].nexts.len() && sat(m2, #[trigger] m2[s].nexts[i], f1)),
        (forall|i: int| 0 <= i < m1[s].nexts.len() ==> sat(m1, #[trigger] m1[s].nexts[i], f1))
            == (forall|i: int|
            0 <= i < m2[s].nexts.len() ==> sat(m2, #[trigger] m2[s].nexts[i], f1)),
{
    if exists|i: int| 0 <= i < m1[s].nexts.len() && sat(m1, #[trigger] m1[s].nexts[i], f1) {
        let i = choose|i: int| 0 <= i < m1[s].nexts.len() && sat(m1, #[trigger] m1[s].nexts[i], f1);
        let v = m1[s].nexts[i];
        assert(m1[s].nexts.contains(v));
        lemma_shape_contains(m1, m2, s, v);
        let j = choose|j: int| 0 <= j < m2[s].nexts.len() && m2[s].nexts[j] == v;
        assert(m1.contains_key(v));
        assert(sat(m2, m2[s].nexts[j], f1));
    }
    if exists|i: int| 0 <= i < m2[s].nexts.len() && sat(m2, #[trigger] m2[s].nexts[i], f1) {
        let i = choose|i: int| 0 <= i < m2[s].nexts.len() && sat(m2, #[trigger] m2[s].nexts[i], f1);
        let v = m2[s].nexts[i];
        assert(m2[s].nexts.contains(v));
        lemma_shape_contains(m1, m2, s, v);
        let j = choose|j: int| 0 <= j < m1[s].nexts.len() && m1[s].nexts[j] == v;
        assert(m1.contains_key(v));
        assert(sat(m1, m1[s].nexts[j], f1));
    }
    if forall|i: int| 0 <= i < m1[s].nexts.len() ==> sat(m1, #[trigger] m1[s].nexts[i], f1) {
        assert forall|i: int| 0 <= i < m2[s].nexts.len() implies sat(
            m2,
            #[trigger] m2[s].nexts[i],
            f1,
        ) by {
            let v = m2[s].nexts[i];
            assert(m2[s].nexts.contains(v));
            lemma_shape_contains(m1, m2, s, v);
            let j = choose|j: int| 0 <= j < m1[s].nexts.len() && m1[s].nexts[j] == v;
            assert(sat(m1, m1[s].nexts[j], f1));
            assert(m1.contains_key(v));
        }
    }
    if forall|i: int| 0 <= i < m2[s].nexts.len() ==> sat(m2, #[trigger] m2[s].nexts[i], f1) {
        assert forall|i: int| 0 <= i < m1[s].nexts.len() implies sat(
            m1,
            #[trigger] m1[s].nexts[i],
            f1,
        ) by {
            let v = m1[s].nexts[i];
            assert(m1[s].nexts.contains(v));
            lemma_shape_contains(m1, m2, s, v);
            let j = choose|j: int| 0 <= j < m2[s].nexts.len() && m2[s].nexts[j] == v;
            assert(sat(m2, m2[s].nexts[j], f1));
            assert(m1.contains_key(v));
        }
    }
}

/// The until-path form of satisfaction agrees between systems of the same
/// shape.
proof fn lemma_shape_eu_pointwise<S, A: PartialEq>(
    m1: SysMap<S, A>,
    m2: SysMap<S, A>,
    s: S,
    f1: CTLFormula<A>,
    f2: CTLFormula<A>,
)
    requires
        closed_sys(m1),
        closed_sys(m2),
        same_shape(m1, m2),
        m1.contains_key(s),
        forall|u: S| #[trigger] m1.contains_key(u) ==> sat(m1, u, f1) == sat(m2, u, f1),
        forall|u: S| #[trigger] m1.contains_key(u) ==> sat(m1, u, f2) == sat(m2, u, f2),
    ensures
        sat(m1, s, CTLFormula::EU(Box::new(f1), Box::new(f2))) == sat(
            m2,
            s,
            CTLFormula::EU(Box::new(f1), Box::new(f2)),
        ),
{
    if sat(m1, s, CTLFormula::EU(Box::new(f1), Box::new(f2))) {
        let p = choose|p: Seq<S>|
            {
                &&& #[trigger] is_path(m1, p)
                &&& p.first() == s
                &&& sat(m1, p.last(), f2)
                &&& forall|i: int| 0 <= i < p.len() - 1 ==> sat(m1, #[trigger] p[i], f1)
            };
        lemma_shape_path(m1, m2, p);
        lemma_path_in_dom(m1, p);
        assert(p.last() == p[p.len() - 1]);
        assert forall|i: int| 0 <= i < p.len() - 1 implies sat(m2, #[trigger] p[i], f1) by {}
        assert(sat(m2, p.last(), f2));
    }
    if sat(m2, s, CTLFormula::EU(Box::new(f1), Box::new(f2))) {
        let p = choose|p: Seq<S>|
            {
                &&& #[trigger] is_path(m2, p)
                &&& p.first() == s
                &&& sat(m2, p.last(), f2)
                &&& forall|i: int| 0 <= i < p.len() - 1 ==> sat(m2, #[trigger] p[i], f1)
            };
        lemma_shape_path(m1, m2, p);
        lemma_path_in_dom(m2, p);
        assert(p.last() == p[p.len() - 1]);
        assert forall|i: int| 0 <= i < p.len() - 1 implies sat(m1, #[trigger] p[i], f1) by {}
        assert(sat(m1, p.last(), f2));
    }
}

/// The break-path form of the universal until agrees between systems of
/// the same shape.
proof fn lemma_shape_au_break_pointwise<S, A: PartialEq>(
    m1: SysMap<S, A>,
    m2: SysMap<S, A>,
    s: S,
    f1: CTLFormula<A>,
    f2: CTLFormula<A>,
)
    requires
        closed_sys(m1),
        closed_sys(m2),
        same_shape(m1, m2),
        m1.contains_key(s),
        forall|u: S| #[trigger] m1.contains_key(u) ==> sat(m1, u, f1) == sat(m2, u, f1),
        forall|u: S| #[trigger] m1.contains_key(u) ==> sat(m1, u, f2) == sat(m2, u, f2),
    ensures
        (exists|p: Seq<S>|
            #![trigger p.first()]
            until_break_path(m1, p, f1, f2) && p.first() == s) == (exists|p: Seq<S>|
            #![trigger p.first()]
            until_break_path(m2, p, f1, f2) && p.first() == s),
{
    if exists|p: Seq<S>| #![trigger p.first()] until_break_path(m1, p, f1, f2) && p.first() == s {
        let p = choose|p: Seq<S>|
            #![trigger p.first()]
            until_break_path(m1, p, f1, f2) && p.first() == s;
        lemma_shape_path(m1, m2, p);
        lemma_path_in_dom(m1, p);
        assert(p.last() == p[p.len() - 1]);
        assert forall|i: int| 0 <= i < p.len() - 1 implies sat(m2, #[trigger] p[i], f1) && !sat(
            m2,
            p[i],
            f2,
        ) by {}
        assert(until_break_path(m2, p, f1, f2));
    }
    if exists|p: Seq<S>| #![trigger p.first()] until_break_path(m2, p, f1, f2) && p.first() == s {
        let p = choose|p: Seq<S>|
            #![trigger p.first()]
            until_break_path(m2, p, f1, f2) && p.first() == s;
        lemma_shape_path(m1, m2, p);
        lemma_path_in_dom(m2, p);
        assert(p.last() == p[p.len() - 1]);
        assert forall|i: int| 0 <= i < p.len() - 1 implies sat(m1, #[trigger] p[i], f1) && !sat(
            m1,
            p[i],
            f2,
        ) by {}
        assert(until_break_path(m1, p, f1, f2));
    }
}


} // verus!
