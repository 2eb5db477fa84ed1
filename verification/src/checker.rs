//! The evaluation engine: a structural evaluator for the Boolean
//! connectives, and one verified search routine per temporal operator
//! family.
//!
//! Every search keeps an explicit worklist and visited set, so its running
//! time is bounded by the (finite) number of states, and each is proved to
//! return exactly the verdict of the satisfaction relation in
//! [`crate::semantics`] whenever the transition system is closed and the
//! queried state belongs to it.

use vstd::prelude::*;

use crate::model::reliable_eq;
use crate::model::Model;
use crate::model::StateNotFound;
use crate::semantics::closed_sys;
use crate::semantics::lemma_mk_step;
use crate::semantics::lemma_path_confined;
use crate::semantics::lemma_pick_step;
use crate::semantics::lemma_reaches_in_dom;
use crate::semantics::lemma_reaches_step;
use crate::semantics::is_path;
use crate::semantics::reaches;
use crate::semantics::sat;
use crate::semantics::step_into;
use crate::semantics::stay_set;
use crate::semantics::until_break_path;
use crate::semantics::SysMap;
use crate::tl_syntax::CTLFormula;
use crate::tl_syntax::lemma_size_pos;

verus! {

/// The state values behind a sequence of borrows.
spec fn vals<S>(q: Seq<&S>) -> Seq<S> {
    q.map_values(|x: &S| *x)
}

/// The larger of two sizes; the termination measure of the search shared by
/// the two greatest-fixed-point operators.
spec fn larger(a: nat, b: nat) -> nat {
    if a >= b {
        a
    } else {
        b
    }
}

/// `y` is a part of `r` that can sustain an infinite run: every state of
/// `y` is a state of the system with at least one successor inside `y`.
spec fn live_subset<S, A>(m: SysMap<S, A>, r: Set<S>, y: Set<S>) -> bool {
    &&& y.subset_of(r)
    &&& forall|u: S| #[trigger] y.contains(u) ==> m.contains_key(u)
        && step_into(m, u, y)
}

/// Some non-empty live part of `r` exists.
spec fn some_live<S, A>(m: SysMap<S, A>, r: Set<S>) -> bool {
    exists|y: Set<S>| #[trigger] live_subset(m, r, y) && exists|u: S| y.contains(u)
}

/// Some stay set for `f` against `g` contains `s`: the greatest-fixed-point
/// reading of "an infinite run from `s` keeps `f` and avoids `g`".
spec fn some_stay<S, A: PartialEq>(
    m: SysMap<S, A>,
    s: S,
    f: CTLFormula<A>,
    g: CTLFormula<A>,
) -> bool {
    exists|x: Set<S>| #[trigger] x.contains(s) && stay_set(m, x, f, g)
}

/// The state `u` has at least one successor among the values of `set_`;
/// what the pruning loop tests for each state it keeps.
#[verifier::opaque]
spec fn keeps_succ<S, A>(m: SysMap<S, A>, set_: Seq<S>, u: S) -> bool {
    exists|k: int| 0 <= k < m[u].nexts.len() && set_.contains(#[trigger] m[u].nexts[k])
}

/// A path from `s` to `t` whose states before the end all satisfy `f` and
/// avoid `g`: the way a search that only expands such states got to `t`.
/// Kept opaque so that carrying one such fact per collected state stays
/// cheap; the lemmas below reveal it.
#[verifier::opaque]
spec fn guided_to<S, A: PartialEq>(
    m: SysMap<S, A>,
    s: S,
    t: S,
    f: CTLFormula<A>,
    g: CTLFormula<A>,
) -> bool {
    exists|p: Seq<S>|
        {
            &&& #[trigger] is_path(m, p)
            &&& p.first() == s
            &&& p.last() == t
            &&& forall|j: int|
                0 <= j < p.len() - 1 ==> sat(m, #[trigger] p[j], f) && !sat(m, p[j], g)
        }
}

/// A path from `s` to `t` all of whose states lie inside `x`.
spec fn within_to<S, A>(m: SysMap<S, A>, s: S, t: S, x: Set<S>) -> bool {
    exists|p: Seq<S>|
        {
            &&& #[trigger] is_path(m, p)
            &&& p.first() == s
            &&& p.last() == t
            &&& forall|j: int| 0 <= j < p.len() ==> x.contains(#[trigger] p[j])
        }
}

/// Packages a concrete successor into an opaque [`keeps_succ`] fact.
proof fn lemma_keeps_mk<S, A>(m: SysMap<S, A>, set_: Seq<S>, u: S, k: int)
    requires
        0 <= k < m[u].nexts.len(),
        set_.contains(m[u].nexts[k]),
    ensures
        keeps_succ(m, set_, u),
{
    reveal(keeps_succ);
}

/// Fetches the successor that an opaque [`keeps_succ`] fact promises.
proof fn lemma_keeps_pick<S, A>(m: SysMap<S, A>, set_: Seq<S>, u: S) -> (k: int)
    requires
        keeps_succ(m, set_, u),
    ensures
        0 <= k < m[u].nexts.len() && set_.contains(m[u].nexts[k]),
{
    reveal(keeps_succ);
    choose|k: int| 0 <= k < m[u].nexts.len() && set_.contains(#[trigger] m[u].nexts[k])
}

/// Does the worklist already hold the state `x`?
fn seen_has<S: PartialEq>(seen: &Vec<&S>, x: &S) -> (r: bool)
    requires
        reliable_eq::<S>(),
    ensures
        r == vals(seen@).contains(*x),
{
    let n = seen.len();
    let mut i: usize = 0;
    while i < n
        invariant
            reliable_eq::<S>(),
            n == seen@.len(),
            0 <= i <= n,
            forall|j: int| 0 <= j < i ==> vals(seen@)[j] != *x,
        decreases n - i,
    {
        if *seen[i] == *x {
            assert(vals(seen@)[i as int] == *seen@[i as int]);
            return true;
        }
        assert(vals(seen@)[i as int] == *seen@[i as int]);
        i += 1;
    }
    false
}

/// Appending a borrow appends the value it points at.
proof fn lemma_vals_push<S>(q: Seq<&S>, x: &S)
    ensures
        vals(q.push(x)) == vals(q).push(*x),
{
    assert(vals(q.push(x)) =~= vals(q).push(*x));
}

/// A duplicate-free sequence drawn from a finite set is no longer than the
/// set's cardinality.
proof fn lemma_prefix_bound<S>(q: Seq<S>, d: Set<S>)
    requires
        q.no_duplicates(),
        d.finite(),
        forall|i: int| 0 <= i < q.len() ==> d.contains(#[trigger] q[i]),
    ensures
        q.len() <= d.len(),
{
    q.unique_seq_to_set();
    assert(q.to_set().subset_of(d)) by {
        assert forall|x: S| q.to_set().contains(x) implies d.contains(x) by {
            let i = choose|i: int| 0 <= i < q.len() && q[i] == x;
            assert(d.contains(q[i]));
        }
    }
    vstd::set_lib::lemma_len_subset(q.to_set(), d);
}

/// Every state is guided to itself by the one-state path.
proof fn lemma_guided_refl<S, A: PartialEq>(
    m: SysMap<S, A>,
    s: S,
    f: CTLFormula<A>,
    g: CTLFormula<A>,
)
    ensures
        guided_to(m, s, s, f, g),
{
    reveal(guided_to);
    let p = seq![s];
    assert(is_path(m, p));
    assert(p.first() == s && p.last() == s);
}

/// A guided path extends along an edge out of a state that satisfies `f`
/// and avoids `g`.
proof fn lemma_guided_step<S, A: PartialEq>(
    m: SysMap<S, A>,
    s: S,
    u: S,
    v: S,
    f: CTLFormula<A>,
    g: CTLFormula<A>,
)
    requires
        guided_to(m, s, u, f, g),
        m.contains_key(u),
        m[u].nexts.contains(v),
        sat(m, u, f),
        !sat(m, u, g),
    ensures
        guided_to(m, s, v, f, g),
{
    reveal(guided_to);
    let p = choose|p: Seq<S>|
        {
            &&& #[trigger] is_path(m, p)
            &&& p.first() == s
            &&& p.last() == u
            &&& forall|j: int|
                0 <= j < p.len() - 1 ==> sat(m, #[trigger] p[j], f) && !sat(m, p[j], g)
        };
    let q = p.push(v);
    assert forall|i: int| 0 <= i < q.len() - 1 implies m.contains_key(#[trigger] q[i])
        && m[q[i]].nexts.contains(q[i + 1]) by {
        if i < p.len() - 1 {
            assert(q[i] == p[i]);
            assert(q[i + 1] == p[i + 1]);
        } else {
            assert(q[i] == p[p.len() - 1]);
            assert(p[p.len() - 1] == p.last());
            assert(q[i + 1] == v);
        }
    }
    assert(is_path(m, q));
    assert forall|j: int| 0 <= j < q.len() - 1 implies sat(m, #[trigger] q[j], f) && !sat(
        m,
        q[j],
        g,
    ) by {
        if j < p.len() - 1 {
            assert(q[j] == p[j]);
        } else {
            assert(q[j] == p.last());
        }
    }
    assert(q.first() == s && q.last() == v);
}

/// A guided path is in particular a path.
proof fn lemma_guided_reaches<S, A: PartialEq>(
    m: SysMap<S, A>,
    s: S,
    t: S,
    f: CTLFormula<A>,
    g: CTLFormula<A>,
)
    requires
        guided_to(m, s, t, f, g),
    ensures
        reaches(m, s, t),
{
    reveal(guided_to);
    let p = choose|p: Seq<S>|
        {
            &&& #[trigger] is_path(m, p)
            &&& p.first() == s
            &&& p.last() == t
            &&& forall|j: int|
                0 <= j < p.len() - 1 ==> sat(m, #[trigger] p[j], f) && !sat(m, p[j], g)
        };
    assert(is_path(m, p) && p.first() == s && p.last() == t);
}

/// Fetches the path that an opaque [`guided_to`] fact promises.
proof fn lemma_guided_get<S, A: PartialEq>(
    m: SysMap<S, A>,
    s: S,
    t: S,
    f: CTLFormula<A>,
    g: CTLFormula<A>,
) -> (p: Seq<S>)
    requires
        guided_to(m, s, t, f, g),
    ensures
        is_path(m, p),
        p.first() == s,
        p.last() == t,
        forall|j: int| 0 <= j < p.len() - 1 ==> sat(m, #[trigger] p[j], f) && !sat(m, p[j], g),
{
    reveal(guided_to);
    choose|p: Seq<S>|
        {
            &&& #[trigger] is_path(m, p)
            &&& p.first() == s
            &&& p.last() == t
            &&& forall|j: int|
                0 <= j < p.len() - 1 ==> sat(m, #[trigger] p[j], f) && !sat(m, p[j], g)
        }
}

/// A path within `x` extends along an edge that stays in `x`.
proof fn lemma_within_step<S, A>(m: SysMap<S, A>, s: S, u: S, v: S, x: Set<S>)
    requires
        within_to(m, s, u, x),
        m.contains_key(u),
        m[u].nexts.contains(v),
        x.contains(v),
    ensures
        within_to(m, s, v, x),
{
    let p = choose|p: Seq<S>|
        {
            &&& #[trigger] is_path(m, p)
            &&& p.first() == s
            &&& p.last() == u
            &&& forall|j: int| 0 <= j < p.len() ==> x.contains(#[trigger] p[j])
        };
    let q = p.push(v);
    assert forall|i: int| 0 <= i < q.len() - 1 implies m.contains_key(#[trigger] q[i])
        && m[q[i]].nexts.contains(q[i + 1]) by {
        if i < p.len() - 1 {
            assert(q[i] == p[i]);
            assert(q[i + 1] == p[i + 1]);
        } else {
            assert(q[i] == p[p.len() - 1]);
            assert(p[p.len() - 1] == p.last());
            assert(q[i + 1] == v);
        }
    }
    assert(is_path(m, q));
    assert forall|j: int| 0 <= j < q.len() implies x.contains(#[trigger] q[j]) by {
        if j < p.len() {
            assert(q[j] == p[j]);
        } else {
            assert(q[j] == v);
        }
    }
    assert(q.first() == s && q.last() == v);
}

/// No run can break an until obligation out of `x`: when every member of
/// `x` satisfies `f` and avoids `g`, every successor of a member satisfies
/// `f` or `g`, and the successors that satisfy `f` and avoid `g` stay in
/// `x`, then no break path can start inside `x`.
proof fn lemma_au_no_break<S, A: PartialEq>(
    m: SysMap<S, A>,
    x: Set<S>,
    f: CTLFormula<A>,
    g: CTLFormula<A>,
    p: Seq<S>,
)
    requires
        forall|u: S| #[trigger] x.contains(u) ==> m.contains_key(u) && sat(m, u, f) && !sat(
            m,
            u,
            g,
        ),
        forall|u: S, k: int|
            x.contains(u) && 0 <= k < m[u].nexts.len() ==> sat(m, #[trigger] m[u].nexts[k], f)
                || sat(m, m[u].nexts[k], g),
        forall|u: S, k: int|
            x.contains(u) && 0 <= k < m[u].nexts.len() && sat(m, #[trigger] m[u].nexts[k], f)
                && !sat(m, m[u].nexts[k], g) ==> x.contains(m[u].nexts[k]),
        x.contains(p.first()),
    ensures
        !until_break_path(m, p, f, g),
{
    if until_break_path(m, p, f, g) && p.len() == 1 {
        assert(p.last() == p.first());
        assert(false);
    }
    if until_break_path(m, p, f, g) && p.len() >= 2 {
        let q = p.drop_last();
        assert(q.len() == p.len() - 1);
        assert forall|i: int| 0 <= i < q.len() implies q[i] == p[i] by {}
        assert forall|i: int| 0 <= i < q.len() - 1 implies m.contains_key(#[trigger] q[i])
            && m[q[i]].nexts.contains(q[i + 1]) by {
            assert(q[i] == p[i]);
            assert(q[i + 1] == p[i + 1]);
        }
        assert(is_path(m, q));
        assert(q.first() == p.first());
        lemma_path_confined(
            m,
            q,
            x,
            |z: S| true,
            |v: S| sat(m, v, f) && !sat(m, v, g),
        );
        let w = q[q.len() - 1];
        assert(x.contains(w));
        assert(w == p[p.len() - 2]);
        assert(m.contains_key(w) && m[w].nexts.contains(p[p.len() - 1]));
        let k = choose|k: int| 0 <= k < m[w].nexts.len() && m[w].nexts[k] == p[p.len() - 1];
        assert(sat(m, m[w].nexts[k], f) || sat(m, m[w].nexts[k], g));
        assert(p.last() == p[p.len() - 1]);
        assert(false);
    }
}

/// A live part of the searched region yields a stay set that contains the
/// search's start: walk the guided path from the start to any live state
/// and then run inside the live part forever.
#[verifier::rlimit(60)]
proof fn lemma_live_to_stay<S, A: PartialEq>(
    m: SysMap<S, A>,
    s: S,
    rset: Set<S>,
    f: CTLFormula<A>,
    g: CTLFormula<A>,
    y: Set<S>,
)
    requires
        forall|u: S| #[trigger] rset.contains(u) ==> m.contains_key(u) && sat(m, u, f) && !sat(
            m,
            u,
            g,
        ),
        forall|t: S| #[trigger] rset.contains(t) ==> guided_to(m, s, t, f, g),
        live_subset(m, rset, y),
        exists|u: S| y.contains(u),
    ensures
        exists|x: Set<S>| x.contains(s) && #[trigger] stay_set(m, x, f, g),
{
    let u0 = choose|u: S| y.contains(u);
    assert(rset.contains(u0));
    assert(guided_to(m, s, u0, f, g));
    let p = lemma_guided_get(m, s, u0, f, g);
    let x = y.union(p.to_set());
    assert(p.to_set().contains(p[0]));
    assert(x.contains(s));
    assert forall|u: S| x.contains(u) implies (m.contains_key(u) && sat(m, u, f) && !sat(m, u, g)
        && step_into(m, u, x)) by {
        if y.contains(u) {
            assert(rset.contains(u));
            let k = lemma_pick_step(m, u, y);
            assert(x.contains(m[u].nexts[k]));
            lemma_mk_step(m, u, x, k);
        } else {
            assert(p.to_set().contains(u));
            let j = choose|j: int| 0 <= j < p.len() && p[j] == u;
            if j == p.len() - 1 {
                assert(u == p.last());
                assert(y.contains(u0));
                assert(false);
            }
            assert(sat(m, p[j], f) && !sat(m, p[j], g));
            assert(m.contains_key(p[j]) && m[p[j]].nexts.contains(p[j + 1]));
            let k = choose|k: int| 0 <= k < m[p[j]].nexts.len() && m[p[j]].nexts[k] == p[j + 1];
            assert(p.to_set().contains(p[j + 1]));
            assert(x.contains(m[u].nexts[k]));
            lemma_mk_step(m, u, x, k);
        }
    }
    assert(stay_set(m, x, f, g));
}

/// A stay set that contains the search's start yields a live part of the
/// searched region: the states of the stay set that the start reaches
/// without leaving the set.
#[verifier::rlimit(100)]
proof fn lemma_stay_to_live<S, A: PartialEq>(
    m: SysMap<S, A>,
    s: S,
    rset: Set<S>,
    f: CTLFormula<A>,
    g: CTLFormula<A>,
    x: Set<S>,
)
    requires
        x.contains(s),
        stay_set(m, x, f, g),
        rset.contains(s),
        forall|u: S, k: int|
            rset.contains(u) && 0 <= k < m[u].nexts.len() && sat(m, #[trigger] m[u].nexts[k], f)
                && !sat(m, m[u].nexts[k], g) ==> rset.contains(m[u].nexts[k]),
    ensures
        exists|y: Set<S>| #[trigger] live_subset(m, rset, y) && y.contains(s),
{
    let y = Set::new(|t: S| x.contains(t) && within_to(m, s, t, x));
    assert(within_to(m, s, s, x)) by {
        let p = seq![s];
        assert(is_path(m, p));
        assert(p.first() == s && p.last() == s);
        assert forall|j: int| 0 <= j < p.len() implies x.contains(#[trigger] p[j]) by {
            assert(p[j] == s);
        }
    }
    assert(y.contains(s));
    assert forall|t: S| y.contains(t) implies rset.contains(t) by {
        let p = choose|p: Seq<S>|
            {
                &&& #[trigger] is_path(m, p)
                &&& p.first() == s
                &&& p.last() == t
                &&& forall|j: int| 0 <= j < p.len() ==> x.contains(#[trigger] p[j])
            };
        lemma_path_confined(
            m,
            p,
            rset,
            |z: S| true,
            |v: S| sat(m, v, f) && !sat(m, v, g),
        );
        assert(p.last() == p[p.len() - 1]);
        assert(rset.contains(p[p.len() - 1]));
    }
    assert forall|u: S| y.contains(u) implies (m.contains_key(u)
        && step_into(m, u, y)) by {
        assert(x.contains(u));
        assert(step_into(m, u, x));
        let k = lemma_pick_step(m, u, x);
        lemma_within_step(m, s, u, m[u].nexts[k], x);
        assert(y.contains(m[u].nexts[k]));
        lemma_mk_step(m, u, y, k);
    }
    assert(live_subset(m, rset, y));
}

/// Finds a member of the worklist with no successor inside it, if any is
/// left.
fn find_removable<S: PartialEq, T: PartialEq, M: Model<S, T>>(model: &M, cur: &Vec<&S>) -> (r:
    Result<Option<usize>, StateNotFound>)
    requires
        model.wf(),
        reliable_eq::<S>(),
        forall|i: int| 0 <= i < cur@.len() ==> model.sys().contains_key(#[trigger] vals(cur@)[i]),
    ensures
        match r {
            Ok(found) => match found {
                Some(i) => 0 <= i < cur@.len() && !keeps_succ(
                    model.sys(),
                    vals(cur@),
                    vals(cur@)[i as int],
                ),
                None => forall|i: int|
                    0 <= i < cur@.len() ==> keeps_succ(
                        model.sys(),
                        vals(cur@),
                        #[trigger] vals(cur@)[i],
                    ),
            },
            Err(_) => false,
        },
{
    let ghost m = model.sys();
    let n = cur.len();
    let mut i: usize = 0;
    while i < n
        invariant
            model.wf(),
            reliable_eq::<S>(),
            m == model.sys(),
            n == cur@.len(),
            0 <= i <= n,
            forall|j: int| 0 <= j < cur@.len() ==> m.contains_key(#[trigger] vals(cur@)[j]),
            forall|j: int| 0 <= j < i ==> keeps_succ(m, vals(cur@), #[trigger] vals(cur@)[j]),
        decreases n - i,
    {
        let u: &S = cur[i];
        assert(*u == vals(cur@)[i as int]);
        let nexts = match model.transitions(u) {
            Ok(v) => v,
            Err(e) => {
                proof {
                    assert(false);
                }
                return Err(e);
            },
        };
        let nn = nexts.len();
        let mut k: usize = 0;
        let mut found = false;
        while k < nn
            invariant
                model.wf(),
                reliable_eq::<S>(),
                m == model.sys(),
                n == cur@.len(),
                0 <= i < n,
                *u == vals(cur@)[i as int],
                m.contains_key(*u),
                nexts@ == m[*u].nexts,
                nn == nexts@.len(),
                0 <= k <= nn,
                forall|j: int| 0 <= j < cur@.len() ==> m.contains_key(#[trigger] vals(cur@)[j]),
                forall|j: int| 0 <= j < i ==> keeps_succ(m, vals(cur@), #[trigger] vals(cur@)[j]),
                found ==> keeps_succ(m, vals(cur@), *u),
                !found ==> forall|kk: int|
                    0 <= kk < k ==> !vals(cur@).contains(#[trigger] m[*u].nexts[kk]),
            decreases nn - k,
    {
            if seen_has(cur, &nexts[k]) {
                assert(nexts@[k as int] == m[*u].nexts[k as int]);
                proof {
                    lemma_keeps_mk(m, vals(cur@), *u, k as int);
                }
                found = true;
                k = nn;
            } else {
                assert(nexts@[k as int] == m[*u].nexts[k as int]);
                k += 1;
            }
        }
        if !found {
            assert(!keeps_succ(m, vals(cur@), *u)) by {
                reveal(keeps_succ);
            }
            return Ok(Some(i));
        }
        i += 1;
    }
    Ok(None)
}

/// Removes states from the worklist until every remaining state keeps a
/// successor among the remaining ones, and reports whether anything
/// remains: exactly whether the original worklist held a non-empty part
/// that can sustain an infinite run.
#[verifier::rlimit(60)]
fn prune_live<S: PartialEq, T: PartialEq, M: Model<S, T>>(model: &M, work: Vec<&S>) -> (r: Result<
    bool,
    StateNotFound,
>)
    requires
        model.wf(),
        reliable_eq::<S>(),
        vals(work@).no_duplicates(),
        forall|i: int| 0 <= i < work@.len() ==> model.sys().contains_key(#[trigger] vals(work@)[i]),
    ensures
        match r {
            Ok(b) => b == some_live(model.sys(), vals(work@).to_set()),
            Err(_) => false,
        },
{
    let ghost m = model.sys();
    let ghost full = vals(work@).to_set();
    let mut cur = work;
    loop
        invariant
            model.wf(),
            reliable_eq::<S>(),
            m == model.sys(),
            full == vals(work@).to_set(),
            vals(cur@).no_duplicates(),
            forall|i: int| 0 <= i < cur@.len() ==> m.contains_key(#[trigger] vals(cur@)[i]),
            vals(cur@).to_set().subset_of(full),
            forall|y: Set<S>|
                #[trigger] live_subset(m, full, y) ==> y.subset_of(vals(cur@).to_set()),
        ensures
            forall|i: int| 0 <= i < cur@.len() ==> m.contains_key(#[trigger] vals(cur@)[i]),
            vals(cur@).to_set().subset_of(full),
            forall|y: Set<S>|
                #[trigger] live_subset(m, full, y) ==> y.subset_of(vals(cur@).to_set()),
            forall|i: int| 0 <= i < cur@.len() ==> keeps_succ(m, vals(cur@), #[trigger] vals(cur@)[i]),
        decreases cur@.len(),
    {
        let step = match find_removable(model, &cur) {
            Ok(v) => v,
            Err(e) => {
                proof {
                    assert(false);
                }
                return Err(e);
            },
        };
        match step {
            Some(i) => {
                let ghost old_vals = vals(cur@);
                let ghost gone = vals(cur@)[i as int];
                proof {
                    assert forall|y: Set<S>| #[trigger] live_subset(m, full, y) implies !y.contains(
                        gone,
                    ) by {
                        if y.contains(gone) {
                            assert(y.subset_of(old_vals.to_set()));
                            let k = lemma_pick_step(m, gone, y);
                            assert(old_vals.to_set().contains(m[gone].nexts[k]));
                            assert(old_vals.contains(m[gone].nexts[k]));
                            lemma_keeps_mk(m, old_vals, gone, k);
                        }
                    }
                }
                cur.swap_remove(i);
                proof {
                    let nv = vals(cur@);
                    assert forall|j: int| 0 <= j < nv.len() implies nv[j] == (if j == i as int {
                        old_vals[old_vals.len() - 1]
                    } else {
                        old_vals[j]
                    }) by {
                        assert(nv[j] == *cur@[j]);
                    }
                    assert(nv.no_duplicates()) by {
                        assert forall|j1: int, j2: int|
                            0 <= j1 < nv.len() && 0 <= j2 < nv.len() && j1 != j2 implies nv[j1]
                            != nv[j2] by {}
                    }
                    assert forall|j: int| 0 <= j < nv.len() implies m.contains_key(
                        #[trigger] nv[j],
                    ) by {}
                    assert forall|z: S| nv.to_set().contains(z) implies full.contains(z) by {
                        let j = choose|j: int| 0 <= j < nv.len() && nv[j] == z;
                        assert(old_vals.to_set().contains(z));
                    }
                    assert forall|y: Set<S>| #[trigger] live_subset(m, full, y) implies y.subset_of(
                        nv.to_set(),
                    ) by {
                        assert forall|z: S| y.contains(z) implies nv.to_set().contains(z) by {
                            assert(old_vals.to_set().contains(z));
                            assert(z != gone);
                            let j = choose|j: int| 0 <= j < old_vals.len() && old_vals[j] == z;
                            if j == old_vals.len() - 1 {
                                assert(i as int != j);
                                assert(nv[i as int] == z);
                            } else {
                                assert(j != i as int);
                                assert(nv[j] == z);
                            }
                        }
                    }
                }
            },
            None => {
                break;
            },
        }
    }
    let live = cur.len() > 0;
    proof {
        let cset = vals(cur@).to_set();
        if cur@.len() > 0 {
            assert forall|u: S| cset.contains(u) implies (m.contains_key(u)
                && step_into(m, u, cset)) by {
                let i = choose|i: int| 0 <= i < vals(cur@).len() && vals(cur@)[i] == u;
                assert(keeps_succ(m, vals(cur@), u));
                let k = lemma_keeps_pick(m, vals(cur@), u);
                assert(cset.contains(m[u].nexts[k]));
                lemma_mk_step(m, u, cset, k);
            }
            assert(live_subset(m, full, cset));
            assert(cset.contains(vals(cur@)[0]));
            assert(some_live(m, full));
        } else {
            assert forall|y: Set<S>| #[trigger] live_subset(m, full, y) implies !(exists|u: S|
                y.contains(u)) by {
                if exists|u: S| y.contains(u) {
                    let u = choose|u: S| y.contains(u);
                    assert(y.subset_of(cset));
                    assert(vals(cur@).contains(u));
                }
            }
            assert(!some_live(m, full));
        }
    }
    Ok(live)
}


/// Appending a fresh value keeps a sequence duplicate-free.
proof fn lemma_push_distinct<S>(q: Seq<S>, x: S)
    requires
        q.no_duplicates(),
        !q.contains(x),
    ensures
        q.push(x).no_duplicates(),
{
    let r = q.push(x);
    assert forall|i: int, j: int|
        0 <= i < r.len() && 0 <= j < r.len() && i != j implies r[i] != r[j] by {
        if i < q.len() && j < q.len() {
            assert(r[i] == q[i] && r[j] == q[j]);
        } else if i < q.len() {
            assert(r[i] == q[i] && r[j] == x);
            if q[i] == x {
                assert(q.contains(x));
            }
        } else {
            assert(r[i] == x && r[j] == q[j]);
            if q[j] == x {
                assert(q.contains(x));
            }
        }
    }
}

/// Appending a value keeps every value the sequence already holds.
proof fn lemma_contains_after_push<S>(q: Seq<S>, x: S, y: S)
    requires
        q.contains(y),
    ensures
        q.push(x).contains(y),
{
    let i = choose|i: int| 0 <= i < q.len() && q[i] == y;
    assert(q.push(x)[i] == y);
}

/// A path that keeps `f` true until a final `g`-state can be cut at the
/// first `g`-state: the result also avoids `g` before its end.
proof fn lemma_eu_normalize<S, A: PartialEq>(
    m: SysMap<S, A>,
    p: Seq<S>,
    f: CTLFormula<A>,
    g: CTLFormula<A>,
)
    requires
        is_path(m, p),
        forall|i: int| 0 <= i < p.len() - 1 ==> sat(m, #[trigger] p[i], f),
        sat(m, p.last(), g),
    ensures
        exists|q: Seq<S>|
            {
                &&& #[trigger] is_path(m, q)
                &&& q.first() == p.first()
                &&& sat(m, q.last(), g)
                &&& forall|i: int|
                    0 <= i < q.len() - 1 ==> sat(m, #[trigger] q[i], f) && !sat(m, q[i], g)
            },
    decreases p.len(),
{
    if sat(m, p[0], g) {
        let q = seq![p[0]];
        assert(is_path(m, q));
        assert(q.first() == p.first() && q.last() == p[0]);
    } else {
        assert(p.last() == p[p.len() - 1]);
        assert(p.len() >= 2);
        let pp = p.drop_first();
        assert forall|i: int| 0 <= i < pp.len() - 1 implies m.contains_key(#[trigger] pp[i])
            && m[pp[i]].nexts.contains(pp[i + 1]) by {
            assert(pp[i] == p[i + 1]);
            assert(pp[i + 1] == p[i + 2]);
        }
        assert(is_path(m, pp));
        assert(pp.last() == p.last());
        assert forall|i: int| 0 <= i < pp.len() - 1 implies sat(m, #[trigger] pp[i], f) by {
            assert(pp[i] == p[i + 1]);
        }
        lemma_eu_normalize(m, pp, f, g);
        let qq = choose|q: Seq<S>|
            {
                &&& #[trigger] is_path(m, q)
                &&& q.first() == pp.first()
                &&& sat(m, q.last(), g)
                &&& forall|i: int|
                    0 <= i < q.len() - 1 ==> sat(m, #[trigger] q[i], f) && !sat(m, q[i], g)
            };
        let q = seq![p[0]] + qq;
        assert(q.len() == 1 + qq.len());
        assert forall|i: int| 0 <= i < q.len() implies q[i] == (if i == 0 {
            p[0]
        } else {
            qq[i - 1]
        }) by {}
        assert forall|i: int| 0 <= i < q.len() - 1 implies m.contains_key(#[trigger] q[i])
            && m[q[i]].nexts.contains(q[i + 1]) by {
            if i == 0 {
                assert(q[0] == p[0]);
                assert(q[1] == qq[0]);
                assert(qq[0] == qq.first());
                assert(qq.first() == pp.first());
                assert(pp.first() == p[1]);
                assert(m.contains_key(p[0]) && m[p[0]].nexts.contains(p[1]));
            } else {
                assert(q[i] == qq[i - 1]);
                assert(q[i + 1] == qq[i]);
            }
        }
        assert(is_path(m, q));
        assert(q.first() == p.first());
        assert(q.last() == qq.last());
        assert forall|i: int| 0 <= i < q.len() - 1 implies sat(m, #[trigger] q[i], f) && !sat(
            m,
            q[i],
            g,
        ) by {
            if i == 0 {
                assert(q[0] == p[0]);
            } else {
                assert(q[i] == qq[i - 1]);
            }
        }
    }
}

/// The region a guided search has collected holds a live part exactly when
/// a stay set containing the start exists: the two sides of the
/// greatest-fixed-point argument.
proof fn lemma_region_trap<S, A: PartialEq>(
    m: SysMap<S, A>,
    s: S,
    sn: Seq<S>,
    f: CTLFormula<A>,
    g: CTLFormula<A>,
)
    requires
        sn.len() >= 1,
        sn[0] == s,
        forall|i: int| 0 <= i < sn.len() ==> m.contains_key(#[trigger] sn[i]),
        forall|i: int| 0 <= i < sn.len() ==> sat(m, #[trigger] sn[i], f) && !sat(m, sn[i], g),
        forall|i: int| 0 <= i < sn.len() ==> guided_to(m, s, #[trigger] sn[i], f, g),
        forall|i: int, k: int|
            0 <= i < sn.len() && 0 <= k < m[sn[i]].nexts.len()
                && sat(m, #[trigger] m[sn[i]].nexts[k], f)
                && !sat(m, m[sn[i]].nexts[k], g) ==> sn.contains(m[sn[i]].nexts[k]),
    ensures
        (some_live(m, sn.to_set()) == some_stay(m, s, f, g)),
{
    let rset = sn.to_set();
    assert(rset.contains(s)) by {
        assert(sn.contains(s));
    }
    assert forall|u: S| rset.contains(u) implies (m.contains_key(u) && sat(m, u, f)
        && !sat(m, u, g) && guided_to(m, s, u, f, g)) by {
        let i = choose|i: int| 0 <= i < sn.len() && sn[i] == u;
        assert(m.contains_key(sn[i]));
    }
    assert forall|u: S, k: int|
        rset.contains(u) && 0 <= k < m[u].nexts.len() && sat(m, #[trigger] m[u].nexts[k], f)
            && !sat(m, m[u].nexts[k], g) implies rset.contains(m[u].nexts[k]) by {
        let i = choose|i: int| 0 <= i < sn.len() && sn[i] == u;
        assert(sn.contains(m[sn[i]].nexts[k]));
    }
    if some_live(m, rset) {
        let y = choose|y: Set<S>| #[trigger] live_subset(m, rset, y) && exists|u: S| y.contains(u);
        lemma_live_to_stay(m, s, rset, f, g, y);
        assert(some_stay(m, s, f, g));
    }
    if some_stay(m, s, f, g) {
        let x = choose|x: Set<S>| x.contains(s) && #[trigger] stay_set(m, x, f, g);
        lemma_stay_to_live(m, s, rset, f, g, x);
        let y = choose|y: Set<S>| #[trigger] live_subset(m, rset, y) && y.contains(s);
        assert(live_subset(m, rset, y) && exists|u: S| y.contains(u));
        assert(some_live(m, rset));
    }
}

/// `EX`: does some direct successor of `state` satisfy `formula`?  True on
/// the first successor that does; false when none exists or none does.
fn check_any_next<S: PartialEq, T: PartialEq, M: Model<S, T>>(
    model: &M,
    state: &S,
    formula: &CTLFormula<T>,
) -> (r: Result<bool, StateNotFound>)
    requires
        model.wf(),
        reliable_eq::<S>(),
    ensures
        closed_sys(model.sys()) && model.sys().contains_key(*state) ==> r == Ok::<bool, StateNotFound>(
            exists|i: int|
                0 <= i < model.sys()[*state].nexts.len() && sat(
                    model.sys(),
                    #[trigger] model.sys()[*state].nexts[i],
                    *formula,
                ),
        ),
    decreases formula.size() + 1, 3int,
{
    let ghost m = model.sys();
    let nexts = model.transitions(state)?;
    let n = nexts.len();
    let mut k: usize = 0;
    while k < n
        invariant
            model.wf(),
            reliable_eq::<S>(),
            m == model.sys(),
            m.contains_key(*state),
            nexts@ == m[*state].nexts,
            n == nexts@.len(),
            0 <= k <= n,
            closed_sys(m) ==> forall|j: int|
                0 <= j < k ==> !sat(m, #[trigger] m[*state].nexts[j], *formula),
        decreases n - k,
    {
        proof {
            if closed_sys(m) {
                assert(m.contains_key(m[*state].nexts[k as int]));
            }
        }
        let b = verify(model, &nexts[k], formula)?;
        if b {
            proof {
                assert(nexts@[k as int] == m[*state].nexts[k as int]);
            }
            return Ok(true);
        }
        proof {
            assert(nexts@[k as int] == m[*state].nexts[k as int]);
        }
        k += 1;
    }
    Ok(false)
}

/// `AX`: do all direct successors of `state` satisfy `formula`?  False on
/// the first that does not; vacuously true when `state` has no successors.
fn check_all_nexts<S: PartialEq, T: PartialEq, M: Model<S, T>>(
    model: &M,
    state: &S,
    formula: &CTLFormula<T>,
) -> (r: Result<bool, StateNotFound>)
    requires
        model.wf(),
        reliable_eq::<S>(),
    ensures
        closed_sys(model.sys()) && model.sys().contains_key(*state) ==> r == Ok::<bool, StateNotFound>(
            forall|i: int|
                0 <= i < model.sys()[*state].nexts.len() ==> sat(
                    model.sys(),
                    #[trigger] model.sys()[*state].nexts[i],
                    *formula,
                ),
        ),
    decreases formula.size() + 1, 3int,
{
    let ghost m = model.sys();
    let nexts = model.transitions(state)?;
    let n = nexts.len();
    let mut k: usize = 0;
    while k < n
        invariant
            model.wf(),
            reliable_eq::<S>(),
            m == model.sys(),
            m.contains_key(*state),
            nexts@ == m[*state].nexts,
            n == nexts@.len(),
            0 <= k <= n,
            closed_sys(m) ==> forall|j: int|
                0 <= j < k ==> sat(m, #[trigger] m[*state].nexts[j], *formula),
        decreases n - k,
    {
        proof {
            if closed_sys(m) {
                assert(m.contains_key(m[*state].nexts[k as int]));
            }
        }
        let b = verify(model, &nexts[k], formula)?;
        if !b {
            proof {
                assert(nexts@[k as int] == m[*state].nexts[k as int]);
            }
            return Ok(false);
        }
        proof {
            assert(nexts@[k as int] == m[*state].nexts[k as int]);
        }
        k += 1;
    }
    Ok(true)
}

/// Breadth-first search of the states reachable from `state` for one whose
/// verdict on `formula` equals `want`; the engine behind `EF` and `AG`.
fn search_sat<S: PartialEq, T: PartialEq, M: Model<S, T>>(
    model: &M,
    state: &S,
    formula: &CTLFormula<T>,
    want: bool,
) -> (r: Result<bool, StateNotFound>)
    requires
        model.wf(),
        reliable_eq::<S>(),
    ensures
        closed_sys(model.sys()) && model.sys().contains_key(*state) ==> r == Ok::<bool, StateNotFound>(
            exists|t: S|
                #[trigger] reaches(model.sys(), *state, t) && sat(model.sys(), t, *formula)
                    == want,
        ),
    decreases formula.size() + 1, 1int,
{
    let ghost m = model.sys();
    proof {
        model.wf_finite();
        let p0 = seq![*state];
        assert(is_path(m, p0));
        assert(p0.first() == *state && p0.last() == *state);
        assert(reaches(m, *state, *state));
    }
    let mut seen: Vec<&S> = Vec::new();
    seen.push(state);
    proof {
        assert(vals(seen@) =~= seq![*state]);
    }
    let mut head: usize = 0;
    while head < seen.len()
        invariant
            model.wf(),
            reliable_eq::<S>(),
            m == model.sys(),
            m.dom().finite(),
            0 <= head <= seen@.len(),
            seen@.len() >= 1,
            vals(seen@)[0] == *state,
            vals(seen@).no_duplicates(),
            forall|i: int| 0 <= i < seen@.len() ==> reaches(m, *state, #[trigger] vals(seen@)[i]),
            forall|i: int| 0 <= i < head ==> m.contains_key(#[trigger] vals(seen@)[i]),
            closed_sys(m) ==> forall|i: int|
                0 <= i < head ==> sat(m, #[trigger] vals(seen@)[i], *formula) != want,
            forall|i: int, kk: int|
                0 <= i < head && 0 <= kk < m[vals(seen@)[i]].nexts.len() ==> vals(seen@).contains(
                    #[trigger] m[vals(seen@)[i]].nexts[kk],
                ),
        decreases m.dom().len() - head,
    {
        let u: &S = seen[head];
        proof {
            assert(*u == vals(seen@)[head as int]);
            if closed_sys(m) && m.contains_key(*state) {
                lemma_reaches_in_dom(m, *state, *u);
            }
        }
        let got = verify(model, u, formula)?;
        if got == want {
            return Ok(true);
        }
        let nexts = model.transitions(u)?;
        proof {
            let pref = vals(seen@).take(head as int + 1);
            assert forall|i1: int, i2: int|
                0 <= i1 < pref.len() && 0 <= i2 < pref.len() && i1 != i2 implies pref[i1]
                != pref[i2] by {
                assert(pref[i1] == vals(seen@)[i1]);
                assert(pref[i2] == vals(seen@)[i2]);
            }
            assert forall|i: int| 0 <= i < pref.len() implies m.dom().contains(
                #[trigger] pref[i],
            ) by {
                assert(pref[i] == vals(seen@)[i]);
            }
            lemma_prefix_bound(pref, m.dom());
        }
        let n = nexts.len();
        let mut k: usize = 0;
        while k < n
            invariant
                model.wf(),
                reliable_eq::<S>(),
                m == model.sys(),
                m.dom().finite(),
                0 <= head < seen@.len(),
                seen@.len() >= 1,
                vals(seen@)[0] == *state,
                *u == vals(seen@)[head as int],
                m.contains_key(*u),
                nexts@ == m[*u].nexts,
                n == nexts@.len(),
                0 <= k <= n,
                vals(seen@).no_duplicates(),
                forall|i: int|
                    0 <= i < seen@.len() ==> reaches(m, *state, #[trigger] vals(seen@)[i]),
                forall|i: int| 0 <= i < head ==> m.contains_key(#[trigger] vals(seen@)[i]),
                closed_sys(m) ==> forall|i: int|
                    0 <= i < head ==> sat(m, #[trigger] vals(seen@)[i], *formula) != want,
                forall|i: int, kk: int|
                    0 <= i < head && 0 <= kk < m[vals(seen@)[i]].nexts.len() ==> vals(
                        seen@,
                    ).contains(#[trigger] m[vals(seen@)[i]].nexts[kk]),
                forall|kk: int|
                    0 <= kk < k ==> vals(seen@).contains(#[trigger] m[*u].nexts[kk]),
            decreases n - k,
        {
            let v: &S = &nexts[k];
            proof {
                assert(*v == m[*u].nexts[k as int]);
            }
            if !seen_has(&seen, v) {
                let ghost oq = seen@;
                proof {
                    assert(m[*u].nexts.contains(*v));
                    lemma_reaches_step(m, *state, *u, *v);
                }
                seen.push(v);
                proof {
                    assert(seen@ == oq.push(v));
                    lemma_vals_push(oq, v);
                    lemma_push_distinct(vals(oq), *v);
                    assert(vals(seen@) == vals(oq).push(*v));
                    assert(vals(seen@)[vals(oq).len() as int] == *v);
                    assert forall|i: int, kk: int|
                        0 <= i < head && 0 <= kk < m[vals(seen@)[i]].nexts.len() implies vals(
                            seen@,
                        ).contains(#[trigger] m[vals(seen@)[i]].nexts[kk]) by {
                        assert(vals(seen@)[i] == vals(oq)[i]);
                        assert(vals(oq).contains(m[vals(oq)[i]].nexts[kk]));
                        lemma_contains_after_push(vals(oq), *v, m[vals(oq)[i]].nexts[kk]);
                    }
                    assert forall|kk: int| 0 <= kk < k + 1 implies vals(seen@).contains(
                        #[trigger] m[*u].nexts[kk],
                    ) by {
                        if kk < k {
                            assert(vals(oq).contains(m[*u].nexts[kk]));
                            lemma_contains_after_push(vals(oq), *v, m[*u].nexts[kk]);
                        } else {
                            assert(m[*u].nexts[kk] == *v);
                        }
                    }
                }
            } else {
                proof {
                    assert(vals(seen@).contains(m[*u].nexts[k as int]));
                }
            }
            k += 1;
        }
        head += 1;
    }
    proof {
        if closed_sys(m) && m.contains_key(*state) {
            let xs = vals(seen@).to_set();
            assert(vals(seen@).contains(*state)) by {
                assert(vals(seen@)[0] == *state);
            }
            assert forall|u: S, k: int|
                xs.contains(u) && m.contains_key(u) && 0 <= k < m[u].nexts.len() implies
                xs.contains(#[trigger] m[u].nexts[k]) by {
                let i = choose|i: int| 0 <= i < vals(seen@).len() && vals(seen@)[i] == u;
                assert(vals(seen@).contains(m[vals(seen@)[i]].nexts[k]));
            }
            assert forall|t: S| #[trigger] reaches(m, *state, t) implies sat(m, t, *formula)
                != want by {
                let p = choose|p: Seq<S>| is_path(m, p) && p.first() == *state && p.last() == t;
                lemma_path_confined(m, p, xs, |z: S| true, |z: S| true);
                assert(xs.contains(p[p.len() - 1]));
                assert(p.last() == p[p.len() - 1]);
                let i = choose|i: int| 0 <= i < vals(seen@).len() && vals(seen@)[i] == t;
                assert(sat(m, vals(seen@)[i], *formula) != want);
            }
        }
    }
    Ok(false)
}

/// `EF`: does some state reachable from `state` satisfy `formula`?
fn check_any_future<S: PartialEq, T: PartialEq, M: Model<S, T>>(
    model: &M,
    state: &S,
    formula: &CTLFormula<T>,
) -> (r: Result<bool, StateNotFound>)
    requires
        model.wf(),
        reliable_eq::<S>(),
    ensures
        closed_sys(model.sys()) && model.sys().contains_key(*state) ==> r == Ok::<bool, StateNotFound>(
            exists|t: S|
                #[trigger] reaches(model.sys(), *state, t) && sat(model.sys(), t, *formula),
        ),
    decreases formula.size() + 1, 3int,
{
    search_sat(model, state, formula, true)
}

/// `AG`: does `formula` hold at every state reachable from `state`?
fn check_all_paths_global<S: PartialEq, T: PartialEq, M: Model<S, T>>(
    model: &M,
    state: &S,
    formula: &CTLFormula<T>,
) -> (r: Result<bool, StateNotFound>)
    requires
        model.wf(),
        reliable_eq::<S>(),
    ensures
        closed_sys(model.sys()) && model.sys().contains_key(*state) ==> r == Ok::<bool, StateNotFound>(
            forall|t: S| #[trigger] reaches(model.sys(), *state, t) ==> sat(model.sys(), t, *formula),
        ),
    decreases formula.size() + 1, 3int,
{
    let found = search_sat(model, state, formula, false)?;
    Ok(!found)
}

/// The shared search behind `EG`, `AF`, `E U` and `A U`: collects every
/// state that a path of `formula`-and-not-`avoid` states can reach from
/// `state`, and reports on the way whether some examined successor broke
/// the until obligation (satisfied neither formula) and whether some
/// examined successor satisfied `avoid`.
#[verifier::rlimit(100)]
fn collect_guided<'a, S: PartialEq, T: PartialEq, M: Model<S, T>>(
    model: &'a M,
    state: &'a S,
    formula: &CTLFormula<T>,
    avoid: &CTLFormula<T>,
) -> (r: Result<(Vec<&'a S>, bool, bool), StateNotFound>)
    requires
        model.wf(),
        reliable_eq::<S>(),
        closed_sys(model.sys()) && model.sys().contains_key(*state) ==> sat(
            model.sys(),
            *state,
            *formula,
        ) && !sat(model.sys(), *state, *avoid),
    ensures
        match r {
            Ok(out) => {
                let m0 = model.sys();
                let sn = vals(out.0@);
                &&& sn.no_duplicates()
                &&& sn.len() >= 1
                &&& sn[0] == *state
                &&& forall|i: int| 0 <= i < sn.len() ==> m0.contains_key(#[trigger] sn[i])
                &&& (closed_sys(m0) && m0.contains_key(*state) ==> {
                    &&& (forall|i: int|
                        0 <= i < sn.len() ==> sat(m0, #[trigger] sn[i], *formula) && !sat(
                            m0,
                            sn[i],
                            *avoid,
                        ))
                    &&& (forall|i: int|
                        0 <= i < sn.len() ==> guided_to(m0, *state, #[trigger] sn[i], *formula, *avoid))
                    &&& (forall|i: int, k: int|
                        0 <= i < sn.len() && 0 <= k < m0[sn[i]].nexts.len()
                            && sat(m0, #[trigger] m0[sn[i]].nexts[k], *formula)
                            && !sat(m0, m0[sn[i]].nexts[k], *avoid) ==> sn.contains(
                            m0[sn[i]].nexts[k],
                        ))
                    &&& out.1 == (exists|p: Seq<S>|
                        #![trigger p.first()]
                        until_break_path(m0, p, *formula, *avoid) && p.first() == *state)
                    &&& out.2 == (exists|i: int, k: int|
                        0 <= i < sn.len() && 0 <= k < m0[sn[i]].nexts.len() && sat(
                            m0,
                            #[trigger] m0[sn[i]].nexts[k],
                            *avoid,
                        ))
                })
            },
            Err(_) => !(closed_sys(model.sys()) && model.sys().contains_key(*state)),
        },
    decreases larger(formula.size(), avoid.size()) + 1, 1int,
{
    let ghost m = model.sys();
    let ghost ok = closed_sys(m) && m.contains_key(*state);
    proof {
        model.wf_finite();
        if ok {
            lemma_guided_refl(m, *state, *formula, *avoid);
        }
    }
    let mut seen: Vec<&S> = Vec::new();
    seen.push(state);
    proof {
        assert(vals(seen@) =~= seq![*state]);
    }
    let mut bad = false;
    let mut hit = false;
    let ghost mut badwit: Seq<S> = Seq::empty();
    let mut head: usize = 0;
    while head < seen.len()
        invariant
            model.wf(),
            reliable_eq::<S>(),
            m == model.sys(),
            ok == (closed_sys(m) && m.contains_key(*state)),
            m.dom().finite(),
            ok ==> sat(m, *state, *formula) && !sat(m, *state, *avoid),
            0 <= head <= seen@.len(),
            seen@.len() >= 1,
            vals(seen@)[0] == *state,
            vals(seen@).no_duplicates(),
            forall|i: int| 0 <= i < head ==> m.contains_key(#[trigger] vals(seen@)[i]),
            ok ==> forall|i: int|
                0 <= i < seen@.len() ==> sat(m, #[trigger] vals(seen@)[i], *formula) && !sat(
                    m,
                    vals(seen@)[i],
                    *avoid,
                ),
            ok ==> forall|i: int|
                0 <= i < seen@.len() ==> guided_to(m, *state, #[trigger] vals(seen@)[i], *formula, *avoid),
            ok ==> forall|i: int, kk: int|
                0 <= i < head && 0 <= kk < m[vals(seen@)[i]].nexts.len()
                    && sat(m, #[trigger] m[vals(seen@)[i]].nexts[kk], *formula)
                    && !sat(m, m[vals(seen@)[i]].nexts[kk], *avoid) ==> vals(seen@).contains(
                    m[vals(seen@)[i]].nexts[kk],
                ),
            ok && !bad ==> forall|i: int, kk: int|
                0 <= i < head && 0 <= kk < m[vals(seen@)[i]].nexts.len() ==> sat(
                    m,
                    #[trigger] m[vals(seen@)[i]].nexts[kk],
                    *formula,
                ) || sat(m, m[vals(seen@)[i]].nexts[kk], *avoid),
            ok && bad ==> until_break_path(m, badwit, *formula, *avoid) && badwit.first()
                == *state,
            ok && !hit ==> forall|i: int, kk: int|
                0 <= i < head && 0 <= kk < m[vals(seen@)[i]].nexts.len() ==> !sat(
                    m,
                    #[trigger] m[vals(seen@)[i]].nexts[kk],
                    *avoid,
                ),
            ok && hit ==> exists|i: int, kk: int|
                0 <= i < seen@.len() && 0 <= kk < m[vals(seen@)[i]].nexts.len() && sat(
                    m,
                    #[trigger] m[vals(seen@)[i]].nexts[kk],
                    *avoid,
                ),
        decreases m.dom().len() - head,
    {
        let u: &S = seen[head];
        proof {
            assert(*u == vals(seen@)[head as int]);
            if ok {
                lemma_guided_reaches(m, *state, *u, *formula, *avoid);
                lemma_reaches_in_dom(m, *state, *u);
            }
        }
        let nexts = model.transitions(u)?;
        proof {
            let pref = vals(seen@).take(head as int + 1);
            assert forall|i1: int, i2: int|
                0 <= i1 < pref.len() && 0 <= i2 < pref.len() && i1 != i2 implies pref[i1]
                != pref[i2] by {
                assert(pref[i1] == vals(seen@)[i1]);
                assert(pref[i2] == vals(seen@)[i2]);
            }
            assert forall|i: int| 0 <= i < pref.len() implies m.dom().contains(
                #[trigger] pref[i],
            ) by {
                assert(pref[i] == vals(seen@)[i]);
            }
            lemma_prefix_bound(pref, m.dom());
        }
        let n = nexts.len();
        let mut k: usize = 0;
        while k < n
            invariant
                model.wf(),
                reliable_eq::<S>(),
                m == model.sys(),
                ok == (closed_sys(m) && m.contains_key(*state)),
                m.dom().finite(),
                ok ==> sat(m, *state, *formula) && !sat(m, *state, *avoid),
                0 <= head < seen@.len(),
                seen@.len() >= 1,
                vals(seen@)[0] == *state,
                *u == vals(seen@)[head as int],
                m.contains_key(*u),
                nexts@ == m[*u].nexts,
                n == nexts@.len(),
                0 <= k <= n,
                vals(seen@).no_duplicates(),
                forall|i: int| 0 <= i < head ==> m.contains_key(#[trigger] vals(seen@)[i]),
                ok ==> forall|i: int|
                    0 <= i < seen@.len() ==> sat(m, #[trigger] vals(seen@)[i], *formula) && !sat(
                        m,
                        vals(seen@)[i],
                        *avoid,
                    ),
                ok ==> forall|i: int|
                    0 <= i < seen@.len() ==> guided_to(m, *state, #[trigger] vals(seen@)[i], *formula, *avoid),
                ok ==> forall|i: int, kk: int|
                    0 <= i < head && 0 <= kk < m[vals(seen@)[i]].nexts.len()
                        && sat(m, #[trigger] m[vals(seen@)[i]].nexts[kk], *formula)
                        && !sat(m, m[vals(seen@)[i]].nexts[kk], *avoid) ==> vals(seen@).contains(
                        m[vals(seen@)[i]].nexts[kk],
                    ),
                ok ==> forall|kk: int|
                    0 <= kk < k && sat(m, #[trigger] m[*u].nexts[kk], *formula) && !sat(
                        m,
                        m[*u].nexts[kk],
                        *avoid,
                    ) ==> vals(seen@).contains(m[*u].nexts[kk]),
                ok && !bad ==> forall|i: int, kk: int|
                    0 <= i < head && 0 <= kk < m[vals(seen@)[i]].nexts.len() ==> sat(
                        m,
                        #[trigger] m[vals(seen@)[i]].nexts[kk],
                        *formula,
                    ) || sat(m, m[vals(seen@)[i]].nexts[kk], *avoid),
                ok && !bad ==> forall|kk: int|
                    0 <= kk < k ==> sat(m, #[trigger] m[*u].nexts[kk], *formula) || sat(
                        m,
                        m[*u].nexts[kk],
                        *avoid,
                    ),
                ok && bad ==> until_break_path(m, badwit, *formula, *avoid) && badwit.first()
                    == *state,
                ok && !hit ==> forall|i: int, kk: int|
                    0 <= i < head && 0 <= kk < m[vals(seen@)[i]].nexts.len() ==> !sat(
                        m,
                        #[trigger] m[vals(seen@)[i]].nexts[kk],
                        *avoid,
                    ),
                ok && !hit ==> forall|kk: int|
                    0 <= kk < k ==> !sat(m, #[trigger] m[*u].nexts[kk], *avoid),
                ok && hit ==> exists|i: int, kk: int|
                    0 <= i < seen@.len() && 0 <= kk < m[vals(seen@)[i]].nexts.len() && sat(
                        m,
                        #[trigger] m[vals(seen@)[i]].nexts[kk],
                        *avoid,
                    ),
            decreases n - k,
        {
            let v: &S = &nexts[k];
            proof {
                assert(*v == m[*u].nexts[k as int]);
                if ok {
                    assert(m.contains_key(m[*u].nexts[k as int]));
                }
            }
            let bgv = verify(model, v, avoid)?;
            let bfv = verify(model, v, formula)?;
            if !bfv && !bgv {
                proof {
                    if ok {
                        assert(guided_to(m, *state, *u, *formula, *avoid));
                        let p = lemma_guided_get(m, *state, *u, *formula, *avoid);
                        let q = p.push(*v);
                        assert forall|i: int|
                            0 <= i < q.len() - 1 implies m.contains_key(#[trigger] q[i])
                            && m[q[i]].nexts.contains(q[i + 1]) by {
                            if i < p.len() - 1 {
                                assert(q[i] == p[i]);
                                assert(q[i + 1] == p[i + 1]);
                            } else {
                                assert(q[i] == p[p.len() - 1]);
                                assert(p[p.len() - 1] == p.last());
                                assert(q[i + 1] == *v);
                            }
                        }
                        assert(is_path(m, q));
                        assert forall|j: int|
                            0 <= j < q.len() - 1 implies sat(m, #[trigger] q[j], *formula) && !sat(
                                m,
                                q[j],
                                *avoid,
                            ) by {
                            if j < p.len() - 1 {
                                assert(q[j] == p[j]);
                            } else {
                                assert(q[j] == p.last());
                            }
                        }
                        assert(q.last() == *v);
                        badwit = q;
                        assert(until_break_path(m, badwit, *formula, *avoid));
                        assert(badwit.first() == *state);
                    }
                }
                bad = true;
            } else if bgv {
                proof {
                    if ok {
                        assert(sat(m, m[vals(seen@)[head as int]].nexts[k as int], *avoid));
                    }
                }
                hit = true;
            } else {
                if !seen_has(&seen, v) {
                    let ghost oq = seen@;
                    proof {
                        assert(m[*u].nexts.contains(*v));
                        if ok {
                            lemma_guided_step(m, *state, *u, *v, *formula, *avoid);
                        }
                    }
                    seen.push(v);
                    proof {
                        assert(seen@ == oq.push(v));
                        lemma_vals_push(oq, v);
                        lemma_push_distinct(vals(oq), *v);
                        assert(vals(seen@) == vals(oq).push(*v));
                        assert(vals(seen@)[vals(oq).len() as int] == *v);
                        if ok {
                            assert forall|i: int, kk: int|
                                0 <= i < head && 0 <= kk < m[vals(seen@)[i]].nexts.len()
                                    && sat(m, #[trigger] m[vals(seen@)[i]].nexts[kk], *formula)
                                    && !sat(m, m[vals(seen@)[i]].nexts[kk], *avoid) implies vals(
                                seen@,
                            ).contains(m[vals(seen@)[i]].nexts[kk]) by {
                                assert(vals(seen@)[i] == vals(oq)[i]);
                                assert(vals(oq).contains(m[vals(oq)[i]].nexts[kk]));
                                lemma_contains_after_push(vals(oq), *v, m[vals(oq)[i]].nexts[kk]);
                            }
                            assert forall|kk: int|
                                0 <= kk < k + 1 && sat(m, #[trigger] m[*u].nexts[kk], *formula)
                                    && !sat(m, m[*u].nexts[kk], *avoid) implies vals(
                                seen@,
                            ).contains(m[*u].nexts[kk]) by {
                                if kk < k {
                                    assert(vals(oq).contains(m[*u].nexts[kk]));
                                    lemma_contains_after_push(vals(oq), *v, m[*u].nexts[kk]);
                                } else {
                                    assert(m[*u].nexts[kk] == *v);
                                }
                            }
                            if hit {
                                let (i0, kk0) = choose|i0: int, kk0: int|
                                    0 <= i0 < oq.len() && 0 <= kk0
                                        < m[vals(oq)[i0]].nexts.len() && sat(
                                        m,
                                        #[trigger] m[vals(oq)[i0]].nexts[kk0],
                                        *avoid,
                                    );
                                assert(vals(seen@)[i0] == vals(oq)[i0]);
                                assert(sat(m, m[vals(seen@)[i0]].nexts[kk0], *avoid));
                            }
                        }
                    }
                } else {
                    proof {
                        assert(vals(seen@).contains(m[*u].nexts[k as int]));
                    }
                }
            }
            k += 1;
        }
        head += 1;
    }
    proof {
        if ok {
            let sn = vals(seen@);
            if !bad {
                assert forall|u2: S| sn.to_set().contains(u2) implies (m.contains_key(u2) && sat(
                    m,
                    u2,
                    *formula,
                ) && !sat(m, u2, *avoid)) by {
                    let i = choose|i: int| 0 <= i < sn.len() && sn[i] == u2;
                    assert(m.contains_key(sn[i]));
                }
                assert forall|u2: S, k2: int|
                    sn.to_set().contains(u2) && 0 <= k2 < m[u2].nexts.len() implies sat(
                        m,
                        #[trigger] m[u2].nexts[k2],
                        *formula,
                    ) || sat(m, m[u2].nexts[k2], *avoid) by {
                    let i = choose|i: int| 0 <= i < sn.len() && sn[i] == u2;
                    assert(sat(m, m[sn[i]].nexts[k2], *formula) || sat(m, m[sn[i]].nexts[k2], *avoid));
                }
                assert forall|u2: S, k2: int|
                    sn.to_set().contains(u2) && 0 <= k2 < m[u2].nexts.len()
                        && sat(m, #[trigger] m[u2].nexts[k2], *formula)
                        && !sat(m, m[u2].nexts[k2], *avoid) implies sn.to_set().contains(
                    m[u2].nexts[k2],
                ) by {
                    let i = choose|i: int| 0 <= i < sn.len() && sn[i] == u2;
                    assert(sn.contains(m[sn[i]].nexts[k2]));
                }
                assert forall|p: Seq<S>|
                    #[trigger] until_break_path(m, p, *formula, *avoid) implies p.first()
                    != *state by {
                    if p.first() == *state {
                        assert(sn.to_set().contains(*state)) by {
                            assert(sn[0] == *state);
                        }
                        lemma_au_no_break(m, sn.to_set(), *formula, *avoid, p);
                    }
                }
            }
        }
    }
    Ok((seen, bad, hit))
}

/// The search shared by `EG` and `AF`: is there a set of states containing
/// `state` inside which the system can run forever with `formula` true and
/// `avoid` false?  Collects the guided region and prunes it to its live
/// part.
fn trap_search<S: PartialEq, T: PartialEq, M: Model<S, T>>(
    model: &M,
    state: &S,
    formula: &CTLFormula<T>,
    avoid: &CTLFormula<T>,
) -> (r: Result<bool, StateNotFound>)
    requires
        model.wf(),
        reliable_eq::<S>(),
    ensures
        closed_sys(model.sys()) && model.sys().contains_key(*state) ==> r == Ok::<bool, StateNotFound>(
            some_stay(model.sys(), *state, *formula, *avoid),
        ),
    decreases larger(formula.size(), avoid.size()) + 1, 2int,
{
    let ghost m = model.sys();
    let ghost ok = closed_sys(m) && m.contains_key(*state);
    let bf0 = verify(model, state, formula)?;
    let bg0 = verify(model, state, avoid)?;
    if !bf0 || bg0 {
        proof {
            if ok && some_stay(m, *state, *formula, *avoid) {
                let x = choose|x: Set<S>|
                    x.contains(*state) && #[trigger] stay_set(m, x, *formula, *avoid);
                assert(sat(m, *state, *formula) && !sat(m, *state, *avoid));
            }
        }
        return Ok(false);
    }
    let out = collect_guided(model, state, formula, avoid)?;
    let seen = out.0;
    let ghost sn = vals(seen@);
    let live = match prune_live(model, seen) {
        Ok(b) => b,
        Err(e) => {
            proof {
                assert(false);
            }
            return Err(e);
        },
    };
    proof {
        if ok {
            lemma_region_trap(m, *state, sn, *formula, *avoid);
        }
    }
    Ok(live)
}

/// `EG`: does some path from `state` keep `formula` true forever?  A path
/// that ends in a deadlock does not count: the verdict asks for an
/// infinite run, witnessed by a cycle among satisfying states.
fn check_any_path_global<S: PartialEq, T: PartialEq, M: Model<S, T>>(
    model: &M,
    state: &S,
    formula: &CTLFormula<T>,
) -> (r: Result<bool, StateNotFound>)
    requires
        model.wf(),
        reliable_eq::<S>(),
    ensures
        closed_sys(model.sys()) && model.sys().contains_key(*state) ==> r == Ok::<bool, StateNotFound>(
            some_stay(model.sys(), *state, *formula, CTLFormula::False),
        ),
    decreases formula.size() + 1, 3int,
{
    let avoid: CTLFormula<T> = CTLFormula::False;
    proof {
        lemma_size_pos(*formula);
        assert(avoid.size() == 1);
    }
    trap_search(model, state, formula, &avoid)
}

/// `AF`: does every path from `state` eventually reach a `formula`-state?
/// Equivalently: no infinite run avoids `formula` forever.
fn check_all_future<S: PartialEq, T: PartialEq, M: Model<S, T>>(
    model: &M,
    state: &S,
    formula: &CTLFormula<T>,
) -> (r: Result<bool, StateNotFound>)
    requires
        model.wf(),
        reliable_eq::<S>(),
    ensures
        closed_sys(model.sys()) && model.sys().contains_key(*state) ==> r == Ok::<bool, StateNotFound>(
            !some_stay(model.sys(), *state, CTLFormula::True, *formula),
        ),
    decreases formula.size() + 1, 3int,
{
    let hold: CTLFormula<T> = CTLFormula::True;
    proof {
        lemma_size_pos(*formula);
        assert(hold.size() == 1);
    }
    let b = trap_search(model, state, &hold, formula)?;
    Ok(!b)
}

/// `E[formula U until]`: does some path from `state` keep `formula` true
/// until a state satisfying `until`?
fn check_any_until<S: PartialEq, T: PartialEq, M: Model<S, T>>(
    model: &M,
    state: &S,
    formula: &CTLFormula<T>,
    until: &CTLFormula<T>,
) -> (r: Result<bool, StateNotFound>)
    requires
        model.wf(),
        reliable_eq::<S>(),
    ensures
        closed_sys(model.sys()) && model.sys().contains_key(*state) ==> r == Ok::<bool, StateNotFound>(
            exists|p: Seq<S>|
                {
                    &&& #[trigger] is_path(model.sys(), p)
                    &&& p.first() == *state
                    &&& sat(model.sys(), p.last(), *until)
                    &&& forall|i: int|
                        0 <= i < p.len() - 1 ==> sat(model.sys(), #[trigger] p[i], *formula)
                },
        ),
    decreases formula.size() + until.size() + 1, 3int,
{
    let ghost m = model.sys();
    let ghost ok = closed_sys(m) && m.contains_key(*state);
    let bg0 = verify(model, state, until)?;
    if bg0 {
        proof {
            if ok {
                let p0 = seq![*state];
                assert(is_path(m, p0));
                assert(p0.first() == *state && p0.last() == *state);
            }
        }
        return Ok(true);
    }
    let bf0 = verify(model, state, formula)?;
    if !bf0 {
        proof {
            if ok {
                assert forall|p: Seq<S>|
                    #[trigger] is_path(m, p) && p.first() == *state && sat(m, p.last(), *until)
                        implies !(forall|i: int|
                        0 <= i < p.len() - 1 ==> sat(m, #[trigger] p[i], *formula)) by {
                    if forall|i: int| 0 <= i < p.len() - 1 ==> sat(m, #[trigger] p[i], *formula) {
                        if p.len() == 1 {
                            assert(p.last() == p.first());
                        } else {
                            assert(sat(m, p[0], *formula));
                            assert(p[0] == p.first());
                        }
                        assert(false);
                    }
                }
            }
        }
        return Ok(false);
    }
    let out = collect_guided(model, state, formula, until)?;
    let hit = out.2;
    let ghost sn = vals(out.0@);
    proof {
        if ok {
            if hit {
                let (i, k) = choose|i: int, k: int|
                    0 <= i < sn.len() && 0 <= k < m[sn[i]].nexts.len() && sat(
                        m,
                        #[trigger] m[sn[i]].nexts[k],
                        *until,
                    );
                let u = sn[i];
                let v = m[u].nexts[k];
                assert(guided_to(m, *state, u, *formula, *until));
                let p = lemma_guided_get(m, *state, u, *formula, *until);
                let q = p.push(v);
                assert forall|j: int| 0 <= j < q.len() - 1 implies m.contains_key(#[trigger] q[j])
                    && m[q[j]].nexts.contains(q[j + 1]) by {
                    if j < p.len() - 1 {
                        assert(q[j] == p[j]);
                        assert(q[j + 1] == p[j + 1]);
                    } else {
                        assert(q[j] == p[p.len() - 1]);
                        assert(p[p.len() - 1] == p.last());
                        assert(q[j + 1] == v);
                    }
                }
                assert(is_path(m, q));
                assert(q.first() == *state);
                assert(q.last() == v);
                assert forall|j: int| 0 <= j < q.len() - 1 implies sat(
                    m,
                    #[trigger] q[j],
                    *formula,
                ) by {
                    if j < p.len() - 1 {
                        assert(q[j] == p[j]);
                    } else {
                        assert(q[j] == p.last());
                        assert(sat(m, u, *formula));
                    }
                }
            } else {
                assert forall|p: Seq<S>|
                    #[trigger] is_path(m, p) && p.first() == *state && sat(m, p.last(), *until)
                        implies !(forall|i: int|
                        0 <= i < p.len() - 1 ==> sat(m, #[trigger] p[i], *formula)) by {
                    if forall|i: int| 0 <= i < p.len() - 1 ==> sat(m, #[trigger] p[i], *formula) {
                        lemma_eu_normalize(m, p, *formula, *until);
                        let q = choose|q: Seq<S>|
                            {
                                &&& #[trigger] is_path(m, q)
                                &&& q.first() == p.first()
                                &&& sat(m, q.last(), *until)
                                &&& forall|i: int|
                                    0 <= i < q.len() - 1 ==> sat(m, #[trigger] q[i], *formula)
                                        && !sat(m, q[i], *until)
                            };
                        if q.len() == 1 {
                            assert(q.last() == q.first());
                            assert(sat(m, *state, *until));
                        } else {
                            let h = q.drop_last();
                            assert forall|j: int|
                                0 <= j < h.len() - 1 implies m.contains_key(#[trigger] h[j])
                                && m[h[j]].nexts.contains(h[j + 1]) by {
                                assert(h[j] == q[j]);
                                assert(h[j + 1] == q[j + 1]);
                            }
                            assert(is_path(m, h));
                            assert(h.first() == q.first());
                            assert(sn.to_set().contains(*state)) by {
                                assert(sn[0] == *state);
                            }
                            assert forall|u2: S, k2: int|
                                sn.to_set().contains(u2) && 0 <= k2 < m[u2].nexts.len()
                                    && sat(m, #[trigger] m[u2].nexts[k2], *formula)
                                    && !sat(m, m[u2].nexts[k2], *until) implies sn.to_set(
                            ).contains(m[u2].nexts[k2]) by {
                                let i2 = choose|i2: int| 0 <= i2 < sn.len() && sn[i2] == u2;
                                assert(sn.contains(m[sn[i2]].nexts[k2]));
                            }
                            lemma_path_confined(
                                m,
                                h,
                                sn.to_set(),
                                |z: S| true,
                                (|z: S| sat(m, z, *formula) && !sat(m, z, *until)),
                            );
                            let w = h[h.len() - 1];
                            assert(sn.to_set().contains(w));
                            assert(w == q[q.len() - 2]);
                            assert(m.contains_key(w) && m[w].nexts.contains(q[q.len() - 1]));
                            let kw = choose|kw: int|
                                0 <= kw < m[w].nexts.len() && m[w].nexts[kw] == q[q.len() - 1];
                            let iw = choose|iw: int| 0 <= iw < sn.len() && sn[iw] == w;
                            assert(q.last() == q[q.len() - 1]);
                            assert(sat(m, m[sn[iw]].nexts[kw], *until));
                            assert(false);
                        }
                    }
                }
            }
        }
    }
    Ok(hit)
}

/// `A[formula U until]`: does every path from `state` keep `formula` true
/// until a state satisfying `until`?  False when some run breaks `formula`
/// before `until` arrives, and also when some infinite run keeps `formula`
/// true while `until` never arrives.
fn check_all_until<S: PartialEq, T: PartialEq, M: Model<S, T>>(
    model: &M,
    state: &S,
    formula: &CTLFormula<T>,
    until: &CTLFormula<T>,
) -> (r: Result<bool, StateNotFound>)
    requires
        model.wf(),
        reliable_eq::<S>(),
    ensures
        closed_sys(model.sys()) && model.sys().contains_key(*state) ==> r == Ok::<bool, StateNotFound>({
            &&& !(exists|p: Seq<S>|
                #![trigger p.first()]
                until_break_path(model.sys(), p, *formula, *until) && p.first() == *state)
            &&& !some_stay(model.sys(), *state, *formula, *until)
        }),
    decreases formula.size() + until.size() + 1, 3int,
{
    let ghost m = model.sys();
    let ghost ok = closed_sys(m) && m.contains_key(*state);
    let bg0 = verify(model, state, until)?;
    if bg0 {
        proof {
            if ok {
                assert forall|p: Seq<S>|
                    #[trigger] until_break_path(m, p, *formula, *until) implies p.first()
                    != *state by {
                    if p.first() == *state {
                        if p.len() == 1 {
                            assert(p.last() == p.first());
                        } else {
                            assert(!sat(m, p[0], *until));
                            assert(p[0] == p.first());
                        }
                    }
                }
                if some_stay(m, *state, *formula, *until) {
                    let x = choose|x: Set<S>|
                        x.contains(*state) && #[trigger] stay_set(m, x, *formula, *until);
                    assert(!sat(m, *state, *until));
                }
            }
        }
        return Ok(true);
    }
    let bf0 = verify(model, state, formula)?;
    if !bf0 {
        proof {
            if ok {
                let p0 = seq![*state];
                assert(is_path(m, p0));
                assert(p0.last() == *state && p0.first() == *state);
                assert(until_break_path(m, p0, *formula, *until));
            }
        }
        return Ok(false);
    }
    let out = collect_guided(model, state, formula, until)?;
    let bad = out.1;
    let ghost sn = vals(out.0@);
    if bad {
        return Ok(false);
    }
    let live = match prune_live(model, out.0) {
        Ok(b) => b,
        Err(e) => {
            proof {
                assert(false);
            }
            return Err(e);
        },
    };
    proof {
        if ok {
            lemma_region_trap(m, *state, sn, *formula, *until);
        }
    }
    Ok(!live)
}

/// Decides whether the state `state` of the transition system `model`
/// satisfies the CTL formula `formula`.
///
/// The Boolean connectives are evaluated by structural recursion and each
/// temporal operator by its own search routine.  On a closed system — every
/// successor named anywhere is itself a state — and a `state` the system
/// contains, the verdict is exactly the satisfaction relation
/// [`sat`](crate::semantics::sat); on a malformed query, the first lookup
/// of a missing state aborts the whole evaluation with [`StateNotFound`].
pub fn verify<S: PartialEq, T: PartialEq, M: Model<S, T>>(
    model: &M,
    state: &S,
    formula: &CTLFormula<T>,
) -> (r: Result<bool, StateNotFound>)
    requires
        model.wf(),
        reliable_eq::<S>(),
    ensures
        closed_sys(model.sys()) && model.sys().contains_key(*state) ==> r == Ok::<bool, StateNotFound>(
            sat(model.sys(), *state, *formula),
        ),
        (r matches Err(_)) ==> !(closed_sys(model.sys()) && model.sys().contains_key(*state)),
    decreases formula.size(), 4int,
{
    match formula {
        CTLFormula::True => Ok(true),
        CTLFormula::False => Ok(false),
        CTLFormula::Atom(atom) => model.state_has(state, atom),
        CTLFormula::And(f1, f2) => {
            let b1 = verify(model, state, &**f1)?;
            if !b1 {
                Ok(false)
            } else {
                verify(model, state, &**f2)
            }
        },
        CTLFormula::Or(f1, f2) => {
            let b1 = verify(model, state, &**f1)?;
            if b1 {
                Ok(true)
            } else {
                verify(model, state, &**f2)
            }
        },
        CTLFormula::Not(f1) => {
            let b1 = verify(model, state, &**f1)?;
            Ok(!b1)
        },
        CTLFormula::Imply(f1, f2) => {
            let b1 = verify(model, state, &**f1)?;
            if !b1 {
                Ok(true)
            } else {
                verify(model, state, &**f2)
            }
        },
        CTLFormula::AG(f1) => check_all_paths_global(model, state, &**f1),
        CTLFormula::AF(f1) => check_all_future(model, state, &**f1),
        CTLFormula::AX(f1) => check_all_nexts(model, state, &**f1),
        CTLFormula::AU(f1, f2) => check_all_until(model, state, &**f1, &**f2),
        CTLFormula::EG(f1) => check_any_path_global(model, state, &**f1),
        CTLFormula::EF(f1) => check_any_future(model, state, &**f1),
        CTLFormula::EX(f1) => check_any_next(model, state, &**f1),
        CTLFormula::EU(f1, f2) => check_any_until(model, state, &**f1, &**f2),
    }
}


} // verus!
