use std::collections::HashMap;

use ceetle::verify;
use ceetle::CTLFormula;
use ceetle::DiscreteModel;
use ceetle::HashedDiscreteModel;
use ceetle::Model;
use ceetle::StateNotFound;

type F = CTLFormula<&'static str>;

fn tt() -> F {
    CTLFormula::True
}

fn atom(a: &'static str) -> F {
    CTLFormula::Atom(a)
}

fn not(f: F) -> F {
    CTLFormula::Not(Box::new(f))
}

fn and(f: F, g: F) -> F {
    CTLFormula::And(Box::new(f), Box::new(g))
}

fn or(f: F, g: F) -> F {
    CTLFormula::Or(Box::new(f), Box::new(g))
}

fn imply(f: F, g: F) -> F {
    CTLFormula::Imply(Box::new(f), Box::new(g))
}

fn ax(f: F) -> F {
    CTLFormula::AX(Box::new(f))
}

fn ex(f: F) -> F {
    CTLFormula::EX(Box::new(f))
}

fn ag(f: F) -> F {
    CTLFormula::AG(Box::new(f))
}

fn eg(f: F) -> F {
    CTLFormula::EG(Box::new(f))
}

fn af(f: F) -> F {
    CTLFormula::AF(Box::new(f))
}

fn ef(f: F) -> F {
    CTLFormula::EF(Box::new(f))
}

fn au(f: F, g: F) -> F {
    CTLFormula::AU(Box::new(f), Box::new(g))
}

fn eu(f: F, g: F) -> F {
    CTLFormula::EU(Box::new(f), Box::new(g))
}

fn four_state_model() -> DiscreteModel<&'static str, &'static str> {
    DiscreteModel::new(vec![
        ("s0", vec![], vec!["s1", "s2"]),
        ("s1", vec!["p"], vec!["s1", "s2", "s3"]),
        ("s2", vec!["q"], vec!["s1"]),
        ("s3", vec!["p", "q"], vec!["s0"]),
    ])
}

fn global_model() -> DiscreteModel<&'static str, &'static str> {
    DiscreteModel::new(vec![
        ("s0", vec!["p"], vec!["s1"]),
        ("s1", vec!["p"], vec!["s2", "s3"]),
        ("s2", vec![], vec!["s0", "s3"]),
        ("s3", vec!["p", "q"], vec!["s3"]),
    ])
}

#[test]
fn create_and_check_discrete_model() {
    let model = DiscreteModel::new(vec![
        ("s0", vec!["a"], vec!["s0", "s1"]),
        ("s1", vec!["a", "b"], vec!["s0", "s2"]),
        ("s2", vec!["a"], vec!["s3"]),
        ("s3", vec!["a", "c"], vec!["s1", "s3"]),
    ]);

    assert!(model.state_has(&"s0", &"a").unwrap());
    assert!(!model.state_has(&"s3", &"b").unwrap());
    assert_eq!(*model.transitions(&"s1").unwrap(), vec!["s0", "s2"]);
}

#[test]
fn create_and_check_hashed_discrete_model() {
    let mut states = HashMap::new();
    states.insert("s0", (vec!["a"], vec!["s0", "s1"]));
    states.insert("s1", (vec!["a", "b"], vec!["s0", "s2"]));
    states.insert("s2", (vec!["a"], vec!["s3"]));
    states.insert("s3", (vec!["a", "c"], vec!["s1", "s3"]));

    let model = HashedDiscreteModel::new(states);
    assert!(model.state_has(&"s0", &"a").unwrap());
    assert!(!model.state_has(&"s3", &"b").unwrap());
    assert_eq!(*model.transitions(&"s1").unwrap(), vec!["s0", "s2"]);
}

#[test]
fn lib_create_and_check_discrete_model() {
    let model = DiscreteModel::new(vec![
        ("s0", vec!["a"], vec!["s0", "s1"]),
        ("s1", vec!["a", "b"], vec!["s0", "s2"]),
        ("s2", vec!["a"], vec!["s3"]),
        ("s3", vec!["a", "c"], vec!["s1", "s3"]),
    ]);

    assert!(model.state_has(&"s0", &"a").unwrap());
    assert!(!model.state_has(&"s3", &"b").unwrap());
    assert_eq!(*model.transitions(&"s1").unwrap(), vec!["s0", "s2"]);
}

#[test]
fn lib_create_and_check_hashed_discrete_model() {
    let mut states = HashMap::new();
    states.insert("s0", (vec!["a"], vec!["s0", "s1"]));
    states.insert("s1", (vec!["a", "b"], vec!["s0", "s2"]));
    states.insert("s2", (vec!["a"], vec!["s3"]));
    states.insert("s3", (vec!["a", "c"], vec!["s1", "s3"]));

    let model = HashedDiscreteModel::new(states);
    assert!(model.state_has(&"s0", &"a").unwrap());
    assert!(!model.state_has(&"s3", &"b").unwrap());
    assert_eq!(*model.transitions(&"s1").unwrap(), vec!["s0", "s2"]);
}

#[test]
fn check_ex() {
    let model = four_state_model();

    assert!(verify(&model, &"s0", &ex(atom("p"))).unwrap());
    assert!(!verify(&model, &"s0", &ex(and(atom("p"), atom("q")))).unwrap());
    assert!(verify(&model, &"s0", &ex(ex(and(atom("p"), atom("q"))))).unwrap());
}

#[test]
fn check_ax() {
    let model = four_state_model();

    assert!(verify(&model, &"s0", &ax(or(atom("p"), atom("q")))).unwrap());
    assert!(!verify(&model, &"s0", &ax(ax(ax(or(atom("p"), atom("q")))))).unwrap());
    assert!(verify(&model, &"s0", &ax(imply(atom("p"), not(atom("q"))))).unwrap());
}

#[test]
fn check_eg() {
    let model = global_model();

    assert!(verify(&model, &"s0", &eg(atom("p"))).unwrap());
    assert!(verify(&model, &"s0", &eg(not(atom("q")))).unwrap());
    assert!(!verify(&model, &"s0", &eg(and(atom("p"), atom("q")))).unwrap());
}

#[test]
fn check_ag() {
    let model = global_model();

    assert!(!verify(&model, &"s0", &ag(atom("p"))).unwrap());
    assert!(verify(&model, &"s0", &ag(imply(atom("q"), atom("p")))).unwrap());
    assert!(verify(&model, &"s0", &ag(ex(atom("p")))).unwrap());
}

#[test]
fn check_ef() {
    let model = DiscreteModel::new(vec![
        ("s0", vec!["p"], vec!["s1"]),
        ("s1", vec!["q"], vec!["s0", "s3"]),
        ("s2", vec!["p", "r"], vec!["s3"]),
        ("s3", vec!["q", "r"], vec!["s2"]),
    ]);

    assert!(verify(&model, &"s0", &ef(ag(atom("r")))).unwrap());
    assert!(verify(&model, &"s0", &ef(ax(atom("r")))).unwrap());
    assert!(!verify(&model, &"s0", &ef(and(atom("p"), atom("q")))).unwrap());
}

#[test]
fn check_af() {
    let model = DiscreteModel::new(vec![
        ("s0", vec!["p"], vec!["s1"]),
        ("s1", vec!["p"], vec!["s0", "s3"]),
        ("s2", vec!["p", "r"], vec!["s3"]),
        ("s3", vec!["q", "r"], vec!["s2"]),
    ]);

    assert!(!verify(&model, &"s0", &af(atom("r"))).unwrap());
    assert!(verify(&model, &"s0", &af(or(eg(atom("p")), eg(atom("r"))))).unwrap());
    assert!(verify(&model, &"s0", &af(imply(atom("r"), or(atom("p"), atom("q"))))).unwrap());
}

#[test]
fn check_eu() {
    let model = DiscreteModel::new(vec![
        ("s0", vec!["p", "r"], vec!["s1", "s2"]),
        ("s1", vec![], vec!["s3"]),
        ("s2", vec!["p"], vec!["s2", "s3"]),
        ("s3", vec!["p", "q"], vec!["s0"]),
    ]);

    assert!(verify(&model, &"s0", &eu(atom("p"), atom("q"))).unwrap());
    assert!(verify(&model, &"s0", &eu(atom("p"), eg(atom("p")))).unwrap());
    assert!(!verify(&model, &"s0", &eu(and(atom("p"), atom("r")), atom("q"))).unwrap());
}

#[test]
fn check_au() {
    let model = DiscreteModel::new(vec![
        ("s0", vec!["p"], vec!["s1"]),
        ("s1", vec!["p", "r"], vec!["s2"]),
        ("s2", vec!["q"], vec!["s2", "s3"]),
        ("s3", vec!["p", "q", "r"], vec!["s1"]),
    ]);

    assert!(verify(&model, &"s0", &au(atom("p"), atom("q"))).unwrap());
    assert!(verify(&model, &"s0", &au(atom("p"), ag(or(atom("r"), atom("q"))))).unwrap());
    // every run from s0 satisfies `p` until it hits `r` at s1, so the
    // universal until holds: a branch closes as soon as its right side
    // becomes true.
    assert!(verify(&model, &"s0", &au(atom("p"), atom("r"))).unwrap());
}

#[test]
fn readme_test() {
    let model = HashedDiscreteModel::new(HashMap::from_iter(vec![
        ("s0", (vec!["p", "q"], vec!["s1"])),
        ("s1", (vec!["p"], vec!["s0", "s3"])),
        ("s2", (vec!["p", "q"], vec!["s2"])),
        ("s3", (vec!["p", "r", "s"], vec!["s2"])),
    ]));

    assert!(verify(&model, &"s0", &ag(atom("p"))).unwrap());
    assert!(verify(&model, &"s0", &ef(ag(and(atom("p"), atom("q"))))).unwrap());
}

#[test]
fn lib_check_ex() {
    let model = four_state_model();

    assert!(verify(&model, &"s0", &ex(atom("p"))).unwrap());
    assert!(!verify(&model, &"s0", &ex(and(atom("p"), atom("q")))).unwrap());
    assert!(verify(&model, &"s0", &ex(ex(and(atom("p"), atom("q"))))).unwrap());
}

#[test]
fn lib_check_ax() {
    let model = four_state_model();

    assert!(verify(&model, &"s0", &ax(or(atom("p"), atom("q")))).unwrap());
    assert!(!verify(&model, &"s0", &ax(ax(ax(or(atom("p"), atom("q")))))).unwrap());
    assert!(verify(&model, &"s0", &ax(imply(atom("p"), not(atom("q"))))).unwrap());
}

#[test]
fn lib_check_eg() {
    let model = global_model();

    assert!(verify(&model, &"s0", &eg(atom("p"))).unwrap());
    assert!(verify(&model, &"s0", &eg(not(atom("q")))).unwrap());
    assert!(!verify(&model, &"s0", &eg(and(atom("p"), atom("q")))).unwrap());
}

#[test]
fn lib_check_ag() {
    let model = global_model();

    assert!(!verify(&model, &"s0", &ag(atom("p"))).unwrap());
    assert!(verify(&model, &"s0", &ag(imply(atom("q"), atom("p")))).unwrap());
    assert!(verify(&model, &"s0", &ag(ex(atom("p")))).unwrap());
}

#[test]
fn lib_check_ef() {
    let model = DiscreteModel::new(vec![
        ("s0", vec!["p"], vec!["s1"]),
        ("s1", vec!["q"], vec!["s0", "s3"]),
        ("s2", vec!["p", "r"], vec!["s3"]),
        ("s3", vec!["q", "r"], vec!["s2"]),
    ]);

    assert!(verify(&model, &"s0", &ef(ag(atom("r")))).unwrap());
    assert!(verify(&model, &"s0", &ef(ax(atom("r")))).unwrap());
    assert!(!verify(&model, &"s0", &ef(and(atom("p"), atom("q")))).unwrap());
}

#[test]
fn lib_check_af() {
    let model = DiscreteModel::new(vec![
        ("s0", vec!["p"], vec!["s1"]),
        ("s1", vec!["p"], vec!["s0", "s3"]),
        ("s2", vec!["p", "r"], vec!["s3"]),
        ("s3", vec!["q", "r"], vec!["s2"]),
    ]);

    assert!(!verify(&model, &"s0", &af(atom("r"))).unwrap());
    assert!(verify(&model, &"s0", &af(or(eg(atom("p")), eg(atom("r"))))).unwrap());
    assert!(verify(&model, &"s0", &af(imply(atom("r"), or(atom("p"), atom("q"))))).unwrap());
}

#[test]
fn lib_check_eu() {
    let model = DiscreteModel::new(vec![
        ("s0", vec!["p", "r"], vec!["s1", "s2"]),
        ("s1", vec![], vec!["s3"]),
        ("s2", vec!["p"], vec!["s2", "s3"]),
        ("s3", vec!["p", "q"], vec!["s0"]),
    ]);

    assert!(verify(&model, &"s0", &eu(atom("p"), atom("q"))).unwrap());
    assert!(verify(&model, &"s0", &eu(atom("p"), eg(atom("p")))).unwrap());
    assert!(!verify(&model, &"s0", &eu(and(atom("p"), atom("r")), atom("q"))).unwrap());
}

#[test]
fn lib_check_au() {
    let model = DiscreteModel::new(vec![
        ("s0", vec!["p"], vec!["s1"]),
        ("s1", vec!["p", "r"], vec!["s2"]),
        ("s2", vec!["q"], vec!["s2", "s3"]),
        ("s3", vec!["p", "q", "r"], vec!["s1"]),
    ]);

    assert!(verify(&model, &"s0", &au(atom("p"), atom("q"))).unwrap());
    assert!(verify(&model, &"s0", &au(atom("p"), ag(or(atom("r"), atom("q"))))).unwrap());
    // see check_au: the right side `r` already holds at s1, which closes
    // the only branch out of s0.
    assert!(verify(&model, &"s0", &au(atom("p"), atom("r"))).unwrap());
}

#[test]
fn backend_equivalence_scenario() {
    let rows = || {
        vec![
            ("s0", vec!["p"], vec!["s1"]),
            ("s1", vec!["p"], vec!["s2", "s3"]),
            ("s2", vec![], vec!["s0", "s3"]),
            ("s3", vec!["p", "q"], vec!["s3"]),
        ]
    };
    let linear = DiscreteModel::new(rows());
    let mut keyed_rows = HashMap::new();
    for (s, atoms, nexts) in rows() {
        keyed_rows.insert(s, (atoms, nexts));
    }
    let keyed = HashedDiscreteModel::new(keyed_rows);

    let formulas = vec![
        eg(atom("p")),
        ag(atom("p")),
        af(atom("q")),
        ef(and(atom("p"), atom("q"))),
        au(atom("p"), atom("q")),
        eu(atom("p"), atom("q")),
        ax(or(atom("p"), atom("q"))),
        ex(not(atom("p"))),
    ];
    for f in &formulas {
        for s in ["s0", "s1", "s2", "s3"] {
            assert_eq!(verify(&linear, &s, f).unwrap(), verify(&keyed, &s, f).unwrap());
        }
    }
}

#[test]
fn operator_duality_scenario() {
    let model = global_model();
    for s in ["s0", "s1", "s2", "s3"] {
        for a in ["p", "q"] {
            assert_eq!(
                verify(&model, &s, &ax(atom(a))).unwrap(),
                !verify(&model, &s, &ex(not(atom(a)))).unwrap()
            );
            assert_eq!(
                verify(&model, &s, &ag(atom(a))).unwrap(),
                !verify(&model, &s, &ef(not(atom(a)))).unwrap()
            );
            assert_eq!(
                verify(&model, &s, &af(atom(a))).unwrap(),
                !verify(&model, &s, &eg(not(atom(a)))).unwrap()
            );
        }
    }
}

#[test]
fn until_degeneracy_scenario() {
    let model = global_model();
    for s in ["s0", "s1", "s2", "s3"] {
        for a in ["p", "q"] {
            assert_eq!(
                verify(&model, &s, &eu(tt(), atom(a))).unwrap(),
                verify(&model, &s, &ef(atom(a))).unwrap()
            );
            assert_eq!(
                verify(&model, &s, &au(tt(), atom(a))).unwrap(),
                verify(&model, &s, &af(atom(a))).unwrap()
            );
        }
    }
}

#[test]
fn fixed_point_consistency_scenario() {
    let model = global_model();
    for s in ["s0", "s1", "s2", "s3"] {
        for a in ["p", "q"] {
            assert_eq!(
                verify(&model, &s, &eg(atom(a))).unwrap(),
                verify(&model, &s, &and(atom(a), ex(eg(atom(a))))).unwrap()
            );
            assert_eq!(
                verify(&model, &s, &ag(atom(a))).unwrap(),
                verify(&model, &s, &and(atom(a), ax(ag(atom(a))))).unwrap()
            );
        }
    }
}

#[test]
fn order_independence_scenario() {
    let straight = DiscreteModel::new(vec![
        ("s0", vec!["p"], vec!["s1", "s2", "s0"]),
        ("s1", vec!["p"], vec!["s2", "s3"]),
        ("s2", vec![], vec!["s0", "s3"]),
        ("s3", vec!["p", "q"], vec!["s3", "s1"]),
    ]);
    let shuffled = DiscreteModel::new(vec![
        ("s0", vec!["p"], vec!["s0", "s2", "s1"]),
        ("s1", vec!["p"], vec!["s3", "s2"]),
        ("s2", vec![], vec!["s3", "s0"]),
        ("s3", vec!["p", "q"], vec!["s1", "s3"]),
    ]);

    let formulas = vec![
        eg(atom("p")),
        ag(atom("p")),
        af(atom("q")),
        ef(and(atom("p"), atom("q"))),
        au(atom("p"), atom("q")),
        eu(atom("p"), atom("q")),
        ax(or(atom("p"), atom("q"))),
        ex(not(atom("p"))),
    ];
    for f in &formulas {
        for s in ["s0", "s1", "s2", "s3"] {
            assert_eq!(verify(&straight, &s, f).unwrap(), verify(&shuffled, &s, f).unwrap());
        }
    }
}

#[test]
fn deadlock_state_is_terminal_not_an_error() {
    let model = DiscreteModel::new(vec![
        ("s0", vec![], vec!["s1"]),
        ("s1", vec!["p"], vec![]),
    ]);

    assert_eq!(*model.transitions(&"s1").unwrap(), Vec::<&str>::new());
    // a state without successors satisfies every AX and no EX
    assert!(verify(&model, &"s1", &ax(atom("q"))).unwrap());
    assert!(!verify(&model, &"s1", &ex(tt())).unwrap());
    // no infinite run leaves a deadlock state, so EG fails there even when
    // the formula holds, and AF holds vacuously for any formula
    assert!(!verify(&model, &"s1", &eg(atom("p"))).unwrap());
    assert!(!verify(&model, &"s1", &eg(tt())).unwrap());
    assert!(verify(&model, &"s0", &af(atom("q"))).unwrap());
    // reachability still sees the deadlock state
    assert!(verify(&model, &"s0", &ef(atom("p"))).unwrap());
    assert!(verify(&model, &"s0", &ag(imply(atom("p"), ax(atom("q"))))).unwrap());
}

#[test]
fn au_fails_on_a_left_only_cycle() {
    // the loop s0 -> s1 -> s0 keeps `p` true and never reaches `q`
    let model = DiscreteModel::new(vec![
        ("s0", vec!["p"], vec!["s1"]),
        ("s1", vec!["p"], vec!["s0", "s2"]),
        ("s2", vec!["q"], vec!["s2"]),
    ]);

    assert!(!verify(&model, &"s0", &au(atom("p"), atom("q"))).unwrap());
    assert!(verify(&model, &"s0", &eu(atom("p"), atom("q"))).unwrap());
}

#[test]
fn au_fails_on_a_broken_branch() {
    // s2 satisfies neither side, so the branch through it breaks the until
    let model = DiscreteModel::new(vec![
        ("s0", vec!["p"], vec!["s1", "s2"]),
        ("s1", vec!["q"], vec!["s1"]),
        ("s2", vec![], vec!["s1"]),
    ]);

    assert!(!verify(&model, &"s0", &au(atom("p"), atom("q"))).unwrap());
    assert!(verify(&model, &"s0", &eu(atom("p"), atom("q"))).unwrap());
}

#[test]
fn eg_needs_a_cycle_not_just_a_revisit() {
    // diamond into a deadlock: s3 is reached twice, but no run is infinite
    let model = DiscreteModel::new(vec![
        ("s0", vec!["p"], vec!["s1", "s2"]),
        ("s1", vec!["p"], vec!["s3"]),
        ("s2", vec!["p"], vec!["s3"]),
        ("s3", vec!["p"], vec![]),
    ]);

    assert!(!verify(&model, &"s0", &eg(atom("p"))).unwrap());
    assert!(verify(&model, &"s0", &ag(atom("p"))).unwrap());
}

#[test]
fn dangling_successor_reports_state_not_found() {
    let model = DiscreteModel::new(vec![
        ("s0", vec!["p"], vec!["s1"]),
        ("s1", vec!["p"], vec!["missing"]),
    ]);

    assert_eq!(verify(&model, &"s0", &ef(atom("q"))), Err(StateNotFound));
    assert_eq!(verify(&model, &"s0", &ag(atom("p"))), Err(StateNotFound));
    assert_eq!(verify(&model, &"missing", &atom("p")), Err(StateNotFound));
    assert_eq!(model.state_has(&"missing", &"p"), Err(StateNotFound));
    assert!(model.transitions(&"missing").is_err());
}

#[test]
fn duplicate_rows_first_one_wins() {
    let model = DiscreteModel::new(vec![
        ("s0", vec!["p"], vec!["s0"]),
        ("s0", vec!["q"], vec!["s0"]),
    ]);

    assert!(model.state_has(&"s0", &"p").unwrap());
    assert!(!model.state_has(&"s0", &"q").unwrap());
    assert!(verify(&model, &"s0", &ag(atom("p"))).unwrap());
}

#[test]
fn integer_states_work_like_any_other() {
    let model: DiscreteModel<u64, u64> = DiscreteModel::new(vec![
        (0, vec![10], vec![1]),
        (1, vec![10, 20], vec![0]),
    ]);

    assert!(verify(&model, &0, &CTLFormula::AG(Box::new(CTLFormula::Atom(10)))).unwrap());
    assert!(verify(&model, &0, &CTLFormula::EF(Box::new(CTLFormula::Atom(20)))).unwrap());
    assert!(!verify(&model, &1, &CTLFormula::AX(Box::new(CTLFormula::Atom(20)))).unwrap());
}

#[test]
fn boolean_connectives_have_exact_values() {
    let model = DiscreteModel::new(vec![("s0", vec!["p"], vec!["s0"])]);

    assert!(verify(&model, &"s0", &tt()).unwrap());
    assert!(!verify(&model, &"s0", &CTLFormula::False).unwrap());
    assert!(verify(&model, &"s0", &atom("p")).unwrap());
    assert!(!verify(&model, &"s0", &atom("q")).unwrap());
    assert!(!verify(&model, &"s0", &and(atom("p"), atom("q"))).unwrap());
    assert!(verify(&model, &"s0", &or(atom("q"), atom("p"))).unwrap());
    assert!(verify(&model, &"s0", &imply(atom("q"), atom("p"))).unwrap());
    assert!(!verify(&model, &"s0", &imply(atom("p"), atom("q"))).unwrap());
    assert!(verify(&model, &"s0", &not(atom("q"))).unwrap());
}

#[test]
fn af_true_when_every_run_is_forced_through_the_atom() {
    let forced = DiscreteModel::new(vec![
        ("s0", vec![], vec!["s1", "s2"]),
        ("s1", vec!["r"], vec!["s0"]),
        ("s2", vec!["r"], vec!["s2"]),
    ]);
    assert!(verify(&forced, &"s0", &af(atom("r"))).unwrap());

    // with a way to loop at s0 without touching `r`, the guarantee is gone
    let escapable = DiscreteModel::new(vec![
        ("s0", vec![], vec!["s0", "s1", "s2"]),
        ("s1", vec!["r"], vec!["s0"]),
        ("s2", vec!["r"], vec!["s2"]),
    ]);
    assert!(!verify(&escapable, &"s0", &af(atom("r"))).unwrap());
}
