use alethe_checker::ast::{ProofCommand, ProofStep};
use alethe_checker::benchmarking::{
    by_rule, total_checking_time, total_parsing_time, total_time, CheckerRunMeasurement, Metrics,
    StepMeasurement,
};
use alethe_checker::elaborator::Elaborator;
use alethe_checker::lia_generic::{classify_solver_outcome, insert_cvc5_proof, update_premises, LiaGenericError};
use alethe_checker::linear_comb::LinearComb;
use alethe_checker::rational::Rational;
use alethe_checker::terms::{Operator, Term};

fn rat(num: i64, den: i64) -> Rational {
    Rational { num, den }
}

#[test]
fn rational_raw_arithmetic_is_unreduced() {
    let a = rat(1, 2);
    let b = rat(1, 3);
    let s = a.raw_add(b).unwrap();
    assert_eq!((s.num, s.den), (5, 6));
    let p = a.raw_mul(b).unwrap();
    assert_eq!((p.num, p.den), (1, 6));
    // 2/4 + 1/2 keeps the raw denominator 8.
    let s = rat(2, 4).raw_add(rat(1, 2)).unwrap();
    assert_eq!((s.num, s.den), (8, 8));
    assert!(s.is_one());
    assert!(!s.is_integer());
    assert_eq!(rat(-7, 2).floor(), -4);
    assert_eq!(rat(7, 2).floor(), 3);
}

#[test]
fn from_term_flattens_linear_shapes() {
    // 2*x + (y - x) + 3 has coefficients x: 1, y: 1 and constant 3.
    let t = Term::Op(
        Operator::Add,
        vec![
            Term::Op(Operator::Mult, vec![Term::Int(2), Term::Var(0)]),
            Term::Op(Operator::Sub, vec![Term::Var(1), Term::Var(0)]),
            Term::Int(3),
        ],
    );
    let lc = LinearComb::from_term(&t).unwrap();
    assert_eq!(lc.constant.num, 3);
    assert_eq!(lc.constant.den, 1);
    assert_eq!(lc.terms.len(), 2);
    // x's coefficient is 2 - 1 = 1.
    for (key, coeff) in &lc.terms {
        match key {
            Term::Var(0) => assert!(coeff.num == coeff.den),
            Term::Var(1) => assert!(coeff.num == coeff.den),
            _ => panic!("unexpected key"),
        }
    }
}

#[test]
fn from_term_cancels_to_empty() {
    // x - x leaves no keyed term.
    let t = Term::Op(Operator::Sub, vec![Term::Var(0), Term::Var(0)]);
    let lc = LinearComb::from_term(&t).unwrap();
    assert_eq!(lc.terms.len(), 0);
    assert!(lc.constant.is_zero());
}

#[test]
fn coefficients_gcd_reads_integrality_by_divisibility() {
    // The constant is the raw fraction 4/2: an integer in value though not
    // in lowest terms. The divisor of 4/2 and 2 is 2.
    let lc = LinearComb {
        terms: vec![(Term::Var(0), rat(2, 1))],
        constant: rat(4, 2),
    };
    assert_eq!(lc.coefficients_gcd(), Some(2));
    // A genuinely fractional coefficient still yields none.
    let lc = LinearComb {
        terms: vec![(Term::Var(0), rat(3, 2))],
        constant: rat(1, 1),
    };
    assert_eq!(lc.coefficients_gcd(), None);
    // An all-zero combination yields one.
    let lc = LinearComb { terms: vec![], constant: rat(0, 1) };
    assert_eq!(lc.coefficients_gcd(), Some(1));
}

#[test]
fn metrics_summarise_durations() {
    let data: Vec<((), u64)> = vec![((), 10), ((), 20), ((), 30)];
    let m: Metrics<()> = Metrics::new(&data).unwrap();
    assert_eq!(m.total, 60);
    assert_eq!(m.count, 3);
    assert_eq!(m.mean, 20);
    assert_eq!(m.max.1, 30);
    assert_eq!(m.min.1, 10);
    // Variance is (100 + 0 + 100) / 2 = 100, so the deviation is 10.
    assert_eq!(m.standard_deviation, 10);
    let empty: Vec<((), u64)> = Vec::new();
    assert!(Metrics::<()>::new(&empty).is_none());
}

fn run(name: &str, idx: usize, parse: u64, steps: Vec<(&str, &str, u64)>) -> CheckerRunMeasurement {
    CheckerRunMeasurement {
        proof_file_name: String::from(name),
        run_index: idx,
        parsing_time: parse,
        step_measurements: steps
            .into_iter()
            .map(|(s, r, t)| StepMeasurement {
                step_index: String::from(s),
                rule: String::from(r),
                time: t,
            })
            .collect(),
    }
}

#[test]
fn run_summaries_aggregate() {
    let runs = vec![
        run("p1", 0, 5, vec![("t1", "resolution", 7), ("t2", "la_generic", 9)]),
        run("p1", 1, 7, vec![("t1", "resolution", 11)]),
    ];
    let p = total_parsing_time(&runs);
    assert_eq!(p.total, 12);
    assert_eq!(p.count, 2);
    let c = total_checking_time(&runs);
    assert_eq!(c.total, 27);
    let t = total_time(&runs);
    assert_eq!(t.total, 39);
    let groups = by_rule(&runs);
    assert_eq!(groups.len(), 2);
    for (rule, m) in &groups {
        if rule == "resolution" {
            assert_eq!(m.count, 2);
            assert_eq!(m.total, 18);
        } else {
            assert_eq!(rule, "la_generic");
            assert_eq!(m.count, 1);
            assert_eq!(m.total, 9);
        }
    }
}

#[test]
fn elaborator_mints_dotted_ids() {
    let mut e = Elaborator::new();
    let root = String::from("t5");
    assert_eq!(e.get_new_id(&root), "t5.t0");
    assert_eq!(e.get_new_id(&root), "t5.t1");
    for _ in 0..10 {
        e.get_new_id(&root);
    }
    assert_eq!(e.get_new_id(&root), "t5.t12");
}

#[test]
fn update_premises_prefixes_and_shifts() {
    let commands = vec![ProofCommand::Step(ProofStep {
        id: String::from("t3"),
        clause: vec![Term::Var(0)],
        rule: String::from("resolution"),
        premises: vec![(0, 4), (1, 0)],
        args: Vec::new(),
        discharge: Vec::new(),
    })];
    let root = String::from("t9");
    let out = update_premises(commands, 1, 2, &root);
    assert_eq!(out.len(), 1);
    match &out[0] {
        ProofCommand::Step(s) => {
            assert_eq!(s.id, "t9.t3");
            assert_eq!(s.premises, vec![(1, 6), (2, 2)]);
        }
        _ => panic!("expected a step"),
    }
}

#[test]
fn solver_outcomes_classify_per_failure_mode() {
    assert!(matches!(
        classify_solver_outcome(false, Some(1), true, false),
        Err(LiaGenericError::SolverTimeout)
    ));
    assert!(matches!(
        classify_solver_outcome(false, Some(1), false, false),
        Err(LiaGenericError::SolverNonZeroExitCode(Some(1)))
    ));
    assert!(matches!(
        classify_solver_outcome(true, Some(0), false, false),
        Err(LiaGenericError::SolverOutputNotUnsat)
    ));
    assert!(classify_solver_outcome(true, Some(0), false, true).is_ok());
}

#[test]
fn insert_cvc5_proof_splices_a_hole() {
    // The outside proof assumed (not x0) and concluded the empty clause;
    // the original conclusion is the lone term x0.
    let mut e = Elaborator::new();
    let commands = vec![
        ProofCommand::Assume {
            id: String::from("a0"),
            term: Term::Op(Operator::Not, vec![Term::Var(0)]),
        },
        ProofCommand::Step(ProofStep {
            id: String::from("t1"),
            clause: vec![],
            rule: String::from("resolution"),
            premises: vec![(0, 0)],
            args: Vec::new(),
            discharge: Vec::new(),
        }),
    ];
    let conclusion = vec![Term::Var(0)];
    let root = String::from("t7");
    insert_cvc5_proof(&mut e, commands, &conclusion, &root);
    // One sub-proof, one double-negation step, the false step, the
    // resolution step, and the hole.
    assert_eq!(e.top.len(), 5);
    match &e.top[4] {
        ProofCommand::Step(s) => {
            assert_eq!(s.rule, "hole");
            assert_eq!(s.clause.len(), 1);
            assert!(s.clause[0].term_eq(&Term::Var(0)));
            assert_eq!(s.premises, vec![(0, 3)]);
        }
        _ => panic!("expected the hole step"),
    }
    match &e.top[0] {
        ProofCommand::Subproof(sp) => {
            // No assumption was missing, so: the two spliced commands plus
            // the closing step.
            assert_eq!(sp.commands.len(), 3);
        }
        _ => panic!("expected the sub-proof"),
    }
}
