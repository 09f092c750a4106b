use alethe_checker::ast::{Proof, ProofCommand, ProofStep};
use alethe_checker::checker::{eq_congruent, or, resolution, ProofChecker};
use alethe_checker::terms::{Operator, Term};

fn var(n: u64) -> Term {
    Term::Var(n)
}

fn op(o: Operator, args: Vec<Term>) -> Term {
    Term::Op(o, args)
}

fn not(t: Term) -> Term {
    op(Operator::Not, vec![t])
}

fn eq(a: Term, b: Term) -> Term {
    op(Operator::Equals, vec![a, b])
}

fn app(f: u64, args: Vec<Term>) -> Term {
    Term::App(f, args)
}

fn hypothesis(id: &str, term: Term) -> ProofCommand {
    ProofCommand::Assume { id: String::from(id), term }
}

fn step(id: &str, clause: Vec<Term>, rule: &str, premises: Vec<(usize, usize)>) -> ProofCommand {
    ProofCommand::Step(ProofStep {
        id: String::from(id),
        clause,
        rule: String::from(rule),
        premises,
        args: Vec::new(),
        discharge: Vec::new(),
    })
}

#[test]
fn or_unfolds_a_disjunction() {
    let premise = hypothesis("h1", op(Operator::Or, vec![var(0), var(1), var(2)]));
    let clause = vec![var(0), var(1), var(2)];
    assert!(or(&clause, vec![&premise]));

    let wrong = vec![var(0), var(2), var(1)];
    assert!(!or(&wrong, vec![&premise]));

    let not_or = hypothesis("h2", var(0));
    assert!(!or(&clause, vec![&not_or]));
}

#[test]
fn eq_congruent_checks_applications() {
    // (cl (not (= a b)) (not (= c d)) (= (f a c) (f b d)))
    let clause = vec![
        not(eq(var(0), var(1))),
        not(eq(var(2), var(3))),
        eq(app(9, vec![var(0), var(2)]), app(9, vec![var(1), var(3)])),
    ];
    assert!(eq_congruent(&clause));

    // Swapped argument order in the second application.
    let bad = vec![
        not(eq(var(0), var(1))),
        not(eq(var(2), var(3))),
        eq(app(9, vec![var(0), var(2)]), app(9, vec![var(3), var(1)])),
    ];
    assert!(!eq_congruent(&bad));

    // Different heads.
    let bad = vec![
        not(eq(var(0), var(1))),
        eq(app(9, vec![var(0)]), app(8, vec![var(1)])),
    ];
    assert!(!eq_congruent(&bad));
}

#[test]
fn resolution_resolves_one_pivot() {
    // From (cl p q) and (cl (not p)) derive (cl q).
    let p1 = step("t1", vec![var(0), var(1)], "hold", vec![]);
    let p2 = step("t2", vec![not(var(0))], "hold", vec![]);
    let clause = vec![var(1)];
    assert!(resolution(&clause, vec![&p1, &p2]));

    // The pivot may not stay in the clause.
    let bad = vec![var(0), var(1)];
    assert!(!resolution(&bad, vec![&p1, &p2]));

    // Dropping a surviving term is just as wrong.
    let bad: Vec<Term> = vec![];
    assert!(!resolution(&bad, vec![&p1, &p2]));
}

#[test]
fn resolution_is_insensitive_to_premise_order() {
    let p1 = step("t1", vec![var(0), var(1)], "hold", vec![]);
    let p2 = step("t2", vec![not(var(0)), var(2)], "hold", vec![]);
    let p3 = hypothesis("h1", not(var(1)));
    let clause = vec![var(2)];
    assert!(resolution(&clause, vec![&p1, &p2, &p3]));
    assert!(resolution(&clause, vec![&p3, &p1, &p2]));
    assert!(resolution(&clause, vec![&p2, &p3, &p1]));
}

#[test]
fn check_walks_a_whole_proof() {
    // h1: (or p q); t1 unfolds it; t2 resolves with h2: (not p).
    let commands = vec![
        hypothesis("h1", op(Operator::Or, vec![var(0), var(1)])),
        hypothesis("h2", not(var(0))),
        step("t1", vec![var(0), var(1)], "or", vec![(0, 0)]),
        step("t2", vec![var(1)], "resolution", vec![(0, 2), (0, 1)]),
    ];
    let checker = ProofChecker::new(Proof { commands });
    assert!(checker.check());
}

#[test]
fn check_rejects_a_bad_step() {
    let commands = vec![
        hypothesis("h1", op(Operator::Or, vec![var(0), var(1)])),
        step("t1", vec![var(1), var(0)], "or", vec![(0, 0)]),
    ];
    let checker = ProofChecker::new(Proof { commands });
    assert!(!checker.check());
}

#[test]
fn check_step_at_times_single_commands() {
    let commands = vec![
        hypothesis("h1", op(Operator::Or, vec![var(0), var(1)])),
        step("t1", vec![var(0), var(1)], "or", vec![(0, 0)]),
        step("t2", vec![var(1), var(0)], "or", vec![(0, 0)]),
    ];
    let checker = ProofChecker::new(Proof { commands });
    assert!(checker.check_step_at(0));
    assert!(checker.check_step_at(1));
    assert!(!checker.check_step_at(2));
}

#[test]
fn check_rejects_unknown_rules_and_bad_references() {
    let commands = vec![step("t1", vec![var(0)], "no_such_rule", vec![])];
    let checker = ProofChecker::new(Proof { commands });
    assert!(!checker.check());

    let commands = vec![step("t1", vec![var(0)], "or", vec![(0, 7)])];
    let checker = ProofChecker::new(Proof { commands });
    assert!(!checker.check());
}
