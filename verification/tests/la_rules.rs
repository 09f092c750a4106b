use alethe_checker::ast::ProofArg;
use alethe_checker::error::{CheckerError, LinearArithmeticError};
use alethe_checker::linear_arithmetic as la;
use alethe_checker::rational::Rational;
use alethe_checker::terms::{Operator, Term};

fn var(n: u64) -> Term {
    Term::Var(n)
}

fn intlit(n: i64) -> Term {
    Term::Int(n)
}

fn rat(num: i64, den: i64) -> Term {
    Term::Rat(Rational { num, den })
}

fn op(o: Operator, args: Vec<Term>) -> Term {
    Term::Op(o, args)
}

fn not(t: Term) -> Term {
    op(Operator::Not, vec![t])
}

fn le(a: Term, b: Term) -> Term {
    op(Operator::LessEq, vec![a, b])
}

fn lt(a: Term, b: Term) -> Term {
    op(Operator::LessThan, vec![a, b])
}

fn ge(a: Term, b: Term) -> Term {
    op(Operator::GreaterEq, vec![a, b])
}

fn gt(a: Term, b: Term) -> Term {
    op(Operator::GreaterThan, vec![a, b])
}

fn eq(a: Term, b: Term) -> Term {
    op(Operator::Equals, vec![a, b])
}

fn and(a: Term, b: Term) -> Term {
    op(Operator::And, vec![a, b])
}

fn or3(a: Term, b: Term, c: Term) -> Term {
    op(Operator::Or, vec![a, b, c])
}

fn or2(a: Term, b: Term) -> Term {
    op(Operator::Or, vec![a, b])
}

fn add2(a: Term, b: Term) -> Term {
    op(Operator::Add, vec![a, b])
}

fn sub2(a: Term, b: Term) -> Term {
    op(Operator::Sub, vec![a, b])
}

fn neg1(a: Term) -> Term {
    op(Operator::Sub, vec![a])
}

fn mul2(a: Term, b: Term) -> Term {
    op(Operator::Mult, vec![a, b])
}

fn args(values: Vec<Term>) -> Vec<ProofArg> {
    values.into_iter().map(ProofArg::Term).collect()
}

#[test]
fn la_rw_eq() {
    // (declare-fun a () Int) (declare-fun b () Int)
    // (declare-fun x () Real) (declare-fun y () Real)
    let (a, b, x, y) = (0u64, 1u64, 2u64, 3u64);

    // Simple working examples
    // (step t1 (cl (= (= a b) (and (<= a b) (<= b a)))) :rule la_rw_eq)
    let c = vec![eq(
        eq(var(a), var(b)),
        and(le(var(a), var(b)), le(var(b), var(a))),
    )];
    assert!(la::la_rw_eq(&c).is_ok());
    // (step t1 (cl (= (= x y) (and (<= x y) (<= y x)))) :rule la_rw_eq)
    let c = vec![eq(
        eq(var(x), var(y)),
        and(le(var(x), var(y)), le(var(y), var(x))),
    )];
    assert!(la::la_rw_eq(&c).is_ok());

    // Clause term is not of the correct form
    // (step t1 (cl (= (= b a) (and (<= a b) (<= b a)))) :rule la_rw_eq)
    let c = vec![eq(
        eq(var(b), var(a)),
        and(le(var(a), var(b)), le(var(b), var(a))),
    )];
    assert!(la::la_rw_eq(&c).is_err());
    // (step t1 (cl (= (= x y) (and (<= x y) (<= x y)))) :rule la_rw_eq)
    let c = vec![eq(
        eq(var(x), var(y)),
        and(le(var(x), var(y)), le(var(x), var(y))),
    )];
    assert!(la::la_rw_eq(&c).is_err());
}

#[test]
fn la_generic() {
    // (declare-fun a () Real) (declare-fun b () Real) (declare-fun c () Real)
    // (declare-fun m () Int) (declare-fun n () Int)
    let (a, b, c, m, n) = (0u64, 1u64, 2u64, 3u64, 4u64);
    let one = || rat(1, 1);
    let minus_one = || rat(-1, 1);
    let zero = || rat(0, 1);

    // Simple working examples
    // (step t1 (cl (> a 0.0) (<= a 0.0)) :rule la_generic :args (1.0 1.0))
    let cl = vec![gt(var(a), zero()), le(var(a), zero())];
    assert!(la::la_generic(&cl, &args(vec![one(), one()])).is_ok());
    // (step t1 (cl (>= a 0.0) (< a 0.0)) :rule la_generic :args (1.0 1.0))
    let cl = vec![ge(var(a), zero()), lt(var(a), zero())];
    assert!(la::la_generic(&cl, &args(vec![one(), one()])).is_ok());
    // (step t1 (cl (<= 0.0 0.0)) :rule la_generic :args (1.0))
    let cl = vec![le(zero(), zero())];
    assert!(la::la_generic(&cl, &args(vec![one()])).is_ok());
    // (step t1 (cl (< (+ a b) 1.0) (> (+ a b) 0.0)) :rule la_generic :args (1.0 (- 1.0)))
    let cl = vec![
        lt(add2(var(a), var(b)), one()),
        gt(add2(var(a), var(b)), zero()),
    ];
    assert!(la::la_generic(&cl, &args(vec![one(), minus_one()])).is_ok());
    // (step t1 (cl (<= (+ a (- b a)) b)) :rule la_generic :args (1.0))
    let cl = vec![le(add2(var(a), sub2(var(b), var(a))), var(b))];
    assert!(la::la_generic(&cl, &args(vec![one()])).is_ok());
    // (step t1 (cl (not (<= (- a b) (- c 1.0))) (<= (+ 1.0 (- a c)) b))
    //     :rule la_generic :args (1.0 1.0))
    let cl = vec![
        not(le(sub2(var(a), var(b)), sub2(var(c), one()))),
        le(add2(one(), sub2(var(a), var(c))), var(b)),
    ];
    assert!(la::la_generic(&cl, &args(vec![one(), one()])).is_ok());

    // Empty clause: the empty sum is 0 = 0, which is no contradiction.
    let cl: Vec<Term> = vec![];
    assert!(matches!(
        la::la_generic(&cl, &args(vec![])),
        Err(CheckerError::LinearArithmetic(
            LinearArithmeticError::DisequalityIsNotContradiction(Operator::Equals, c)
        )) if c.num == 0
    ));

    // Wrong number of arguments
    let cl = vec![ge(var(a), zero()), lt(var(a), zero())];
    assert!(la::la_generic(&cl, &args(vec![one(), one(), one()])).is_err());

    // Invalid argument term: the error carries the bad argument itself.
    let cl = vec![ge(var(a), zero()), lt(var(a), zero())];
    assert!(matches!(
        la::la_generic(&cl, &args(vec![one(), var(b)])),
        Err(CheckerError::ExpectedAnyNumber(t)) if t.term_eq(&var(b))
    ));

    // Clause term is not of the correct form
    // (step t1 (cl (ite (= a b) false true)) :rule la_generic :args (1.0))
    let cl = vec![op(
        Operator::Ite,
        vec![eq(var(a), var(b)), Term::False, Term::True],
    )];
    assert!(la::la_generic(&cl, &args(vec![one()])).is_err());
    // (step t1 (cl (= a 0.0) (< a 0.0)) :rule la_generic :args (1.0 1.0))
    let cl = vec![eq(var(a), zero()), lt(var(a), zero())];
    assert!(la::la_generic(&cl, &args(vec![one(), one()])).is_err());

    // Negation of disequalities is satisfiable
    // (step t1 (cl (< 0.0 0.0)) :rule la_generic :args (1.0))
    let cl = vec![lt(zero(), zero())];
    assert!(matches!(
        la::la_generic(&cl, &args(vec![one()])),
        Err(CheckerError::LinearArithmetic(
            LinearArithmeticError::DisequalityIsNotContradiction(Operator::GreaterEq, c)
        )) if c.num == 0
    ));
    // (step t1 (cl (< (+ a b) 1.0) (> (+ a b c) 0.0)) :rule la_generic :args (1.0 (- 1.0)))
    let cl = vec![
        lt(add2(var(a), var(b)), one()),
        gt(add2(add2(var(a), var(b)), var(c)), zero()),
    ];
    // The residual c term leaves a non-empty map: no contradiction.
    assert!(matches!(
        la::la_generic(&cl, &args(vec![one(), minus_one()])),
        Err(CheckerError::LinearArithmetic(
            LinearArithmeticError::DisequalityIsNotContradiction(_, _)
        ))
    ));

    // Edge case where the strengthening rules need to be stronger
    // (step t1 (cl (not (<= (- 1) n)) (not (<= (- 1) (+ n m)))
    //     (<= (- 2) (* 2 n)) (not (<= m 1))) :rule la_generic :args (1 1 1 1))
    let cl = vec![
        not(le(neg1(intlit(1)), var(n))),
        not(le(neg1(intlit(1)), add2(var(n), var(m)))),
        le(neg1(intlit(2)), mul2(intlit(2), var(n))),
        not(le(var(m), intlit(1))),
    ];
    let a1 = || intlit(1);
    assert!(la::la_generic(&cl, &args(vec![a1(), a1(), a1(), a1()])).is_ok());
}

#[test]
fn la_disequality() {
    let (a, b, x, y) = (0u64, 1u64, 2u64, 3u64);

    // Simple working examples
    // (step t1 (cl (or (= a b) (not (<= a b)) (not (<= b a)))) :rule la_disequality)
    let c = vec![or3(
        eq(var(a), var(b)),
        not(le(var(a), var(b))),
        not(le(var(b), var(a))),
    )];
    assert!(la::la_disequality(&c).is_ok());
    // (step t1 (cl (or (= x y) (not (<= x y)) (not (<= y x)))) :rule la_disequality)
    let c = vec![or3(
        eq(var(x), var(y)),
        not(le(var(x), var(y))),
        not(le(var(y), var(x))),
    )];
    assert!(la::la_disequality(&c).is_ok());

    // Clause term is not of the correct form
    // (step t1 (cl (or (= b a) (not (<= a b)) (not (<= b a)))) :rule la_disequality)
    let c = vec![or3(
        eq(var(b), var(a)),
        not(le(var(a), var(b))),
        not(le(var(b), var(a))),
    )];
    assert!(la::la_disequality(&c).is_err());
    // (step t1 (cl (or (= x y) (not (<= y x)) (not (<= y x)))) :rule la_disequality)
    let c = vec![or3(
        eq(var(x), var(y)),
        not(le(var(y), var(x))),
        not(le(var(y), var(x))),
    )];
    assert!(la::la_disequality(&c).is_err());
}

#[test]
fn la_tautology() {
    // (declare-fun n () Int) (declare-fun x () Real)
    let (n, x) = (0u64, 1u64);

    // First form
    // (step t1 (cl (<= n (+ 1 n))) :rule la_tautology)
    let c = vec![le(var(n), add2(intlit(1), var(n)))];
    assert!(la::la_tautology(&c).is_ok());
    // (step t1 (cl (< (- n 1) n)) :rule la_tautology)
    let c = vec![lt(sub2(var(n), intlit(1)), var(n))];
    assert!(la::la_tautology(&c).is_ok());
    // (step t1 (cl (not (<= n (- n 1)))) :rule la_tautology)
    let c = vec![not(le(var(n), sub2(var(n), intlit(1))))];
    assert!(la::la_tautology(&c).is_ok());
    // (step t1 (cl (< 0 (- (+ 1 n) n))) :rule la_tautology)
    let c = vec![lt(intlit(0), sub2(add2(intlit(1), var(n)), var(n)))];
    assert!(la::la_tautology(&c).is_ok());
    // (step t1 (cl (not (<= (+ 1 n) (- (+ 1 n) 1)))) :rule la_tautology)
    let c = vec![not(le(
        add2(intlit(1), var(n)),
        sub2(add2(intlit(1), var(n)), intlit(1)),
    ))];
    assert!(la::la_tautology(&c).is_ok());

    // Second form
    // (step t1 (cl (or (not (<= x 5.0)) (<= x 6.0))) :rule la_tautology)
    let c = vec![or2(not(le(var(x), rat(5, 1))), le(var(x), rat(6, 1)))];
    assert!(la::la_tautology(&c).is_ok());
    // (step t1 (cl (or (<= x 6.0) (not (<= x 6.0)))) :rule la_tautology)
    let c = vec![or2(le(var(x), rat(6, 1)), not(le(var(x), rat(6, 1))))];
    assert!(la::la_tautology(&c).is_ok());
    // (step t1 (cl (or (<= x 6.1) (not (<= x 6.0)))) :rule la_tautology)
    let c = vec![or2(le(var(x), rat(61, 10)), not(le(var(x), rat(6, 1))))];
    assert!(matches!(
        la::la_tautology(&c),
        Err(CheckerError::TermsNotEqual(_, _))
    ));
    // (step t1 (cl (or (not (>= x 6.0)) (>= x 5.0))) :rule la_tautology)
    let c = vec![or2(not(ge(var(x), rat(6, 1))), ge(var(x), rat(5, 1)))];
    assert!(la::la_tautology(&c).is_ok());
    // (step t1 (cl (or (>= x 5.0) (not (>= x 5.0)))) :rule la_tautology)
    let c = vec![or2(ge(var(x), rat(5, 1)), not(ge(var(x), rat(5, 1))))];
    assert!(la::la_tautology(&c).is_ok());
    // (step t1 (cl (or (>= x 5.0) (not (>= x 5.1)))) :rule la_tautology)
    let c = vec![or2(ge(var(x), rat(5, 1)), not(ge(var(x), rat(51, 10))))];
    assert!(la::la_tautology(&c).is_err());
    // (step t1 (cl (or (not (<= x 4.0)) (not (>= x 5.0)))) :rule la_tautology)
    let c = vec![or2(not(le(var(x), rat(4, 1))), not(ge(var(x), rat(5, 1))))];
    assert!(la::la_tautology(&c).is_ok());
    // (step t1 (cl (or (not (<= x 5.0)) (not (>= x 5.0)))) :rule la_tautology)
    let c = vec![or2(not(le(var(x), rat(5, 1))), not(ge(var(x), rat(5, 1))))];
    assert!(la::la_tautology(&c).is_err());
}

#[test]
fn la_generic_strict_zero_rejected() {
    // A lone strict bound over zero cannot be contradictory: (> 0.0 0.0)
    // negates to (<= 0 0), which is satisfiable.
    let cl = vec![gt(rat(0, 1), rat(0, 1))];
    assert!(la::la_generic(&cl, &args(vec![rat(1, 1)])).is_err());
}

#[test]
fn la_generic_assign_arg_rejected() {
    let cl = vec![ge(var(0), rat(0, 1))];
    let bad = vec![ProofArg::Assign(String::from("k"), rat(1, 1))];
    assert!(la::la_generic(&cl, &bad).is_err());
}

#[test]
fn la_rw_eq_rejects_wrong_clause_length() {
    let c = vec![var(0), var(1)];
    assert!(la::la_rw_eq(&c).is_err());
    let empty: Vec<Term> = vec![];
    assert!(la::la_rw_eq(&empty).is_err());
}

#[test]
fn la_tautology_rejects_non_numeric_bounds() {
    // Case shapes match but the bounds are not numbers.
    let c = vec![or2(not(le(var(0), var(1))), le(var(0), var(2)))];
    assert!(matches!(
        la::la_tautology(&c),
        Err(CheckerError::ExpectedAnyNumber(t)) if t.term_eq(&var(1))
    ));
}

#[test]
fn la_tautology_pins_the_failed_bound_comparison() {
    // (or (not (<= x 5.0)) (<= x 4.0)): the first shape fits but 5 <= 4
    // fails, and the error carries both bounds.
    let x = 0u64;
    let c = vec![or2(not(le(var(x), rat(5, 1))), le(var(x), rat(4, 1)))];
    assert!(matches!(
        la::la_tautology(&c),
        Err(CheckerError::LinearArithmetic(LinearArithmeticError::ExpectedLessEq(d1, d2)))
            if d1.term_eq(&rat(5, 1)) && d2.term_eq(&rat(4, 1))
    ));
    // A shapeless binary or names the whole conclusion term.
    let c = vec![or2(var(1), var(2))];
    assert!(matches!(
        la::la_tautology(&c),
        Err(CheckerError::LinearArithmetic(LinearArithmeticError::NotValidTautologyCase(t)))
            if t.term_eq(&or2(var(1), var(2)))
    ));
}

#[test]
fn la_generic_mixed_integer_and_rational_bounds() {
    // (cl (not (<= n 1)) (<= n 1)) with integer bounds on each side.
    let cl = vec![not(le(var(0), intlit(1))), le(var(0), intlit(1))];
    assert!(la::la_generic(&cl, &args(vec![intlit(1), intlit(1)])).is_ok());
}

#[test]
fn lia_generic_rule_accepts() {
    let cl = vec![ge(var(0), rat(0, 1))];
    assert!(la::lia_generic(&cl, &args(vec![])).is_ok());
}
