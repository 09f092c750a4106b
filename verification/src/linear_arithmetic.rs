use vstd::prelude::*;

use crate::error::{CheckerError, LinearArithmeticError, RuleResult};
use crate::linear_comb::{
    neg_entries, no_empty_sub, scale_entries, scale_fits, seq_merge, seq_merge_ok, spec_coeffs_gcd,
    spec_from_term, LinearComb,
};
use crate::rational::Rational;
use crate::terms::{
    lemma_terms_view_index, spec_as_fraction, spec_remove_negation, term_view, term_wf, terms_view,
    Operator, Term, TermV,
};

verus! {

broadcast use vstd::std_specs::vec::group_vec_axioms, vstd::seq::group_seq_axioms;

/// A disequality between two sides, kept as the entries and constant of a
/// linear combination each.
pub type LcV = (Seq<(TermV, Rational)>, Rational);

/// The negation of a comparison operator, where one exists.
pub open spec fn spec_negate_op(op: Operator) -> Option<Operator> {
    match op {
        Operator::LessThan => Some(Operator::GreaterEq),
        Operator::GreaterThan => Some(Operator::LessEq),
        Operator::LessEq => Some(Operator::GreaterThan),
        Operator::GreaterEq => Some(Operator::LessThan),
        _ => None,
    }
}

/// The operators a (possibly negated) disequality may carry.
pub open spec fn spec_is_diseq_op(op: Operator) -> bool {
    match op {
        Operator::GreaterEq => true,
        Operator::LessEq => true,
        Operator::GreaterThan => true,
        Operator::LessThan => true,
        Operator::Equals => true,
        _ => false,
    }
}

/// The operator and sides of a disequality after negating it: under one
/// `not` the operator stands as written; bare, it is negated.
pub open spec fn spec_diseq_shape(t: TermV) -> Option<(Operator, Seq<TermV>)> {
    match spec_remove_negation(t) {
        Some(inner) => match inner {
            TermV::Op(op, args) => {
                if spec_is_diseq_op(op) {
                    Some((op, args))
                } else {
                    None
                }
            },
            _ => None,
        },
        None => match t {
            TermV::Op(op, args) => {
                match spec_negate_op(op) {
                    Some(nop) => Some((nop, args)),
                    None => None,
                }
            },
            _ => None,
        },
    }
}

/// What negating a disequality yields: the negated operator and both sides
/// flattened to linear combinations; nothing on a bad shape or a raw value
/// out of range.
pub open spec fn spec_negate_disequality(t: TermV) -> Option<(Operator, LcV, LcV)> {
    match spec_diseq_shape(t) {
        Some((op, args)) => {
            if args.len() != 2 {
                None
            } else {
                match (spec_from_term(args[0]), spec_from_term(args[1])) {
                    (Some(l), Some(r)) => Some((op, l, r)),
                    _ => None,
                }
            }
        },
        None => None,
    }
}

fn negate_operator(op: Operator) -> (r: Option<Operator>)
    ensures
        r == spec_negate_op(op),
{
    match op {
        Operator::LessThan => Some(Operator::GreaterEq),
        Operator::GreaterThan => Some(Operator::LessEq),
        Operator::LessEq => Some(Operator::GreaterThan),
        Operator::GreaterEq => Some(Operator::LessThan),
        _ => None,
    }
}

fn is_diseq_op(op: Operator) -> (r: bool)
    ensures
        r == spec_is_diseq_op(op),
{
    match op {
        Operator::GreaterEq => true,
        Operator::LessEq => true,
        Operator::GreaterThan => true,
        Operator::LessThan => true,
        Operator::Equals => true,
        _ => false,
    }
}

/// The operator and arguments of an operator application.
pub(crate) fn as_op<'a>(t: &'a Term) -> (r: Option<(Operator, &'a Vec<Term>)>)
    ensures
        r matches Some((op, args)) ==> t@ == TermV::Op(op, terms_view(args@)),
        r is None ==> !(t@ is Op),
{
    match t {
        Term::Op(op, args) => Some((*op, args)),
        _ => None,
    }
}

/// Takes a disequality term and returns its negation: an operator and the
/// two sides as linear combinations. The disequality can be an application
/// of one of the four order operators, one such application under a single
/// `not`, or an equality under a `not`.
pub fn negate_disequality(term: &Term) -> (r: Result<
    (Operator, LinearComb, LinearComb),
    CheckerError,
>)
    requires
        term_wf(term@),
        no_empty_sub(term@),
    ensures
        r is Ok <==> spec_negate_disequality(term@) is Some,
        r matches Ok((op, l, rr)) ==> l.wf() && rr.wf() && Some(
            ((op, (l.entries(), l.constant), (rr.entries(), rr.constant))),
        ) == spec_negate_disequality(term@),
        spec_diseq_shape(term@) is None ==> (r matches Err(
            CheckerError::LinearArithmetic(LinearArithmeticError::InvalidDisequalityOp(t)),
        ) && t@ == term@),
        (spec_diseq_shape(term@) matches Some((op, args)) && args.len() != 2) ==> (r matches Err(
            CheckerError::LinearArithmetic(LinearArithmeticError::TooManyArgsInDisequality(t)),
        ) && t@ == term@),
        (spec_diseq_shape(term@) matches Some((op, args)) && args.len() == 2 && r is Err) ==> r
            == Err::<(Operator, LinearComb, LinearComb), CheckerError>(
            CheckerError::ArithmeticOverflow,
        ),
{
    let shape = diseq_shape(term);
    match shape {
        None => Err(
            CheckerError::LinearArithmetic(
                LinearArithmeticError::InvalidDisequalityOp(term.deep_copy()),
            ),
        ),
        Some((op, args)) => {
            proof {
                lemma_terms_view_index(args@);
            }
            if args.len() != 2 {
                return Err(
                    CheckerError::LinearArithmetic(
                        LinearArithmeticError::TooManyArgsInDisequality(term.deep_copy()),
                    ),
                );
            }
            proof {
                lemma_sub_args_wf(term@, terms_view(args@));
            }
            let l = match LinearComb::from_term(&args[0]) {
                Ok(l) => l,
                Err(()) => {
                    return Err(CheckerError::ArithmeticOverflow);
                },
            };
            let rr = match LinearComb::from_term(&args[1]) {
                Ok(rr) => rr,
                Err(()) => {
                    return Err(CheckerError::ArithmeticOverflow);
                },
            };
            Ok((op, l, rr))
        },
    }
}

/// The operator and sides of a disequality, read as `spec_diseq_shape`
/// does.
fn diseq_shape<'a>(term: &'a Term) -> (r: Option<(Operator, &'a Vec<Term>)>)
    ensures
        r matches Some((op, args)) ==> spec_diseq_shape(term@) == Some((op, terms_view(args@))),
        r is None ==> spec_diseq_shape(term@) is None,
{
    match term.remove_negation() {
        Some(inner) => {
            proof {
                if let Term::Op(op0, args0) = term {
                    lemma_terms_view_index(args0@);
                }
            }
            match as_op(inner) {
                Some((op, args)) => {
                    if is_diseq_op(op) {
                        Some((op, args))
                    } else {
                        None
                    }
                },
                None => None,
            }
        },
        None => {
            match as_op(term) {
                Some((op, args)) => {
                    match negate_operator(op) {
                        Some(nop) => Some((nop, args)),
                        None => None,
                    }
                },
                _ => None,
            }
        },
    }
}

/// What strengthening does: with an integral bound the `>` case rounds the
/// constant up by the coefficients' common divisor and relaxes to `>=`;
/// otherwise strict and non-strict bounds alike round to the next integer.
pub open spec fn spec_strengthen(op: Operator, d: LcV, a: Rational) -> Option<(Operator, LcV)> {
    let c = d.1;
    if a.num != 0 && a.num != a.den && !Rational::fits(c.spec_mul(a).0, c.spec_mul(a).1) {
        None
    } else {
        let is_integer = if a.num == 0 {
            true
        } else if a.num == a.den {
            c.den == 1
        } else {
            c.spec_mul(a).0 % c.spec_mul(a).1 == 0
        };
        if op == Operator::GreaterEq && is_integer {
            Some((op, d))
        } else if op == Operator::GreaterThan && is_integer {
            let g = match spec_coeffs_gcd(d.0, c) {
                Some(g) => g,
                None => 1,
            };
            let nc = c.spec_floor() + g;
            if i64::MIN < nc <= i64::MAX {
                Some(
                    (Operator::GreaterEq, (d.0, Rational { num: nc as i64, den: 1int as i64 })),
                )
            } else {
                None
            }
        } else if op == Operator::GreaterThan || op == Operator::GreaterEq {
            let nc = c.spec_floor() + 1;
            if i64::MIN < nc <= i64::MAX {
                Some(
                    (Operator::GreaterEq, (d.0, Rational { num: nc as i64, den: 1int as i64 })),
                )
            } else {
                None
            }
        } else {
            Some((op, d))
        }
    }
}

/// Applies the strengthening rules to a one-sided disequality, replacing
/// its constant and returning the relaxed operator.
pub fn strengthen(op: Operator, disequality: &mut LinearComb, a: &Rational) -> (r: Result<
    Operator,
    CheckerError,
>)
    requires
        old(disequality).wf(),
        a.wf(),
        op != Operator::LessThan,
        op != Operator::LessEq,
    ensures
        final(disequality).wf(),
        r is Ok <==> spec_strengthen(
            op,
            (old(disequality).entries(), old(disequality).constant),
            *a,
        ) is Some,
        r matches Ok(op2) ==> Some(
            ((op2, (final(disequality).entries(), final(disequality).constant))),
        ) == spec_strengthen(op, (old(disequality).entries(), old(disequality).constant), *a),
        r is Err ==> *final(disequality) == *old(disequality) && r == Err::<
            Operator,
            CheckerError,
        >(CheckerError::ArithmeticOverflow),
{
    let is_integer: bool = if a.is_zero() {
        true
    } else if a.is_one() {
        disequality.constant.is_integer()
    } else {
        let c0 = disequality.constant;
        match c0.raw_mul(*a) {
            Some(p) => crate::euclid::is_multiple_of_i64(p.num, p.den),
            None => {
                return Err(CheckerError::ArithmeticOverflow);
            },
        }
    };
    if op == Operator::GreaterEq && is_integer {
        Ok(op)
    } else if op == Operator::GreaterThan && is_integer {
        let g: i64 = match disequality.coefficients_gcd() {
            Some(g) => g,
            None => 1,
        };
        proof {
            lemma_gcd_positive(disequality.entries(), disequality.constant);
        }
        let f = disequality.constant.floor();
        if f > i64::MAX - g {
            return Err(CheckerError::ArithmeticOverflow);
        }
        disequality.constant = Rational { num: f + g, den: 1 };
        Ok(Operator::GreaterEq)
    } else if op == Operator::GreaterThan || op == Operator::GreaterEq {
        let f = disequality.constant.floor();
        if f > i64::MAX - 1 {
            return Err(CheckerError::ArithmeticOverflow);
        }
        disequality.constant = Rational { num: f + 1, den: 1 };
        Ok(Operator::GreaterEq)
    } else {
        Ok(op)
    }
}

/// The divisor the strengthening step adds is at least one.
proof fn lemma_gcd_positive(e: Seq<(TermV, Rational)>, c: Rational)
    ensures
        spec_coeffs_gcd(e, c) matches Some(g) ==> 1 <= g,
{
    if c.num % c.den == 0 {
        let q = c.num as int / c.den as int;
        let start = if q < 0 {
            -q
        } else {
            q
        };
        match crate::linear_comb::spec_gcd_fold(e, start as nat) {
            Some(g0) => {
                assert(spec_coeffs_gcd(e, c) == Some(if g0 < 1 {
                    1int
                } else {
                    g0 as int
                }));
            },
            None => {},
        }
    }
}

/// One clause term processed for `la_generic`: negate the disequality,
/// move the sides together, flip strict directions upward, strengthen, and
/// scale by the argument.
pub open spec fn spec_process(phi: TermV, a: Rational) -> Option<(Operator, LcV)> {
    match spec_negate_disequality(phi) {
        Some((op, l, r)) => {
            if !(seq_merge_ok(l.0, neg_entries(r.0)) && Rational::fits(
                l.1.spec_add(r.1.spec_neg()).0,
                l.1.spec_add(r.1.spec_neg()).1,
            )) {
                None
            } else {
                let m = seq_merge(l.0, neg_entries(r.0));
                let c = Rational {
                    num: l.1.spec_add(r.1.spec_neg()).0 as i64,
                    den: l.1.spec_add(r.1.spec_neg()).1 as i64,
                };
                let moved = c.spec_neg();
                let flipped: (Operator, LcV) = if op == Operator::LessThan {
                    (Operator::GreaterThan, (neg_entries(m), moved.spec_neg()))
                } else if op == Operator::LessEq {
                    (Operator::GreaterEq, (neg_entries(m), moved.spec_neg()))
                } else {
                    (op, (m, moved))
                };
                match spec_strengthen(flipped.0, flipped.1, a) {
                    Some((op4, d4)) => {
                        let a2 = if op4 == Operator::Equals {
                            a
                        } else {
                            a.spec_abs()
                        };
                        match spec_mul_lc(d4, a2) {
                            Some(d5) => Some((op4, d5)),
                            None => None,
                        }
                    },
                    None => None,
                }
            }
        },
        None => None,
    }
}

/// Scaling a one-sided disequality: by zero it clears, by one it is left
/// untouched, otherwise everything is multiplied raw.
pub open spec fn spec_mul_lc(d: LcV, q: Rational) -> Option<LcV> {
    if q.num == 0 {
        Some((Seq::empty(), Rational { num: 0int as i64, den: 1int as i64 }))
    } else if q.num == q.den {
        Some(d)
    } else if scale_fits(d.0, q) && Rational::fits(d.1.spec_mul(q).0, d.1.spec_mul(q).1) {
        Some(
            (
                scale_entries(d.0, q),
                Rational { num: d.1.spec_mul(q).0 as i64, den: d.1.spec_mul(q).1 as i64 },
            ),
        )
    } else {
        None
    }
}

/// Processes one clause term with its argument.
fn process_diseq(phi: &Term, a: Rational) -> (r: Result<(Operator, LinearComb), CheckerError>)
    requires
        term_wf(phi@),
        no_empty_sub(phi@),
        a.wf(),
    ensures
        r is Ok <==> spec_process(phi@, a) is Some,
        r matches Ok((op, d)) ==> d.wf() && Some(((op, (d.entries(), d.constant)))) == spec_process(
            phi@,
            a,
        ),
        spec_diseq_shape(phi@) is None ==> (r matches Err(
            CheckerError::LinearArithmetic(LinearArithmeticError::InvalidDisequalityOp(t)),
        ) && t@ == phi@),
        (spec_diseq_shape(phi@) matches Some((op, args)) && args.len() != 2) ==> (r matches Err(
            CheckerError::LinearArithmetic(LinearArithmeticError::TooManyArgsInDisequality(t)),
        ) && t@ == phi@),
        (spec_diseq_shape(phi@) matches Some((op, args)) && args.len() == 2 && r is Err) ==> r
            == Err::<(Operator, LinearComb), CheckerError>(CheckerError::ArithmeticOverflow),
{
    let (mut op, s1, s2) = match negate_disequality(phi) {
        Ok(x) => x,
        Err(e) => {
            return Err(e);
        },
    };
    let mut disequality = match s1.sub(s2) {
        Ok(d) => d,
        Err(()) => {
            return Err(CheckerError::ArithmeticOverflow);
        },
    };
    let c0 = disequality.constant;
    disequality.constant = c0.neg();
    if op == Operator::LessThan {
        disequality.neg();
        op = Operator::GreaterThan;
    } else if op == Operator::LessEq {
        disequality.neg();
        op = Operator::GreaterEq;
    }
    let op = match strengthen(op, &mut disequality, &a) {
        Ok(op2) => op2,
        Err(e) => {
            return Err(e);
        },
    };
    let a2 = if op == Operator::Equals {
        a
    } else {
        a.abs()
    };
    match disequality.mul(&a2) {
        Ok(()) => Ok((op, disequality)),
        Err(()) => Err(CheckerError::ArithmeticOverflow),
    }
}

/// How operators combine while disequalities are summed: any `>=` makes
/// the sum `>=`; a `>` turns an equality into `>`; otherwise the
/// accumulator stands.
pub open spec fn spec_acc_op(acc: Operator, op: Operator) -> Operator {
    if op == Operator::GreaterEq {
        Operator::GreaterEq
    } else if acc == Operator::Equals && op == Operator::GreaterThan {
        Operator::GreaterThan
    } else {
        acc
    }
}

/// Summing the processed disequalities of a clause, in order.
pub open spec fn spec_la_fold(
    clause: Seq<TermV>,
    args: Seq<Rational>,
    acc_op: Operator,
    acc: LcV,
) -> Option<(Operator, LcV)>
    decreases clause.len(),
{
    if clause.len() == 0 {
        Some((acc_op, acc))
    } else {
        match spec_process(clause[0], args[0]) {
            Some((op, d)) => {
                if seq_merge_ok(acc.0, d.0) && Rational::fits(
                    acc.1.spec_add(d.1).0,
                    acc.1.spec_add(d.1).1,
                ) {
                    spec_la_fold(
                        clause.drop_first(),
                        args.drop_first(),
                        spec_acc_op(acc_op, op),
                        (
                            seq_merge(acc.0, d.0),
                            Rational {
                                num: acc.1.spec_add(d.1).0 as i64,
                                den: acc.1.spec_add(d.1).1 as i64,
                            },
                        ),
                    )
                } else {
                    None
                }
            },
            None => None,
        }
    }
}

/// Whether the operator already covers how zero relates to the constant,
/// which would make the accumulated disequality true rather than
/// contradictory.
pub open spec fn spec_diseq_true(op: Operator, c: Rational) -> bool {
    if c.num > 0 {
        op == Operator::LessThan || op == Operator::LessEq
    } else if c.num == 0 {
        op == Operator::LessEq || op == Operator::GreaterEq || op == Operator::Equals
    } else {
        op == Operator::GreaterThan || op == Operator::GreaterEq
    }
}

/// The rational values of term-style arguments; nothing if any argument is
/// a named assignment or not a numeric literal.
pub open spec fn spec_arg_values(s: Seq<crate::ast::ProofArgV>) -> Option<Seq<Rational>>
    decreases s.len(),
{
    if s.len() == 0 {
        Some(Seq::empty())
    } else {
        match s[0] {
            crate::ast::ProofArgV::Term(t) => match spec_as_fraction(t) {
                Some(q) => match spec_arg_values(s.drop_first()) {
                    Some(rest) => Some(seq![q] + rest),
                    None => None,
                },
                None => None,
            },
            _ => None,
        }
    }
}

/// The first argument that is not a plain numeric term, if any.
pub open spec fn spec_first_bad_arg(s: Seq<crate::ast::ProofArgV>) -> Option<crate::ast::ProofArgV>
    decreases s.len(),
{
    if s.len() == 0 {
        None
    } else if crate::ast::spec_arg_as_term(s[0]) matches Some(t) && spec_as_fraction(t)
        is Some {
        spec_first_bad_arg(s.drop_first())
    } else {
        Some(s[0])
    }
}

/// With a good prefix, the bad position holds the first bad argument.
proof fn lemma_first_bad_arg(s: Seq<crate::ast::ProofArgV>, i: int)
    requires
        0 <= i < s.len(),
        forall|k: int| 0 <= k < i ==> crate::ast::spec_arg_as_term(#[trigger] s[k]) is Some,
        forall|k: int|
            0 <= k < i ==> spec_as_fraction(
                crate::ast::spec_arg_as_term(#[trigger] s[k]).unwrap(),
            ) is Some,
        !(crate::ast::spec_arg_as_term(s[i]) is Some && spec_as_fraction(
            crate::ast::spec_arg_as_term(s[i]).unwrap(),
        ) is Some),
    ensures
        spec_first_bad_arg(s) == Some(s[i]),
    decreases i,
{
    if i > 0 {
        let d = s.drop_first();
        assert(forall|k: int| 0 <= k < s.len() - 1 ==> d[k] == s[k + 1]);
        assert(crate::ast::spec_arg_as_term(s[0]) is Some);
        lemma_first_bad_arg(d, i - 1);
    }
}

/// Whether a `la_generic` step is valid: with one positive rational
/// argument per clause term, the negated, flipped, strengthened and scaled
/// disequalities sum to a contradiction: no keyed term survives, and the
/// final operator does not hold of zero against the constant.
pub open spec fn spec_la_generic_accepts(clause: Seq<TermV>, args: Seq<Rational>) -> bool {
    match spec_la_fold(
        clause,
        args,
        Operator::Equals,
        (Seq::empty(), Rational { num: 0int as i64, den: 1int as i64 }),
    ) {
        Some((op, d)) => d.0.len() == 0 && !spec_diseq_true(op, d.1),
        None => false,
    }
}

/// The empty accumulator the summation starts from.
pub open spec fn spec_la_init() -> LcV {
    (Seq::empty(), Rational { num: 0int as i64, den: 1int as i64 })
}

/// The summation's outcome over a whole clause.
pub open spec fn spec_la_result(clause: Seq<TermV>, args: Seq<Rational>) -> Option<
    (Operator, LcV),
> {
    spec_la_fold(clause, args, Operator::Equals, spec_la_init())
}

/// The clause term the summation first failed on, when it failed.
pub open spec fn spec_la_failed_term(clause: Seq<TermV>, args: Seq<Rational>) -> Option<TermV> {
    spec_la_fold_err(clause, args, Operator::Equals, spec_la_init())
}

/// The clause term at which the fold first fails, when it fails: either
/// its own processing broke down, or summing it into the accumulator left
/// the range.
pub open spec fn spec_la_fold_err(
    clause: Seq<TermV>,
    args: Seq<Rational>,
    acc_op: Operator,
    acc: LcV,
) -> Option<TermV>
    decreases clause.len(),
{
    if clause.len() == 0 {
        None
    } else {
        match spec_process(clause[0], args[0]) {
            Some((op, d)) => {
                if seq_merge_ok(acc.0, d.0) && Rational::fits(
                    acc.1.spec_add(d.1).0,
                    acc.1.spec_add(d.1).1,
                ) {
                    spec_la_fold_err(
                        clause.drop_first(),
                        args.drop_first(),
                        spec_acc_op(acc_op, op),
                        (
                            seq_merge(acc.0, d.0),
                            Rational {
                                num: acc.1.spec_add(d.1).0 as i64,
                                den: acc.1.spec_add(d.1).1 as i64,
                            },
                        ),
                    )
                } else {
                    Some(clause[0])
                }
            },
            None => Some(clause[0]),
        }
    }
}

/// The `la_generic` rule: the clause is a list of disequalities, and the
/// arguments scale their negations so that they sum to a contradiction.
pub fn la_generic(conclusion: &Vec<Term>, args: &Vec<crate::ast::ProofArg>) -> (r: RuleResult)
    requires
        forall|i: int|
            0 <= i < conclusion@.len() ==> term_wf(#[trigger] terms_view(conclusion@)[i])
                && no_empty_sub(terms_view(conclusion@)[i]),
        forall|i: int|
            0 <= i < args@.len() ==> (crate::ast::spec_arg_as_term(
                #[trigger] crate::ast::args_view(args@)[i],
            ) is Some ==> term_wf(
                crate::ast::spec_arg_as_term(crate::ast::args_view(args@)[i]).unwrap(),
            )),
    ensures
        r is Ok <==> conclusion@.len() == args@.len() && (spec_arg_values(
            crate::ast::args_view(args@),
        ) matches Some(vals) && spec_la_generic_accepts(terms_view(conclusion@), vals)),
        conclusion@.len() != args@.len() ==> (r matches Err(
            CheckerError::WrongNumberOfArgs(e, a),
        ) && e == conclusion@.len() && a == args@.len()),
        (conclusion@.len() == args@.len() && spec_arg_values(crate::ast::args_view(args@))
            is None && crate::ast::spec_arg_assign(
            spec_first_bad_arg(crate::ast::args_view(args@)).unwrap(),
        ) is Some) ==> (r matches Err(CheckerError::ExpectedTermStyleArg(n, v)) && Some((n@, v@))
            == crate::ast::spec_arg_assign(
            spec_first_bad_arg(crate::ast::args_view(args@)).unwrap(),
        )),
        (conclusion@.len() == args@.len() && spec_arg_values(crate::ast::args_view(args@))
            is None && crate::ast::spec_arg_as_term(
            spec_first_bad_arg(crate::ast::args_view(args@)).unwrap(),
        ) is Some) ==> (r matches Err(CheckerError::ExpectedAnyNumber(t)) && Some(t@)
            == crate::ast::spec_arg_as_term(
            spec_first_bad_arg(crate::ast::args_view(args@)).unwrap(),
        )),
        (conclusion@.len() == args@.len() && spec_arg_values(crate::ast::args_view(args@))
            is Some && spec_la_result(
            terms_view(conclusion@),
            spec_arg_values(crate::ast::args_view(args@)).unwrap(),
        ) is Some && !spec_la_generic_accepts(
            terms_view(conclusion@),
            spec_arg_values(crate::ast::args_view(args@)).unwrap(),
        )) ==> r == Err::<(), CheckerError>(
            CheckerError::LinearArithmetic(
                LinearArithmeticError::DisequalityIsNotContradiction(
                    spec_la_result(
                        terms_view(conclusion@),
                        spec_arg_values(crate::ast::args_view(args@)).unwrap(),
                    ).unwrap().0,
                    spec_la_result(
                        terms_view(conclusion@),
                        spec_arg_values(crate::ast::args_view(args@)).unwrap(),
                    ).unwrap().1.1,
                ),
            ),
        ),
        (conclusion@.len() == args@.len() && spec_arg_values(crate::ast::args_view(args@))
            is Some && spec_la_result(
            terms_view(conclusion@),
            spec_arg_values(crate::ast::args_view(args@)).unwrap(),
        ) is None && spec_diseq_shape(
            spec_la_failed_term(
                terms_view(conclusion@),
                spec_arg_values(crate::ast::args_view(args@)).unwrap(),
            ).unwrap(),
        ) is None) ==> (r matches Err(
            CheckerError::LinearArithmetic(LinearArithmeticError::InvalidDisequalityOp(t)),
        ) && Some(t@) == spec_la_failed_term(
            terms_view(conclusion@),
            spec_arg_values(crate::ast::args_view(args@)).unwrap(),
        )),
        (conclusion@.len() == args@.len() && spec_arg_values(crate::ast::args_view(args@))
            is Some && spec_la_result(
            terms_view(conclusion@),
            spec_arg_values(crate::ast::args_view(args@)).unwrap(),
        ) is None && (spec_diseq_shape(
            spec_la_failed_term(
                terms_view(conclusion@),
                spec_arg_values(crate::ast::args_view(args@)).unwrap(),
            ).unwrap(),
        ) matches Some((op0, bargs)) && bargs.len() != 2)) ==> (r matches Err(
            CheckerError::LinearArithmetic(LinearArithmeticError::TooManyArgsInDisequality(t)),
        ) && Some(t@) == spec_la_failed_term(
            terms_view(conclusion@),
            spec_arg_values(crate::ast::args_view(args@)).unwrap(),
        )),
        (conclusion@.len() == args@.len() && spec_arg_values(crate::ast::args_view(args@))
            is Some && spec_la_result(
            terms_view(conclusion@),
            spec_arg_values(crate::ast::args_view(args@)).unwrap(),
        ) is None && (spec_diseq_shape(
            spec_la_failed_term(
                terms_view(conclusion@),
                spec_arg_values(crate::ast::args_view(args@)).unwrap(),
            ).unwrap(),
        ) matches Some((op0, bargs)) && bargs.len() == 2)) ==> r == Err::<(), CheckerError>(
            CheckerError::ArithmeticOverflow,
        ),
{
    let ghost cv = terms_view(conclusion@);
    let ghost av = crate::ast::args_view(args@);
    proof {
        lemma_terms_view_index(conclusion@);
        crate::ast::lemma_args_view_index(args@);
    }
    if args.len() != conclusion.len() {
        return Err(CheckerError::WrongNumberOfArgs(conclusion.len(), args.len()));
    }
    let n = conclusion.len();
    let mut vals: Vec<Rational> = Vec::new();
    let mut j: usize = 0;
    while j < n
        invariant
            n == conclusion@.len() == args@.len(),
            0 <= j <= n,
            av == crate::ast::args_view(args@),
            av.len() == n,
            forall|i: int| 0 <= i < n ==> #[trigger] av[i] == args@[i]@,
            vals@.len() == j,
            forall|i: int|
                0 <= i < n ==> (crate::ast::spec_arg_as_term(#[trigger] av[i]) is Some
                    ==> term_wf(crate::ast::spec_arg_as_term(av[i]).unwrap())),
            forall|i: int| 0 <= i < j ==> crate::ast::spec_arg_as_term(#[trigger] av[i]) is Some,
            forall|i: int|
                0 <= i < j ==> spec_as_fraction(
                    crate::ast::spec_arg_as_term(#[trigger] av[i]).unwrap(),
                ) == Some(vals@[i]),
            forall|i: int| 0 <= i < j ==> (#[trigger] vals@[i]).wf(),
        decreases n - j,
    {
        match &args[j] {
            crate::ast::ProofArg::Term(t) => {
                match t.as_fraction() {
                    Some(q) => {
                        proof {
                            assert(av[j as int] == args@[j as int]@);
                            crate::linear_comb::lemma_literal_wf(t@, q);
                        }
                        vals.push(q);
                    },
                    None => {
                        proof {
                            lemma_arg_values_bad(av, j as int);
                            assert(av[j as int] == args@[j as int]@);
                            lemma_first_bad_arg(av, j as int);
                        }
                        return Err(CheckerError::ExpectedAnyNumber(t.deep_copy()));
                    },
                }
            },
            crate::ast::ProofArg::Assign(name, value) => {
                proof {
                    lemma_arg_values_bad(av, j as int);
                    assert(av[j as int] == args@[j as int]@);
                    lemma_first_bad_arg(av, j as int);
                }
                return Err(CheckerError::ExpectedTermStyleArg(name.clone(), value.deep_copy()));
            },
        }
        j += 1;
    }
    proof {
        lemma_arg_values_good(av, vals@);
    }
    let mut acc = LinearComb::new();
    let mut acc_op = Operator::Equals;
    let ghost vs = vals@;
    proof {
        assert(cv.skip(0) =~= cv);
        assert(vs.skip(0) =~= vs);
    }
    let mut i: usize = 0;
    while i < n
        invariant
            n == conclusion@.len(),
            n == args@.len(),
            0 <= i <= n,
            cv == terms_view(conclusion@),
            cv.len() == n,
            vs == vals@,
            vs.len() == n,
            spec_arg_values(crate::ast::args_view(args@)) == Some(vs),
            forall|k: int| 0 <= k < n ==> cv[k] == term_view(#[trigger] conclusion@[k]),
            forall|k: int|
                0 <= k < conclusion@.len() ==> term_wf(#[trigger] terms_view(conclusion@)[k])
                    && no_empty_sub(terms_view(conclusion@)[k]),
            forall|k: int| 0 <= k < n ==> (#[trigger] vs[k]).wf(),
            acc.wf(),
            spec_la_fold(
                cv,
                vs,
                Operator::Equals,
                (Seq::empty(), Rational { num: 0int as i64, den: 1int as i64 }),
            ) == spec_la_fold(
                cv.skip(i as int),
                vs.skip(i as int),
                acc_op,
                (acc.entries(), acc.constant),
            ),
            spec_la_fold_err(
                cv,
                vs,
                Operator::Equals,
                (Seq::empty(), Rational { num: 0int as i64, den: 1int as i64 }),
            ) == spec_la_fold_err(
                cv.skip(i as int),
                vs.skip(i as int),
                acc_op,
                (acc.entries(), acc.constant),
            ),
        decreases n - i,
    {
        proof {
            assert(cv.skip(i as int)[0] == cv[i as int]);
            assert(vs.skip(i as int)[0] == vs[i as int]);
            assert(cv.skip(i as int).drop_first() =~= cv.skip(i as int + 1));
            assert(vs.skip(i as int).drop_first() =~= vs.skip(i as int + 1));
        }
        let (op, d) = match process_diseq(&conclusion[i], vals[i]) {
            Ok(x) => x,
            Err(e) => {
                proof {
                    assert(spec_process(cv[i as int], vs[i as int]) is None);
                    assert(spec_la_fold_err(
                        cv.skip(i as int),
                        vs.skip(i as int),
                        acc_op,
                        (acc.entries(), acc.constant),
                    ) == Some(cv[i as int]));
                    assert(spec_la_fold(
                        cv,
                        vs,
                        Operator::Equals,
                        (Seq::empty(), Rational { num: 0int as i64, den: 1int as i64 }),
                    ) is None);
                }
                return Err(e);
            },
        };
        let ghost before = acc;
        acc = match acc.add(d) {
            Ok(x) => x,
            Err(()) => {
                proof {
                    assert(Some((op, (d.entries(), d.constant))) == spec_process(
                        cv[i as int],
                        vs[i as int],
                    ));
                    assert(spec_la_fold_err(
                        cv.skip(i as int),
                        vs.skip(i as int),
                        acc_op,
                        (before.entries(), before.constant),
                    ) == Some(cv[i as int]));
                    assert(spec_la_fold(
                        cv,
                        vs,
                        Operator::Equals,
                        (Seq::empty(), Rational { num: 0int as i64, den: 1int as i64 }),
                    ) is None);
                    lemma_process_shape(cv[i as int], vs[i as int]);
                }
                return Err(CheckerError::ArithmeticOverflow);
            },
        };
        acc_op = if op == Operator::GreaterEq {
            Operator::GreaterEq
        } else if acc_op == Operator::Equals && op == Operator::GreaterThan {
            Operator::GreaterThan
        } else {
            acc_op
        };
        i += 1;
    }
    proof {
        assert(cv.skip(n as int) =~= Seq::<TermV>::empty());
        crate::linear_comb::lemma_entries_view_index(acc.terms@);
    }
    let is_true: bool = if acc.constant.num > 0 {
        acc_op == Operator::LessThan || acc_op == Operator::LessEq
    } else if acc.constant.num == 0 {
        acc_op == Operator::LessEq || acc_op == Operator::GreaterEq || acc_op == Operator::Equals
    } else {
        acc_op == Operator::GreaterThan || acc_op == Operator::GreaterEq
    };
    if acc.terms.len() == 0 && !is_true {
        Ok(())
    } else {
        let c = acc.constant;
        Err(
            CheckerError::LinearArithmetic(
                LinearArithmeticError::DisequalityIsNotContradiction(acc_op, c),
            ),
        )
    }
}

/// Any non-constant term that survives the accumulated combination
/// refutes a `la_generic` step: only an empty keyed part can be
/// contradictory.
pub proof fn lemma_residual_term_rejects(clause: Seq<TermV>, vals: Seq<Rational>)
    requires
        spec_la_fold(
            clause,
            vals,
            Operator::Equals,
            (Seq::empty(), Rational { num: 0int as i64, den: 1int as i64 }),
        ) matches Some(fin) && fin.1.0.len() > 0,
    ensures
        !spec_la_generic_accepts(clause, vals),
{
}

/// A failed conversion at one position makes the whole argument list
/// unconvertible.
proof fn lemma_arg_values_bad(s: Seq<crate::ast::ProofArgV>, i: int)
    requires
        0 <= i < s.len(),
        forall|k: int| 0 <= k < i ==> crate::ast::spec_arg_as_term(#[trigger] s[k]) is Some,
        forall|k: int|
            0 <= k < i ==> spec_as_fraction(
                crate::ast::spec_arg_as_term(#[trigger] s[k]).unwrap(),
            ) is Some,
        !(crate::ast::spec_arg_as_term(s[i]) is Some && spec_as_fraction(
            crate::ast::spec_arg_as_term(s[i]).unwrap(),
        ) is Some),
    ensures
        spec_arg_values(s) is None,
    decreases i,
{
    if i > 0 {
        let d = s.drop_first();
        assert(forall|k: int| 0 <= k < s.len() - 1 ==> d[k] == s[k + 1]);
        assert(crate::ast::spec_arg_as_term(s[0]) is Some);
        lemma_arg_values_bad(d, i - 1);
    }
}

/// A pointwise successful conversion yields exactly the collected values.
proof fn lemma_arg_values_good(s: Seq<crate::ast::ProofArgV>, vals: Seq<Rational>)
    requires
        vals.len() == s.len(),
        forall|k: int| 0 <= k < s.len() ==> crate::ast::spec_arg_as_term(#[trigger] s[k]) is Some,
        forall|k: int|
            0 <= k < s.len() ==> spec_as_fraction(
                crate::ast::spec_arg_as_term(#[trigger] s[k]).unwrap(),
            ) == Some(vals[k]),
    ensures
        spec_arg_values(s) == Some(vals),
    decreases s.len(),
{
    if s.len() > 0 {
        let d = s.drop_first();
        assert(forall|k: int| 0 <= k < s.len() - 1 ==> d[k] == s[k + 1]);
        lemma_arg_values_good(d, vals.drop_first());
        assert(crate::ast::spec_arg_as_term(s[0]) is Some);
        assert(spec_as_fraction(crate::ast::spec_arg_as_term(s[0]).unwrap()) == Some(vals[0]));
        assert(vals =~= seq![vals[0]] + vals.drop_first());
    }
}

/// A binary application of `op`.
pub open spec fn spec_cmp2(t: TermV, op: Operator) -> Option<(TermV, TermV)> {
    match t {
        TermV::Op(op0, args) => {
            if op0 == op && args.len() == 2 {
                Some((args[0], args[1]))
            } else {
                None
            }
        },
        _ => None,
    }
}

/// A binary application of `op` under a single negation.
pub open spec fn spec_not_cmp2(t: TermV, op: Operator) -> Option<(TermV, TermV)> {
    match spec_remove_negation(t) {
        Some(inner) => spec_cmp2(inner, op),
        None => None,
    }
}

/// The two sides of a binary application of `op`.
pub(crate) fn match_cmp2<'a>(t: &'a Term, op: Operator) -> (r: Option<(&'a Term, &'a Term)>)
    ensures
        r matches Some((a, b)) ==> spec_cmp2(t@, op) == Some((a@, b@)),
        r is None ==> spec_cmp2(t@, op) is None,
{
    match as_op(t) {
        Some((op0, args)) => {
            proof {
                lemma_terms_view_index(args@);
            }
            if op0 == op && args.len() == 2 {
                Some((&args[0], &args[1]))
            } else {
                None
            }
        },
        None => None,
    }
}

/// The two sides of a negated binary application of `op`.
pub(crate) fn match_not_cmp2<'a>(t: &'a Term, op: Operator) -> (r: Option<(&'a Term, &'a Term)>)
    ensures
        r matches Some((a, b)) ==> spec_not_cmp2(t@, op) == Some((a@, b@)),
        r is None ==> spec_not_cmp2(t@, op) is None,
{
    match t.remove_negation() {
        Some(inner) => match_cmp2(inner, op),
        None => None,
    }
}

/// A valid `la_rw_eq` conclusion: one term of the shape
/// `(= (= t u) (and (<= t u) (<= u t)))` with the `t` and `u` positions
/// identical pairwise.
pub open spec fn spec_la_rw_eq_valid(t: TermV) -> bool {
    match spec_cmp2(t, Operator::Equals) {
        Some((lhs, rhs)) => match (
            spec_cmp2(lhs, Operator::Equals),
            spec_cmp2(rhs, Operator::And),
        ) {
            (Some((t1, u1)), Some((c1, c2))) => match (
                spec_cmp2(c1, Operator::LessEq),
                spec_cmp2(c2, Operator::LessEq),
            ) {
                (Some((t2, u2)), Some((u3, t3))) => t1 == t2 && t2 == t3 && u1 == u2 && u2 == u3,
                _ => false,
            },
            _ => false,
        },
        None => false,
    }
}

/// The `la_rw_eq` rule: an equality is the conjunction of the two opposite
/// non-strict bounds.
pub fn la_rw_eq(conclusion: &Vec<Term>) -> (r: RuleResult)
    ensures
        r is Ok <==> conclusion@.len() == 1 && spec_la_rw_eq_valid(terms_view(conclusion@)[0]),
        conclusion@.len() != 1 ==> (r matches Err(CheckerError::ClauseLengthMismatch(e, a)) && e
            == 1 && a == conclusion@.len()),
{
    proof {
        lemma_terms_view_index(conclusion@);
    }
    if conclusion.len() != 1 {
        return Err(CheckerError::ClauseLengthMismatch(1, conclusion.len()));
    }
    let t = &conclusion[0];
    let (lhs, rhs) = match match_cmp2(t, Operator::Equals) {
        Some(x) => x,
        None => {
            return Err(CheckerError::TermDoesNotMatch(t.deep_copy()));
        },
    };
    let (t1, u1) = match match_cmp2(lhs, Operator::Equals) {
        Some(x) => x,
        None => {
            return Err(CheckerError::TermDoesNotMatch(t.deep_copy()));
        },
    };
    let (c1, c2) = match match_cmp2(rhs, Operator::And) {
        Some(x) => x,
        None => {
            return Err(CheckerError::TermDoesNotMatch(t.deep_copy()));
        },
    };
    let (t2, u2) = match match_cmp2(c1, Operator::LessEq) {
        Some(x) => x,
        None => {
            return Err(CheckerError::TermDoesNotMatch(t.deep_copy()));
        },
    };
    let (u3, t3) = match match_cmp2(c2, Operator::LessEq) {
        Some(x) => x,
        None => {
            return Err(CheckerError::TermDoesNotMatch(t.deep_copy()));
        },
    };
    if !t1.term_eq(t2) {
        return Err(CheckerError::TermsNotEqual(t1.deep_copy(), t2.deep_copy()));
    }
    if !t2.term_eq(t3) {
        return Err(CheckerError::TermsNotEqual(t2.deep_copy(), t3.deep_copy()));
    }
    if !u1.term_eq(u2) {
        return Err(CheckerError::TermsNotEqual(u1.deep_copy(), u2.deep_copy()));
    }
    if !u2.term_eq(u3) {
        return Err(CheckerError::TermsNotEqual(u2.deep_copy(), u3.deep_copy()));
    }
    Ok(())
}

/// A valid `la_disequality` conclusion: one term of the shape
/// `(or (= t1 t2) (not (<= t1 t2)) (not (<= t2 t1)))` with identical
/// `t1`/`t2` positions.
pub open spec fn spec_la_disequality_valid(t: TermV) -> bool {
    match t {
        TermV::Op(op0, args) => op0 == Operator::Or && args.len() == 3 && (match (
            spec_cmp2(args[0], Operator::Equals),
            spec_not_cmp2(args[1], Operator::LessEq),
            spec_not_cmp2(args[2], Operator::LessEq),
        ) {
            (Some((t1, t2)), Some((t1b, t2b)), Some((t2c, t1c))) => t1 == t1b && t1b == t1c && t2
                == t2b && t2b == t2c,
            _ => false,
        }),
        _ => false,
    }
}

/// The `la_disequality` rule: two terms are equal or one of the two
/// opposite non-strict bounds fails.
pub fn la_disequality(conclusion: &Vec<Term>) -> (r: RuleResult)
    ensures
        r is Ok <==> conclusion@.len() == 1 && spec_la_disequality_valid(
            terms_view(conclusion@)[0],
        ),
        conclusion@.len() != 1 ==> (r matches Err(CheckerError::ClauseLengthMismatch(e, a)) && e
            == 1 && a == conclusion@.len()),
{
    proof {
        lemma_terms_view_index(conclusion@);
    }
    if conclusion.len() != 1 {
        return Err(CheckerError::ClauseLengthMismatch(1, conclusion.len()));
    }
    let t = &conclusion[0];
    let (op0, args) = match as_op(t) {
        Some(x) => x,
        None => {
            return Err(CheckerError::TermDoesNotMatch(t.deep_copy()));
        },
    };
    proof {
        lemma_terms_view_index(args@);
    }
    if !(op0 == Operator::Or && args.len() == 3) {
        return Err(CheckerError::TermDoesNotMatch(t.deep_copy()));
    }
    let (t1, t2) = match match_cmp2(&args[0], Operator::Equals) {
        Some(x) => x,
        None => {
            return Err(CheckerError::TermDoesNotMatch(t.deep_copy()));
        },
    };
    let (t1b, t2b) = match match_not_cmp2(&args[1], Operator::LessEq) {
        Some(x) => x,
        None => {
            return Err(CheckerError::TermDoesNotMatch(t.deep_copy()));
        },
    };
    let (t2c, t1c) = match match_not_cmp2(&args[2], Operator::LessEq) {
        Some(x) => x,
        None => {
            return Err(CheckerError::TermDoesNotMatch(t.deep_copy()));
        },
    };
    if !t1.term_eq(t1b) {
        return Err(CheckerError::TermsNotEqual(t1.deep_copy(), t1b.deep_copy()));
    }
    if !t1b.term_eq(t1c) {
        return Err(CheckerError::TermsNotEqual(t1b.deep_copy(), t1c.deep_copy()));
    }
    if !t2.term_eq(t2b) {
        return Err(CheckerError::TermsNotEqual(t2.deep_copy(), t2b.deep_copy()));
    }
    if !t2b.term_eq(t2c) {
        return Err(CheckerError::TermsNotEqual(t2b.deep_copy(), t2c.deep_copy()));
    }
    Ok(())
}

/// Both terms read as signed numbers, the first strictly below the second.
pub open spec fn spec_value_lt(a: TermV, b: TermV) -> bool {
    &&& crate::terms::spec_as_signed_number(a) is Some
    &&& crate::terms::spec_as_signed_number(b) is Some
    &&& crate::terms::spec_as_signed_number(a).unwrap().spec_lt(
        crate::terms::spec_as_signed_number(b).unwrap(),
    )
}

/// Both terms read as signed numbers, the first at most the second.
pub open spec fn spec_value_le(a: TermV, b: TermV) -> bool {
    &&& crate::terms::spec_as_signed_number(a) is Some
    &&& crate::terms::spec_as_signed_number(b) is Some
    &&& crate::terms::spec_as_signed_number(a).unwrap().spec_le(
        crate::terms::spec_as_signed_number(b).unwrap(),
    )
}

fn assert_less_than(a: &Term, b: &Term) -> (r: RuleResult)
    requires
        term_wf(a@),
        term_wf(b@),
    ensures
        r is Ok <==> spec_value_lt(a@, b@),
        crate::terms::spec_as_signed_number(a@) is None ==> (r matches Err(
            CheckerError::ExpectedAnyNumber(t),
        ) && t@ == a@),
        (crate::terms::spec_as_signed_number(a@) is Some && crate::terms::spec_as_signed_number(
            b@,
        ) is None) ==> (r matches Err(CheckerError::ExpectedAnyNumber(t)) && t@ == b@),
        (crate::terms::spec_as_signed_number(a@) is Some && crate::terms::spec_as_signed_number(
            b@,
        ) is Some && !spec_value_lt(a@, b@)) ==> (r matches Err(
            CheckerError::LinearArithmetic(LinearArithmeticError::ExpectedLessThan(x, y)),
        ) && x@ == a@ && y@ == b@),
{
    let va = match a.as_signed_number() {
        Some(v) => v,
        None => {
            return Err(CheckerError::ExpectedAnyNumber(a.deep_copy()));
        },
    };
    let vb = match b.as_signed_number() {
        Some(v) => v,
        None => {
            return Err(CheckerError::ExpectedAnyNumber(b.deep_copy()));
        },
    };
    proof {
        lemma_signed_number_wf(a@);
        lemma_signed_number_wf(b@);
    }
    if va.lt(&vb) {
        Ok(())
    } else {
        Err(
            CheckerError::LinearArithmetic(
                LinearArithmeticError::ExpectedLessThan(a.deep_copy(), b.deep_copy()),
            ),
        )
    }
}

fn assert_less_eq(a: &Term, b: &Term) -> (r: RuleResult)
    requires
        term_wf(a@),
        term_wf(b@),
    ensures
        r is Ok <==> spec_value_le(a@, b@),
        crate::terms::spec_as_signed_number(a@) is None ==> (r matches Err(
            CheckerError::ExpectedAnyNumber(t),
        ) && t@ == a@),
        (crate::terms::spec_as_signed_number(a@) is Some && crate::terms::spec_as_signed_number(
            b@,
        ) is None) ==> (r matches Err(CheckerError::ExpectedAnyNumber(t)) && t@ == b@),
        (crate::terms::spec_as_signed_number(a@) is Some && crate::terms::spec_as_signed_number(
            b@,
        ) is Some && !spec_value_le(a@, b@)) ==> (r matches Err(
            CheckerError::LinearArithmetic(LinearArithmeticError::ExpectedLessEq(x, y)),
        ) && x@ == a@ && y@ == b@),
{
    let va = match a.as_signed_number() {
        Some(v) => v,
        None => {
            return Err(CheckerError::ExpectedAnyNumber(a.deep_copy()));
        },
    };
    let vb = match b.as_signed_number() {
        Some(v) => v,
        None => {
            return Err(CheckerError::ExpectedAnyNumber(b.deep_copy()));
        },
    };
    proof {
        lemma_signed_number_wf(a@);
        lemma_signed_number_wf(b@);
    }
    if va.le(&vb) {
        Ok(())
    } else {
        Err(
            CheckerError::LinearArithmetic(
                LinearArithmeticError::ExpectedLessEq(a.deep_copy(), b.deep_copy()),
            ),
        )
    }
}

/// A signed number read from a well-formed term is well-formed.
proof fn lemma_signed_number_wf(t: TermV)
    requires
        term_wf(t),
    ensures
        crate::terms::spec_as_signed_number(t) matches Some(q) ==> q.wf(),
{
    if let TermV::Op(op, args) = t {
        if args.len() >= 1 {
            assert(term_wf(args[0]));
        }
    }
}

/// The second, binary-`or` form of `la_tautology`: five shapes over one
/// variable and two bounds, each with its required relation between the
/// bounds. The first shape that fits decides.
pub open spec fn spec_tautology_second(first: TermV, second: TermV) -> bool {
    if spec_not_cmp2(first, Operator::LessEq) is Some && spec_cmp2(second, Operator::LessEq)
        is Some {
        let (s1, d1) = spec_not_cmp2(first, Operator::LessEq).unwrap();
        let (s2, d2) = spec_cmp2(second, Operator::LessEq).unwrap();
        s1 == s2 && spec_value_le(d1, d2)
    } else if spec_cmp2(first, Operator::LessEq) is Some && spec_not_cmp2(
        second,
        Operator::LessEq,
    ) is Some {
        let (s1, d1) = spec_cmp2(first, Operator::LessEq).unwrap();
        let (s2, d2) = spec_not_cmp2(second, Operator::LessEq).unwrap();
        s1 == s2 && d1 == d2
    } else if spec_not_cmp2(first, Operator::GreaterEq) is Some && spec_cmp2(
        second,
        Operator::GreaterEq,
    ) is Some {
        let (s1, d1) = spec_not_cmp2(first, Operator::GreaterEq).unwrap();
        let (s2, d2) = spec_cmp2(second, Operator::GreaterEq).unwrap();
        s1 == s2 && spec_value_le(d2, d1)
    } else if spec_cmp2(first, Operator::GreaterEq) is Some && spec_not_cmp2(
        second,
        Operator::GreaterEq,
    ) is Some {
        let (s1, d1) = spec_cmp2(first, Operator::GreaterEq).unwrap();
        let (s2, d2) = spec_not_cmp2(second, Operator::GreaterEq).unwrap();
        s1 == s2 && d1 == d2
    } else if spec_not_cmp2(first, Operator::LessEq) is Some && spec_not_cmp2(
        second,
        Operator::GreaterEq,
    ) is Some {
        let (s1, d1) = spec_not_cmp2(first, Operator::LessEq).unwrap();
        let (s2, d2) = spec_not_cmp2(second, Operator::GreaterEq).unwrap();
        s1 == s2 && spec_value_lt(d1, d2)
    } else {
        false
    }
}

/// The first form's collected disequality: the lone clause term negated,
/// its sides brought together with the constant moved right, and strict
/// directions flipped upward; nothing on a bad shape or a value out of
/// range.
pub open spec fn spec_tautology_first_result(t: TermV) -> Option<(Operator, LcV)> {
    match spec_negate_disequality(t) {
        Some((op, l, r)) => {
            if !(seq_merge_ok(l.0, neg_entries(r.0)) && Rational::fits(
                l.1.spec_add(r.1.spec_neg()).0,
                l.1.spec_add(r.1.spec_neg()).1,
            )) {
                None
            } else {
                let m = seq_merge(l.0, neg_entries(r.0));
                let c = Rational {
                    num: l.1.spec_add(r.1.spec_neg()).0 as i64,
                    den: l.1.spec_add(r.1.spec_neg()).1 as i64,
                };
                let moved = c.spec_neg();
                if op == Operator::LessThan {
                    Some((Operator::GreaterThan, (neg_entries(m), moved.spec_neg())))
                } else if op == Operator::LessEq {
                    Some((Operator::GreaterEq, (neg_entries(m), moved.spec_neg())))
                } else {
                    Some((op, (m, moved)))
                }
            }
        },
        None => None,
    }
}

/// The first form of `la_tautology`: negating the lone disequality and
/// collecting it on one side leaves no keyed term and a constant that
/// already refutes it.
pub open spec fn spec_tautology_first(t: TermV) -> bool {
    match spec_tautology_first_result(t) {
        Some((op, d)) => d.0.len() == 0 && (d.1.num > 0 || (op == Operator::GreaterThan
            && d.1.num == 0)),
        None => false,
    }
}

/// The variable and bound positions of the first bound shape,
/// `(not (<= s d1)) or (<= s d2)`, when the clause term fits it.
pub open spec fn spec_taut_case1(t: TermV) -> Option<(TermV, TermV, TermV, TermV)> {
    match spec_cmp2(t, Operator::Or) {
        Some((f, sec)) => match (
            spec_not_cmp2(f, Operator::LessEq),
            spec_cmp2(sec, Operator::LessEq),
        ) {
            (Some((s1, d1)), Some((s2, d2))) => Some((s1, d1, s2, d2)),
            _ => None,
        },
        None => None,
    }
}

/// The second shape, `(<= s d1) or (not (<= s d2))`.
pub open spec fn spec_taut_case2(t: TermV) -> Option<(TermV, TermV, TermV, TermV)> {
    match spec_cmp2(t, Operator::Or) {
        Some((f, sec)) => match (
            spec_cmp2(f, Operator::LessEq),
            spec_not_cmp2(sec, Operator::LessEq),
        ) {
            (Some((s1, d1)), Some((s2, d2))) => Some((s1, d1, s2, d2)),
            _ => None,
        },
        None => None,
    }
}

/// The third shape, `(not (>= s d1)) or (>= s d2)`.
pub open spec fn spec_taut_case3(t: TermV) -> Option<(TermV, TermV, TermV, TermV)> {
    match spec_cmp2(t, Operator::Or) {
        Some((f, sec)) => match (
            spec_not_cmp2(f, Operator::GreaterEq),
            spec_cmp2(sec, Operator::GreaterEq),
        ) {
            (Some((s1, d1)), Some((s2, d2))) => Some((s1, d1, s2, d2)),
            _ => None,
        },
        None => None,
    }
}

/// The fourth shape, `(>= s d1) or (not (>= s d2))`.
pub open spec fn spec_taut_case4(t: TermV) -> Option<(TermV, TermV, TermV, TermV)> {
    match spec_cmp2(t, Operator::Or) {
        Some((f, sec)) => match (
            spec_cmp2(f, Operator::GreaterEq),
            spec_not_cmp2(sec, Operator::GreaterEq),
        ) {
            (Some((s1, d1)), Some((s2, d2))) => Some((s1, d1, s2, d2)),
            _ => None,
        },
        None => None,
    }
}

/// The fifth shape, `(not (<= s d1)) or (not (>= s d2))`.
pub open spec fn spec_taut_case5(t: TermV) -> Option<(TermV, TermV, TermV, TermV)> {
    match spec_cmp2(t, Operator::Or) {
        Some((f, sec)) => match (
            spec_not_cmp2(f, Operator::LessEq),
            spec_not_cmp2(sec, Operator::GreaterEq),
        ) {
            (Some((s1, d1)), Some((s2, d2))) => Some((s1, d1, s2, d2)),
            _ => None,
        },
        None => None,
    }
}

/// Whether a binary `or` fits any of the five recognised bound shapes,
/// before the value conditions are checked.
pub open spec fn spec_tautology_case_shape(first: TermV, second: TermV) -> bool {
    ||| (spec_not_cmp2(first, Operator::LessEq) is Some && spec_cmp2(second, Operator::LessEq)
        is Some)
    ||| (spec_cmp2(first, Operator::LessEq) is Some && spec_not_cmp2(second, Operator::LessEq)
        is Some)
    ||| (spec_not_cmp2(first, Operator::GreaterEq) is Some && spec_cmp2(
        second,
        Operator::GreaterEq,
    ) is Some)
    ||| (spec_cmp2(first, Operator::GreaterEq) is Some && spec_not_cmp2(
        second,
        Operator::GreaterEq,
    ) is Some)
    ||| (spec_not_cmp2(first, Operator::LessEq) is Some && spec_not_cmp2(
        second,
        Operator::GreaterEq,
    ) is Some)
}

/// Whether a `la_tautology` step is valid: either a lone disequality whose
/// negation already refutes itself, or a binary `or` in one of the five
/// bound shapes.
pub open spec fn spec_la_tautology_accepts(t: TermV) -> bool {
    match spec_cmp2(t, Operator::Or) {
        Some((first, second)) => spec_tautology_second(first, second),
        None => spec_tautology_first(t),
    }
}

/// The `la_tautology` rule.
pub fn la_tautology(conclusion: &Vec<Term>) -> (r: RuleResult)
    requires
        forall|i: int|
            0 <= i < conclusion@.len() ==> term_wf(#[trigger] terms_view(conclusion@)[i])
                && no_empty_sub(terms_view(conclusion@)[i]),
    ensures
        r is Ok <==> conclusion@.len() == 1 && spec_la_tautology_accepts(
            terms_view(conclusion@)[0],
        ),
        conclusion@.len() != 1 ==> (r matches Err(CheckerError::ClauseLengthMismatch(e, a)) && e
            == 1 && a == conclusion@.len()),
        (conclusion@.len() == 1 && (spec_cmp2(terms_view(conclusion@)[0], Operator::Or) matches
            Some((f, sec)) && !spec_tautology_case_shape(f, sec))) ==> (r matches Err(
            CheckerError::LinearArithmetic(LinearArithmeticError::NotValidTautologyCase(t)),
        ) && t@ == terms_view(conclusion@)[0]),
        (conclusion@.len() == 1 && spec_cmp2(terms_view(conclusion@)[0], Operator::Or) is None && spec_diseq_shape(
            terms_view(conclusion@)[0],
        ) is None) ==> (r matches Err(
            CheckerError::LinearArithmetic(LinearArithmeticError::InvalidDisequalityOp(t)),
        ) && t@ == terms_view(conclusion@)[0]),
        (conclusion@.len() == 1 && spec_cmp2(terms_view(conclusion@)[0], Operator::Or) is None && (spec_diseq_shape(
            terms_view(conclusion@)[0],
        ) matches Some((op0, bargs)) && bargs.len() != 2)) ==> (r matches Err(
            CheckerError::LinearArithmetic(LinearArithmeticError::TooManyArgsInDisequality(t)),
        ) && t@ == terms_view(conclusion@)[0]),
        (conclusion@.len() == 1 && spec_cmp2(terms_view(conclusion@)[0], Operator::Or) is None && (spec_diseq_shape(
            terms_view(conclusion@)[0],
        ) matches Some((op0, bargs)) && bargs.len() == 2)
            && spec_tautology_first_result(terms_view(conclusion@)[0]) is None) ==> r == Err::<(), CheckerError>(
            CheckerError::ArithmeticOverflow,
        ),
        (conclusion@.len() == 1 && spec_cmp2(terms_view(conclusion@)[0], Operator::Or) is None
            && spec_tautology_first_result(terms_view(conclusion@)[0]) is Some && !spec_tautology_first(terms_view(conclusion@)[0])) ==> (r
            matches Err(
            CheckerError::LinearArithmetic(LinearArithmeticError::DisequalityIsNotTautology(o, lc)),
        ) && o == spec_tautology_first_result(terms_view(conclusion@)[0]).unwrap().0 && lc.entries()
            == spec_tautology_first_result(terms_view(conclusion@)[0]).unwrap().1.0 && lc.constant
            == spec_tautology_first_result(terms_view(conclusion@)[0]).unwrap().1.1),
        (conclusion@.len() == 1 && spec_taut_case1(terms_view(conclusion@)[0]) is Some && spec_taut_case1(terms_view(conclusion@)[0]).unwrap().0 != spec_taut_case1(terms_view(conclusion@)[0]).unwrap().2) ==> (r matches Err(
            CheckerError::TermsNotEqual(x, y),
        ) && x@ == spec_taut_case1(terms_view(conclusion@)[0]).unwrap().0 && y@ == spec_taut_case1(terms_view(conclusion@)[0]).unwrap().2),
        (conclusion@.len() == 1 && spec_taut_case1(terms_view(conclusion@)[0]) is Some && spec_taut_case1(terms_view(conclusion@)[0]).unwrap().0 == spec_taut_case1(terms_view(conclusion@)[0]).unwrap().2
            && crate::terms::spec_as_signed_number(spec_taut_case1(terms_view(conclusion@)[0]).unwrap().1) is None) ==> (r matches Err(
            CheckerError::ExpectedAnyNumber(t),
        ) && t@ == spec_taut_case1(terms_view(conclusion@)[0]).unwrap().1),
        (conclusion@.len() == 1 && spec_taut_case1(terms_view(conclusion@)[0]) is Some && spec_taut_case1(terms_view(conclusion@)[0]).unwrap().0 == spec_taut_case1(terms_view(conclusion@)[0]).unwrap().2
            && crate::terms::spec_as_signed_number(spec_taut_case1(terms_view(conclusion@)[0]).unwrap().1) is Some
            && crate::terms::spec_as_signed_number(spec_taut_case1(terms_view(conclusion@)[0]).unwrap().3) is None) ==> (r matches Err(
            CheckerError::ExpectedAnyNumber(t),
        ) && t@ == spec_taut_case1(terms_view(conclusion@)[0]).unwrap().3),
        (conclusion@.len() == 1 && spec_taut_case1(terms_view(conclusion@)[0]) is Some && spec_taut_case1(terms_view(conclusion@)[0]).unwrap().0 == spec_taut_case1(terms_view(conclusion@)[0]).unwrap().2
            && crate::terms::spec_as_signed_number(spec_taut_case1(terms_view(conclusion@)[0]).unwrap().1) is Some
            && crate::terms::spec_as_signed_number(spec_taut_case1(terms_view(conclusion@)[0]).unwrap().3) is Some && !spec_value_le(
            spec_taut_case1(terms_view(conclusion@)[0]).unwrap().1,
            spec_taut_case1(terms_view(conclusion@)[0]).unwrap().3,
        )) ==> (r matches Err(
            CheckerError::LinearArithmetic(LinearArithmeticError::ExpectedLessEq(x, y)),
        ) && x@ == spec_taut_case1(terms_view(conclusion@)[0]).unwrap().1 && y@ == spec_taut_case1(terms_view(conclusion@)[0]).unwrap().3),
        (conclusion@.len() == 1 && spec_taut_case3(terms_view(conclusion@)[0]) is Some && spec_taut_case3(terms_view(conclusion@)[0]).unwrap().0 != spec_taut_case3(terms_view(conclusion@)[0]).unwrap().2) ==> (r matches Err(
            CheckerError::TermsNotEqual(x, y),
        ) && x@ == spec_taut_case3(terms_view(conclusion@)[0]).unwrap().0 && y@ == spec_taut_case3(terms_view(conclusion@)[0]).unwrap().2),
        (conclusion@.len() == 1 && spec_taut_case3(terms_view(conclusion@)[0]) is Some && spec_taut_case3(terms_view(conclusion@)[0]).unwrap().0 == spec_taut_case3(terms_view(conclusion@)[0]).unwrap().2
            && crate::terms::spec_as_signed_number(spec_taut_case3(terms_view(conclusion@)[0]).unwrap().3) is None) ==> (r matches Err(
            CheckerError::ExpectedAnyNumber(t),
        ) && t@ == spec_taut_case3(terms_view(conclusion@)[0]).unwrap().3),
        (conclusion@.len() == 1 && spec_taut_case3(terms_view(conclusion@)[0]) is Some && spec_taut_case3(terms_view(conclusion@)[0]).unwrap().0 == spec_taut_case3(terms_view(conclusion@)[0]).unwrap().2
            && crate::terms::spec_as_signed_number(spec_taut_case3(terms_view(conclusion@)[0]).unwrap().3) is Some
            && crate::terms::spec_as_signed_number(spec_taut_case3(terms_view(conclusion@)[0]).unwrap().1) is None) ==> (r matches Err(
            CheckerError::ExpectedAnyNumber(t),
        ) && t@ == spec_taut_case3(terms_view(conclusion@)[0]).unwrap().1),
        (conclusion@.len() == 1 && spec_taut_case3(terms_view(conclusion@)[0]) is Some && spec_taut_case3(terms_view(conclusion@)[0]).unwrap().0 == spec_taut_case3(terms_view(conclusion@)[0]).unwrap().2
            && crate::terms::spec_as_signed_number(spec_taut_case3(terms_view(conclusion@)[0]).unwrap().3) is Some
            && crate::terms::spec_as_signed_number(spec_taut_case3(terms_view(conclusion@)[0]).unwrap().1) is Some && !spec_value_le(
            spec_taut_case3(terms_view(conclusion@)[0]).unwrap().3,
            spec_taut_case3(terms_view(conclusion@)[0]).unwrap().1,
        )) ==> (r matches Err(
            CheckerError::LinearArithmetic(LinearArithmeticError::ExpectedLessEq(x, y)),
        ) && x@ == spec_taut_case3(terms_view(conclusion@)[0]).unwrap().3 && y@ == spec_taut_case3(terms_view(conclusion@)[0]).unwrap().1),
        (conclusion@.len() == 1 && spec_taut_case5(terms_view(conclusion@)[0]) is Some && spec_taut_case5(terms_view(conclusion@)[0]).unwrap().0 != spec_taut_case5(terms_view(conclusion@)[0]).unwrap().2) ==> (r matches Err(
            CheckerError::TermsNotEqual(x, y),
        ) && x@ == spec_taut_case5(terms_view(conclusion@)[0]).unwrap().0 && y@ == spec_taut_case5(terms_view(conclusion@)[0]).unwrap().2),
        (conclusion@.len() == 1 && spec_taut_case5(terms_view(conclusion@)[0]) is Some && spec_taut_case5(terms_view(conclusion@)[0]).unwrap().0 == spec_taut_case5(terms_view(conclusion@)[0]).unwrap().2
            && crate::terms::spec_as_signed_number(spec_taut_case5(terms_view(conclusion@)[0]).unwrap().1) is None) ==> (r matches Err(
            CheckerError::ExpectedAnyNumber(t),
        ) && t@ == spec_taut_case5(terms_view(conclusion@)[0]).unwrap().1),
        (conclusion@.len() == 1 && spec_taut_case5(terms_view(conclusion@)[0]) is Some && spec_taut_case5(terms_view(conclusion@)[0]).unwrap().0 == spec_taut_case5(terms_view(conclusion@)[0]).unwrap().2
            && crate::terms::spec_as_signed_number(spec_taut_case5(terms_view(conclusion@)[0]).unwrap().1) is Some
            && crate::terms::spec_as_signed_number(spec_taut_case5(terms_view(conclusion@)[0]).unwrap().3) is None) ==> (r matches Err(
            CheckerError::ExpectedAnyNumber(t),
        ) && t@ == spec_taut_case5(terms_view(conclusion@)[0]).unwrap().3),
        (conclusion@.len() == 1 && spec_taut_case5(terms_view(conclusion@)[0]) is Some && spec_taut_case5(terms_view(conclusion@)[0]).unwrap().0 == spec_taut_case5(terms_view(conclusion@)[0]).unwrap().2
            && crate::terms::spec_as_signed_number(spec_taut_case5(terms_view(conclusion@)[0]).unwrap().1) is Some
            && crate::terms::spec_as_signed_number(spec_taut_case5(terms_view(conclusion@)[0]).unwrap().3) is Some && !spec_value_lt(
            spec_taut_case5(terms_view(conclusion@)[0]).unwrap().1,
            spec_taut_case5(terms_view(conclusion@)[0]).unwrap().3,
        )) ==> (r matches Err(
            CheckerError::LinearArithmetic(LinearArithmeticError::ExpectedLessThan(x, y)),
        ) && x@ == spec_taut_case5(terms_view(conclusion@)[0]).unwrap().1 && y@ == spec_taut_case5(terms_view(conclusion@)[0]).unwrap().3),
        (conclusion@.len() == 1 && spec_taut_case2(terms_view(conclusion@)[0]) is Some && spec_taut_case2(terms_view(conclusion@)[0]).unwrap().0 != spec_taut_case2(terms_view(conclusion@)[0]).unwrap().2) ==> (r matches Err(
            CheckerError::TermsNotEqual(x, y),
        ) && x@ == spec_taut_case2(terms_view(conclusion@)[0]).unwrap().0 && y@ == spec_taut_case2(terms_view(conclusion@)[0]).unwrap().2),
        (conclusion@.len() == 1 && spec_taut_case2(terms_view(conclusion@)[0]) is Some && spec_taut_case2(terms_view(conclusion@)[0]).unwrap().0 == spec_taut_case2(terms_view(conclusion@)[0]).unwrap().2 && spec_taut_case2(terms_view(conclusion@)[0]).unwrap().1 != spec_taut_case2(terms_view(conclusion@)[0]).unwrap().3) ==> (r
            matches Err(CheckerError::TermsNotEqual(x, y)) && x@ == spec_taut_case2(terms_view(conclusion@)[0]).unwrap().1 && y@
            == spec_taut_case2(terms_view(conclusion@)[0]).unwrap().3),
        (conclusion@.len() == 1 && spec_taut_case4(terms_view(conclusion@)[0]) is Some && spec_taut_case4(terms_view(conclusion@)[0]).unwrap().0 != spec_taut_case4(terms_view(conclusion@)[0]).unwrap().2) ==> (r matches Err(
            CheckerError::TermsNotEqual(x, y),
        ) && x@ == spec_taut_case4(terms_view(conclusion@)[0]).unwrap().0 && y@ == spec_taut_case4(terms_view(conclusion@)[0]).unwrap().2),
        (conclusion@.len() == 1 && spec_taut_case4(terms_view(conclusion@)[0]) is Some && spec_taut_case4(terms_view(conclusion@)[0]).unwrap().0 == spec_taut_case4(terms_view(conclusion@)[0]).unwrap().2 && spec_taut_case4(terms_view(conclusion@)[0]).unwrap().1 != spec_taut_case4(terms_view(conclusion@)[0]).unwrap().3) ==> (r
            matches Err(CheckerError::TermsNotEqual(x, y)) && x@ == spec_taut_case4(terms_view(conclusion@)[0]).unwrap().1 && y@
            == spec_taut_case4(terms_view(conclusion@)[0]).unwrap().3),
{
    proof {
        lemma_terms_view_index(conclusion@);
    }
    if conclusion.len() != 1 {
        return Err(CheckerError::ClauseLengthMismatch(1, conclusion.len()));
    }
    let t = &conclusion[0];
    if let Some((first, second)) = match_cmp2(t, Operator::Or) {
        proof {
            if let Term::Op(op0, args0) = t {
                lemma_terms_view_index(args0@);
                assert(term_wf(first@) && term_wf(second@));
            }
        }
        if let (Some((s1, d1)), Some((s2, d2))) = (
            match_not_cmp2(first, Operator::LessEq),
            match_cmp2(second, Operator::LessEq),
        ) {
            if !s1.term_eq(s2) {
                return Err(CheckerError::TermsNotEqual(s1.deep_copy(), s2.deep_copy()));
            }
            proof {
                lemma_cmp2_sides_wf(first@, Operator::LessEq, true);
                lemma_cmp2_sides_wf(second@, Operator::LessEq, false);
            }
            assert_less_eq(d1, d2)
        } else if let (Some((s1, d1)), Some((s2, d2))) = (
            match_cmp2(first, Operator::LessEq),
            match_not_cmp2(second, Operator::LessEq),
        ) {
            if !s1.term_eq(s2) {
                return Err(CheckerError::TermsNotEqual(s1.deep_copy(), s2.deep_copy()));
            }
            if d1.term_eq(d2) {
                Ok(())
            } else {
                Err(CheckerError::TermsNotEqual(d1.deep_copy(), d2.deep_copy()))
            }
        } else if let (Some((s1, d1)), Some((s2, d2))) = (
            match_not_cmp2(first, Operator::GreaterEq),
            match_cmp2(second, Operator::GreaterEq),
        ) {
            if !s1.term_eq(s2) {
                return Err(CheckerError::TermsNotEqual(s1.deep_copy(), s2.deep_copy()));
            }
            proof {
                lemma_cmp2_sides_wf(first@, Operator::GreaterEq, true);
                lemma_cmp2_sides_wf(second@, Operator::GreaterEq, false);
            }
            assert_less_eq(d2, d1)
        } else if let (Some((s1, d1)), Some((s2, d2))) = (
            match_cmp2(first, Operator::GreaterEq),
            match_not_cmp2(second, Operator::GreaterEq),
        ) {
            if !s1.term_eq(s2) {
                return Err(CheckerError::TermsNotEqual(s1.deep_copy(), s2.deep_copy()));
            }
            if d1.term_eq(d2) {
                Ok(())
            } else {
                Err(CheckerError::TermsNotEqual(d1.deep_copy(), d2.deep_copy()))
            }
        } else if let (Some((s1, d1)), Some((s2, d2))) = (
            match_not_cmp2(first, Operator::LessEq),
            match_not_cmp2(second, Operator::GreaterEq),
        ) {
            if !s1.term_eq(s2) {
                return Err(CheckerError::TermsNotEqual(s1.deep_copy(), s2.deep_copy()));
            }
            proof {
                lemma_cmp2_sides_wf(first@, Operator::LessEq, true);
                lemma_cmp2_sides_wf(second@, Operator::GreaterEq, true);
            }
            assert_less_than(d1, d2)
        } else {
            Err(
                CheckerError::LinearArithmetic(
                    LinearArithmeticError::NotValidTautologyCase(t.deep_copy()),
                ),
            )
        }
    } else {
        let (mut op, s1, s2) = match negate_disequality(t) {
            Ok(x) => x,
            Err(e) => {
                return Err(e);
            },
        };
        let mut disequality = match s1.sub(s2) {
            Ok(d) => d,
            Err(()) => {
                return Err(CheckerError::ArithmeticOverflow);
            },
        };
        let c0 = disequality.constant;
        disequality.constant = c0.neg();
        if op == Operator::LessThan {
            disequality.neg();
            op = Operator::GreaterThan;
        } else if op == Operator::LessEq {
            disequality.neg();
            op = Operator::GreaterEq;
        }
        proof {
            crate::linear_comb::lemma_entries_view_index(disequality.terms@);
        }
        let is_true = disequality.terms.len() == 0 && (disequality.constant.num > 0 || (op
            == Operator::GreaterThan && disequality.constant.num == 0));
        if is_true {
            Ok(())
        } else {
            Err(
                CheckerError::LinearArithmetic(
                    LinearArithmeticError::DisequalityIsNotTautology(op, disequality),
                ),
            )
        }
    }
}

/// The sides of a comparison inside a well-formed term are well-formed.
proof fn lemma_cmp2_sides_wf(t: TermV, op: Operator, negated: bool)
    requires
        term_wf(t),
    ensures
        !negated ==> (spec_cmp2(t, op) matches Some((a, b)) ==> term_wf(a) && term_wf(b)),
        negated ==> (spec_not_cmp2(t, op) matches Some((a, b)) ==> term_wf(a) && term_wf(b)),
{
    if let TermV::Op(op0, args0) = t {
        assert(forall|i: int| 0 <= i < args0.len() ==> term_wf(#[trigger] args0[i]));
        if args0.len() >= 1 {
            if let TermV::Op(op1, args1) = args0[0] {
                assert(forall|i: int| 0 <= i < args1.len() ==> term_wf(#[trigger] args1[i]));
            }
        }
    }
}

/// The `lia_generic` rule: the coefficients that would let the checker sum
/// the disequalities are not given, so the step is accepted as it stands.
#[allow(unused_variables)]
pub fn lia_generic(conclusion: &Vec<Term>, args: &Vec<crate::ast::ProofArg>) -> (r: RuleResult)
    ensures
        r is Ok,
{
    Ok(())
}

/// A processed clause term has a two-sided disequality shape.
proof fn lemma_process_shape(phi: TermV, a: Rational)
    requires
        spec_process(phi, a) is Some,
    ensures
        spec_diseq_shape(phi) matches Some((op, args)) && args.len() == 2,
{
}

/// The sides a disequality shape exposes are themselves well-formed terms
/// with no empty subtraction.
proof fn lemma_sub_args_wf(t: TermV, args: Seq<TermV>)
    requires
        term_wf(t),
        no_empty_sub(t),
        spec_diseq_shape(t) matches Some((op, a)) && a == args,
    ensures
        forall|i: int| 0 <= i < args.len() ==> term_wf(#[trigger] args[i]),
        forall|i: int| 0 <= i < args.len() ==> no_empty_sub(#[trigger] args[i]),
{
    match spec_remove_negation(t) {
        Some(inner) => {
            if let TermV::Op(op0, args0) = t {
                assert(term_wf(args0[0]) && no_empty_sub(args0[0]));
                assert(inner == args0[0]);
                if let TermV::Op(op1, args1) = inner {
                    assert(forall|i: int|
                        0 <= i < args1.len() ==> term_wf(#[trigger] args1[i]) && no_empty_sub(
                            args1[i],
                        ));
                }
            }
        },
        None => {
            if let TermV::Op(op0, args0) = t {
                assert(forall|i: int|
                    0 <= i < args0.len() ==> term_wf(#[trigger] args0[i]) && no_empty_sub(
                        args0[i],
                    ));
            }
        },
    }
}

} // verus!
