use vstd::prelude::*;

use crate::rational::Rational;
use crate::terms::{Operator, Term};

verus! {

/// Failures specific to the linear-arithmetic rules.
pub enum LinearArithmeticError {
    /// The term is not a disequality the rules know how to negate.
    InvalidDisequalityOp(Term),
    /// The disequality has more or fewer than two sides.
    TooManyArgsInDisequality(Term),
    /// After accumulation the disequality is not contradictory.
    DisequalityIsNotContradiction(Operator, Rational),
    /// The lone disequality is not tautological; it is carried along.
    DisequalityIsNotTautology(Operator, crate::linear_comb::LinearComb),
    /// The first value was expected to be less than the second.
    ExpectedLessThan(Term, Term),
    /// The first value was expected to be at most the second.
    ExpectedLessEq(Term, Term),
    /// The clause fits none of the recognised tautology shapes.
    NotValidTautologyCase(Term),
}

/// Failures a rule check can report.
pub enum CheckerError {
    /// The clause has the wrong number of terms: expected, then actual.
    ClauseLengthMismatch(usize, usize),
    /// The step carries the wrong number of arguments: expected, then
    /// actual.
    WrongNumberOfArgs(usize, usize),
    /// The term does not have the shape the rule demands.
    TermDoesNotMatch(Term),
    /// Two positions that must hold the identical term do not.
    TermsNotEqual(Term, Term),
    /// The term was expected to be a numeric literal.
    ExpectedAnyNumber(Term),
    /// A named argument stood where a plain term argument was expected;
    /// its name and value are carried along.
    ExpectedTermStyleArg(String, Term),
    /// The assumed term is not among the premises in scope.
    AssumeNotFound,
    /// The step names a rule the registry does not know.
    UnknownRule(String),
    /// An exact rational left the fixed-width range the checker computes
    /// in.
    ArithmeticOverflow,
    /// A linear-arithmetic failure.
    LinearArithmetic(LinearArithmeticError),
}

/// The outcome of checking one rule application.
pub type RuleResult = Result<(), CheckerError>;

} // verus!
