use vstd::prelude::*;

use crate::rational::Rational;

verus! {

broadcast use vstd::std_specs::vec::group_vec_axioms, vstd::seq::group_seq_axioms;

/// The closed set of operators a term application can carry.
#[derive(Clone, Copy, Debug, PartialEq, Eq, Structural, Hash)]
pub enum Operator {
    Not,
    Implies,
    And,
    Or,
    Equals,
    Distinct,
    Ite,
    Add,
    Sub,
    Mult,
    Div,
    LessThan,
    GreaterThan,
    LessEq,
    GreaterEq,
}

/// An SMT term: a constant literal, an identifier from the prelude, an
/// operator application, or a function application. Identifiers are plain
/// numbers; the surrounding program keeps the mapping from source names.
pub enum Term {
    True,
    False,
    Int(i64),
    Rat(Rational),
    Var(u64),
    Op(Operator, Vec<Term>),
    App(u64, Vec<Term>),
}

/// The mathematical shape of a term: the same tree with sequences for
/// argument lists, so that equality of shapes is plain structural equality.
pub enum TermV {
    True,
    False,
    Int(i64),
    Rat(Rational),
    Var(u64),
    Op(Operator, Seq<TermV>),
    App(u64, Seq<TermV>),
}

pub open spec fn term_view(t: Term) -> TermV
    decreases t,
{
    match t {
        Term::True => TermV::True,
        Term::False => TermV::False,
        Term::Int(n) => TermV::Int(n),
        Term::Rat(r) => TermV::Rat(r),
        Term::Var(v) => TermV::Var(v),
        Term::Op(op, args) => TermV::Op(op, terms_view(args@)),
        Term::App(f, args) => TermV::App(f, terms_view(args@)),
    }
}

pub open spec fn terms_view(s: Seq<Term>) -> Seq<TermV>
    decreases s,
{
    if s.len() == 0 {
        Seq::empty()
    } else {
        terms_view(s.drop_last()).push(term_view(s.last()))
    }
}

/// Each element of `terms_view` is the view of the element in place.
pub proof fn lemma_terms_view_index(s: Seq<Term>)
    ensures
        terms_view(s).len() == s.len(),
        forall|i: int| 0 <= i < s.len() ==> terms_view(s)[i] == term_view(#[trigger] s[i]),
    decreases s.len(),
{
    if s.len() > 0 {
        lemma_terms_view_index(s.drop_last());
        assert forall|i: int| 0 <= i < s.len() implies terms_view(s)[i] == term_view(
            #[trigger] s[i],
        ) by {
            if i < s.len() - 1 {
                assert(s.drop_last()[i] == s[i]);
            } else {
                assert(s[i] == s.last());
            }
        }
    }
}

impl View for Term {
    type V = TermV;

    open spec fn view(&self) -> TermV {
        term_view(*self)
    }
}

/// Every numeric literal in the term leaves room for negation: rational
/// literals have a positive denominator and integer literals are above
/// `i64::MIN`.
pub open spec fn term_wf(t: TermV) -> bool
    decreases t,
{
    match t {
        TermV::Int(n) => n > i64::MIN,
        TermV::Rat(r) => r.wf(),
        TermV::Op(_, args) => forall|i: int| 0 <= i < args.len() ==> term_wf(#[trigger] args[i]),
        TermV::App(_, args) => forall|i: int| 0 <= i < args.len() ==> term_wf(#[trigger] args[i]),
        _ => true,
    }
}

/// The numeric value of a term that is a literal: an integer literal is read
/// over the denominator one, a rational literal as itself.
pub open spec fn spec_as_fraction(t: TermV) -> Option<Rational> {
    match t {
        TermV::Int(n) => Some(Rational { num: n, den: 1int as i64 }),
        TermV::Rat(r) => Some(r),
        _ => None,
    }
}

/// As `spec_as_fraction`, but also reading one leading unary minus.
pub open spec fn spec_as_signed_number(t: TermV) -> Option<Rational> {
    if spec_as_fraction(t) is Some {
        spec_as_fraction(t)
    } else {
        match t {
            TermV::Op(Operator::Sub, args) => {
                if args.len() == 1 && spec_as_fraction(args[0]) is Some {
                    Some(spec_as_fraction(args[0]).unwrap().spec_neg())
                } else {
                    None
                }
            },
            _ => None,
        }
    }
}

/// The single argument of a negation term, if the term is one.
pub open spec fn spec_remove_negation(t: TermV) -> Option<TermV> {
    match t {
        TermV::Op(Operator::Not, args) => {
            if args.len() == 1 {
                Some(args[0])
            } else {
                None
            }
        },
        _ => None,
    }
}

impl Term {
    /// A deep copy of the term, equal in shape to the original.
    pub fn deep_copy(&self) -> (r: Term)
        ensures
            r@ == self@,
        decreases *self,
    {
        match self {
            Term::True => Term::True,
            Term::False => Term::False,
            Term::Int(n) => Term::Int(*n),
            Term::Rat(q) => Term::Rat(*q),
            Term::Var(v) => Term::Var(*v),
            Term::Op(op, args) => Term::Op(*op, deep_copy_args(args)),
            Term::App(f, args) => Term::App(*f, deep_copy_args(args)),
        }
    }

    /// The child of a negation, or nothing when the term is not one.
    pub fn remove_negation(&self) -> (r: Option<&Term>)
        ensures
            r matches Some(t) ==> spec_remove_negation(self@) == Some(t@),
            r is None ==> spec_remove_negation(self@) is None,
    {
        proof {
            if let Term::Op(op, args) = self {
                lemma_terms_view_index(args@);
            }
        }
        match self {
            Term::Op(op, args) => {
                if *op == Operator::Not && args.len() == 1 {
                    Some(&args[0])
                } else {
                    None
                }
            },
            _ => None,
        }
    }

    /// The term's value when it is a numeric literal.
    pub fn as_fraction(&self) -> (r: Option<Rational>)
        ensures
            r == spec_as_fraction(self@),
    {
        match self {
            Term::Int(n) => Some(Rational { num: *n, den: 1 }),
            Term::Rat(q) => Some(*q),
            _ => None,
        }
    }

    /// The term's value when it is a literal or one leading unary minus
    /// around a literal.
    pub fn as_signed_number(&self) -> (r: Option<Rational>)
        requires
            term_wf(self@),
        ensures
            r == spec_as_signed_number(self@),
    {
        proof {
            if let Term::Op(op, args) = self {
                lemma_terms_view_index(args@);
            }
        }
        match self {
            Term::Int(n) => Some(Rational { num: *n, den: 1 }),
            Term::Rat(q) => Some(*q),
            Term::Op(op, args) => {
                if *op == Operator::Sub && args.len() == 1 {
                    proof {
                        assert(terms_view(args@)[0] == term_view(args@[0]));
                        assert(term_wf(terms_view(args@)[0]));
                    }
                    match args[0].as_fraction() {
                        Some(q) => Some(q.neg()),
                        None => None,
                    }
                } else {
                    None
                }
            },
            _ => None,
        }
    }

    /// Structural equality of terms, decided by walking both trees.
    pub fn term_eq(&self, other: &Term) -> (r: bool)
        ensures
            r == (self@ == other@),
        decreases *self,
    {
        match (self, other) {
            (Term::True, Term::True) => true,
            (Term::False, Term::False) => true,
            (Term::Int(x), Term::Int(y)) => x == y,
            (Term::Rat(x), Term::Rat(y)) => x == y,
            (Term::Var(x), Term::Var(y)) => x == y,
            (Term::Op(op1, args1), Term::Op(op2, args2)) => {
                *op1 == *op2 && args_eq(args1, args2)
            },
            (Term::App(f1, args1), Term::App(f2, args2)) => {
                *f1 == *f2 && args_eq(args1, args2)
            },
            _ => false,
        }
    }
}

/// Term views after a push are the old views plus the new term's.
pub proof fn lemma_terms_view_push(s: Seq<Term>, t: Term)
    ensures
        terms_view(s.push(t)) =~= terms_view(s).push(t@),
{
    lemma_terms_view_index(s);
    lemma_terms_view_index(s.push(t));
    let l = terms_view(s.push(t));
    let r = terms_view(s).push(t@);
    assert(l.len() == r.len());
    assert forall|i: int| 0 <= i < l.len() implies l[i] == r[i] by {
        if i < s.len() {
            assert(s.push(t)[i] == s[i]);
        } else {
            assert(s.push(t)[i] == t);
        }
    }
}

/// A deep copy of an argument list, element by element.
fn deep_copy_args(a: &Vec<Term>) -> (r: Vec<Term>)
    ensures
        terms_view(r@) == terms_view(a@),
    decreases *a,
{
    let ghost av = terms_view(a@);
    proof {
        lemma_terms_view_index(a@);
    }
    let mut out: Vec<Term> = Vec::new();
    let n = a.len();
    let mut i: usize = 0;
    while i < n
        invariant
            n == a@.len(),
            0 <= i <= n,
            av == terms_view(a@),
            av.len() == n,
            forall|j: int| 0 <= j < a@.len() ==> av[j] == term_view(#[trigger] a@[j]),
            out@.len() == i,
            forall|j: int| 0 <= j < i ==> term_view(#[trigger] out@[j]) == av[j],
        decreases n - i,
    {
        let c = a[i].deep_copy();
        out.push(c);
        i += 1;
    }
    proof {
        lemma_terms_view_index(out@);
        assert forall|j: int| 0 <= j < n implies terms_view(out@)[j] == av[j] by {
            assert(term_view(out@[j]) == av[j]);
        }
        assert(terms_view(out@) =~= av);
    }
    out
}

/// Element-wise structural equality of two argument lists.
fn args_eq(a: &Vec<Term>, b: &Vec<Term>) -> (r: bool)
    ensures
        r == (terms_view(a@) == terms_view(b@)),
    decreases *a,
{
    let ghost av = terms_view(a@);
    let ghost bv = terms_view(b@);
    proof {
        lemma_terms_view_index(a@);
        lemma_terms_view_index(b@);
    }
    if a.len() != b.len() {
        assert(av.len() != bv.len());
        return false;
    }
    let n = a.len();
    let mut i: usize = 0;
    while i < n
        invariant
            n == a@.len() == b@.len(),
            0 <= i <= n,
            av == terms_view(a@),
            bv == terms_view(b@),
            av.len() == bv.len() == n,
            forall|j: int| 0 <= j < a@.len() ==> av[j] == term_view(#[trigger] a@[j]),
            forall|j: int| 0 <= j < b@.len() ==> bv[j] == term_view(#[trigger] b@[j]),
            forall|j: int| 0 <= j < i ==> av[j] == bv[j],
        decreases n - i,
    {
        if !a[i].term_eq(&b[i]) {
            assert(av[i as int] != bv[i as int]);
            return false;
        }
        i += 1;
    }
    assert(av =~= bv);
    true
}

} // verus!
