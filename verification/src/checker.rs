use vstd::prelude::*;

use vstd::string::StringExecFns;

use crate::ast::{command_view, CommandV, Proof, ProofCommand, StepV};
use crate::terms::{
    lemma_terms_view_index, spec_remove_negation, terms_view, Operator, Term, TermV,
};

verus! {

broadcast use vstd::std_specs::vec::group_vec_axioms, vstd::seq::group_seq_axioms;

/// The polarities with which a term was met across the premises.
#[derive(Clone, Copy, Debug, PartialEq, Eq, Structural)]
pub enum Polarity {
    Positive,
    Negative,
    Both,
}

/// The shapes of a run of borrowed proof commands.
pub open spec fn refs_view(s: Seq<&ProofCommand>) -> Seq<CommandV>
    decreases s.len(),
{
    if s.len() == 0 {
        Seq::empty()
    } else {
        refs_view(s.drop_last()).push(command_view(*s.last()))
    }
}

pub proof fn lemma_refs_view_index(s: Seq<&ProofCommand>)
    ensures
        refs_view(s).len() == s.len(),
        forall|i: int| 0 <= i < s.len() ==> #[trigger] refs_view(s)[i] == command_view(*s[i]),
    decreases s.len(),
{
    if s.len() > 0 {
        lemma_refs_view_index(s.drop_last());
        assert forall|i: int| 0 <= i < s.len() implies #[trigger] refs_view(s)[i] == command_view(
            *s[i],
        ) by {
            if i < s.len() - 1 {
                assert(s.drop_last()[i] == s[i]);
            } else {
                assert(s[i] == s.last());
            }
        }
    }
}

/// A term normalised to its positive form: the child of a single `not`,
/// or the term itself; the flag says whether it stood positive.
pub open spec fn spec_norm(t: TermV) -> (TermV, bool) {
    match spec_remove_negation(t) {
        Some(inner) => (inner, false),
        None => (t, true),
    }
}

/// The clause a premise contributes: an assumption is one term, a step its
/// clause; a nested sub-proof contributes nothing here.
pub open spec fn command_clause(c: CommandV) -> Seq<TermV> {
    match c {
        CommandV::Assume { id, term } => seq![term],
        CommandV::Step(s) => s.clause,
        CommandV::Subproof(_) => Seq::empty(),
    }
}

/// Whether some premise term normalises to `t` with the given polarity.
pub open spec fn has_polarity(prems: Seq<CommandV>, t: TermV, pos: bool) -> bool {
    exists|i: int, j: int|
        #![trigger command_clause(prems[i])[j]]
        0 <= i < prems.len() && 0 <= j < command_clause(prems[i]).len() && spec_norm(
            command_clause(prems[i])[j],
        ) == (t, pos)
}

/// The polarity the premises record for `t`, if any.
pub open spec fn spec_polarity_of(prems: Seq<CommandV>, t: TermV) -> Option<Polarity> {
    if has_polarity(prems, t, true) && has_polarity(prems, t, false) {
        Some(Polarity::Both)
    } else if has_polarity(prems, t, true) {
        Some(Polarity::Positive)
    } else if has_polarity(prems, t, false) {
        Some(Polarity::Negative)
    } else {
        None
    }
}

/// Whether a resolution step is valid: the clause holds, once each and in
/// its recorded polarity, exactly those terms that the premises mention in
/// a single polarity. This is exact multiset equality: a clause that
/// repeats one surviving literal while dropping another is rejected, where
/// a length-only comparison would let the repetition mask the gap and
/// accept an invalid resolvent.
pub open spec fn spec_resolution_accepts(clause: Seq<TermV>, prems: Seq<CommandV>) -> bool {
    &&& forall|i: int|
        0 <= i < clause.len() ==> spec_polarity_of(prems, spec_norm(#[trigger] clause[i]).0)
            == Some(
            if spec_norm(clause[i]).1 {
                Polarity::Positive
            } else {
                Polarity::Negative
            },
        )
    &&& forall|t: TermV, pos: bool|
        #![trigger has_polarity(prems, t, pos)]
        has_polarity(prems, t, pos) && !has_polarity(prems, t, !pos) ==> exists|i: int|
            0 <= i < clause.len() && spec_norm(#[trigger] clause[i]) == (t, pos)
    &&& forall|i: int, j: int|
        0 <= i < j < clause.len() ==> spec_norm(#[trigger] clause[i]) != spec_norm(
            #[trigger] clause[j],
        )
}

/// The positive form of a term, with its polarity flag.
fn to_positive<'a>(t: &'a Term) -> (r: (&'a Term, bool))
    ensures
        (r.0@, r.1) == spec_norm(t@),
{
    match t.remove_negation() {
        Some(inner) => (inner, false),
        None => (t, true),
    }
}

/// Searches the premises for a term that normalises to `t` with the given
/// polarity.
fn find_polarity(premises: &Vec<&ProofCommand>, t: &Term, pos: bool) -> (r: bool)
    ensures
        r == has_polarity(refs_view(premises@), t@, pos),
{
    let ghost pv = refs_view(premises@);
    proof {
        lemma_refs_view_index(premises@);
    }
    let n = premises.len();
    let mut i: usize = 0;
    while i < n
        invariant
            n == premises@.len(),
            0 <= i <= n,
            pv == refs_view(premises@),
            pv.len() == n,
            forall|k: int| 0 <= k < n ==> #[trigger] pv[k] == command_view(*premises@[k]),
            forall|k: int, j: int|
                #![trigger command_clause(pv[k])[j]]
                0 <= k < i && 0 <= j < command_clause(pv[k]).len() ==> spec_norm(
                    command_clause(pv[k])[j],
                ) != (t@, pos),
        decreases n - i,
    {
        let cmd: &ProofCommand = premises[i];
        match cmd {
            ProofCommand::Assume { id, term } => {
                let (tp, p) = to_positive(term);
                if p == pos && tp.term_eq(t) {
                    proof {
                        assert(command_clause(pv[i as int])[0] == term@);
                    }
                    return true;
                }
                proof {
                    assert forall|j: int|
                        0 <= j < command_clause(pv[i as int]).len() implies spec_norm(
                        command_clause(pv[i as int])[j],
                    ) != (t@, pos) by {
                        assert(command_clause(pv[i as int])[j] == term@);
                    }
                }
            },
            ProofCommand::Step(s) => {
                proof {
                    lemma_terms_view_index(s.clause@);
                }
                let m = s.clause.len();
                let mut j: usize = 0;
                while j < m
                    invariant
                        m == s.clause@.len(),
                        0 <= j <= m,
                        0 <= i < premises@.len(),
                        pv == refs_view(premises@),
                        pv.len() == premises@.len(),
                        command_clause(pv[i as int]) == terms_view(s.clause@),
                        terms_view(s.clause@).len() == m,
                        forall|q: int|
                            0 <= q < m ==> #[trigger] terms_view(s.clause@)[q] == crate::terms::term_view(
                                s.clause@[q],
                            ),
                        forall|q: int|
                            0 <= q < j ==> spec_norm(
                                #[trigger] terms_view(s.clause@)[q],
                            ) != (t@, pos),
                    decreases m - j,
                {
                    let (tp, p) = to_positive(&s.clause[j]);
                    if p == pos && tp.term_eq(t) {
                        proof {
                            assert(command_clause(pv[i as int])[j as int] == terms_view(
                                s.clause@,
                            )[j as int]);
                            assert(spec_norm(command_clause(pv[i as int])[j as int]) == (
                                t@,
                                pos,
                            ));
                        }
                        return true;
                    }
                    j += 1;
                }
            },
            ProofCommand::Subproof(sp) => {
            },
        }
        i += 1;
    }
    proof {
        if has_polarity(pv, t@, pos) {
            let (k, j) = choose|k: int, j: int|
                #![trigger command_clause(pv[k])[j]]
                0 <= k < pv.len() && 0 <= j < command_clause(pv[k]).len() && spec_norm(
                    command_clause(pv[k])[j],
                ) == (t@, pos);
            assert(false);
        }
    }
    false
}

/// Searches the clause for a term that normalises to `(t, pos)`.
fn clause_has(clause: &Vec<Term>, t: &Term, pos: bool) -> (r: bool)
    ensures
        r == exists|i: int|
            0 <= i < terms_view(clause@).len() && spec_norm(#[trigger] terms_view(clause@)[i]) == (
                t@,
                pos,
            ),
{
    proof {
        lemma_terms_view_index(clause@);
    }
    let n = clause.len();
    let mut i: usize = 0;
    while i < n
        invariant
            n == clause@.len(),
            terms_view(clause@).len() == n,
            0 <= i <= n,
            forall|q: int|
                0 <= q < n ==> #[trigger] terms_view(clause@)[q] == crate::terms::term_view(
                    clause@[q],
                ),
            forall|q: int| 0 <= q < i ==> spec_norm(#[trigger] terms_view(clause@)[q]) != (t@, pos),
        decreases n - i,
    {
        let (tp, p) = to_positive(&clause[i]);
        if p == pos && tp.term_eq(t) {
            proof {
                assert(spec_norm(terms_view(clause@)[i as int]) == (t@, pos));
            }
            return true;
        }
        i += 1;
    }
    false
}

/// The `resolution` rule: polarity-tracking propositional resolution over
/// any number of premises, with no pivots given.
pub fn resolution(clause: &Vec<Term>, premises: Vec<&ProofCommand>) -> (r: bool)
    ensures
        r == spec_resolution_accepts(terms_view(clause@), refs_view(premises@)),
{
    let ghost cv = terms_view(clause@);
    let ghost pv = refs_view(premises@);
    proof {
        lemma_terms_view_index(clause@);
        lemma_refs_view_index(premises@);
    }
    let n = clause.len();

    // Every clause term must be recorded in exactly its own polarity.
    let mut i: usize = 0;
    while i < n
        invariant
            n == clause@.len(),
            0 <= i <= n,
            cv == terms_view(clause@),
            cv.len() == n,
            pv == refs_view(premises@),
            forall|q: int| 0 <= q < n ==> cv[q] == crate::terms::term_view(#[trigger] clause@[q]),
            forall|q: int|
                0 <= q < i ==> spec_polarity_of(pv, spec_norm(#[trigger] cv[q]).0) == Some(
                    if spec_norm(cv[q]).1 {
                        Polarity::Positive
                    } else {
                        Polarity::Negative
                    },
                ),
        decreases n - i,
    {
        let (tp, p) = to_positive(&clause[i]);
        let same = find_polarity(&premises, tp, p);
        let other = find_polarity(&premises, tp, !p);
        if !(same && !other) {
            proof {
                assert(spec_polarity_of(pv, spec_norm(cv[i as int]).0) != Some(
                    if spec_norm(cv[i as int]).1 {
                        Polarity::Positive
                    } else {
                        Polarity::Negative
                    },
                ));
            }
            return false;
        }
        i += 1;
    }

    // No clause term may occur twice in the same polarity.
    let mut i: usize = 0;
    while i < n
        invariant
            n == clause@.len(),
            0 <= i <= n,
            cv == terms_view(clause@),
            cv.len() == n,
            pv == refs_view(premises@),
            forall|q: int| 0 <= q < n ==> cv[q] == crate::terms::term_view(#[trigger] clause@[q]),
            forall|a: int, b: int|
                0 <= a < b < n && a < i ==> spec_norm(#[trigger] cv[a]) != spec_norm(
                    #[trigger] cv[b],
                ),
        decreases n - i,
    {
        let (tp, p) = to_positive(&clause[i]);
        let mut j: usize = i + 1;
        while j < n
            invariant
                n == clause@.len(),
                0 <= i < n,
                i + 1 <= j <= n,
                cv == terms_view(clause@),
                cv.len() == n,
                pv == refs_view(premises@),
                forall|q: int|
                    0 <= q < n ==> cv[q] == crate::terms::term_view(#[trigger] clause@[q]),
                (tp@, p) == spec_norm(cv[i as int]),
                forall|b: int| i < b < j ==> spec_norm(#[trigger] cv[b]) != spec_norm(cv[i as int]),
            decreases n - j,
        {
            let (tq, q) = to_positive(&clause[j]);
            if p == q && tp.term_eq(tq) {
                proof {
                    assert(spec_norm(cv[i as int]) == spec_norm(cv[j as int]));
                }
                return false;
            }
            j += 1;
        }
        i += 1;
    }

    // Every term the premises record in a single polarity must stand in the
    // clause.
    let np = premises.len();
    let mut i: usize = 0;
    while i < np
        invariant
            np == premises@.len(),
            0 <= i <= np,
            cv == terms_view(clause@),
            cv.len() == n == clause@.len(),
            pv == refs_view(premises@),
            pv.len() == np,
            forall|k: int| 0 <= k < np ==> #[trigger] pv[k] == command_view(*premises@[k]),
            forall|k: int, j: int|
                #![trigger command_clause(pv[k])[j]]
                0 <= k < i && 0 <= j < command_clause(pv[k]).len() ==> spec_covered(
                    cv,
                    pv,
                    spec_norm(command_clause(pv[k])[j]).0,
                    spec_norm(command_clause(pv[k])[j]).1,
                ),
        decreases np - i,
    {
        let cmd: &ProofCommand = premises[i];
        match cmd {
            ProofCommand::Assume { id, term } => {
                let (tp, p) = to_positive(term);
                let other = find_polarity(&premises, tp, !p);
                if !other {
                    if !clause_has(&clause, tp, p) {
                        proof {
                            assert(command_clause(pv[i as int])[0] == term@);
                            assert(has_polarity(pv, tp@, p));
                            assert(!spec_resolution_accepts(cv, pv));
                        }
                        return false;
                    }
                }
                proof {
                    assert forall|j: int|
                        0 <= j < command_clause(pv[i as int]).len() implies spec_covered(
                        cv,
                        pv,
                        spec_norm(command_clause(pv[i as int])[j]).0,
                        spec_norm(command_clause(pv[i as int])[j]).1,
                    ) by {
                        assert(command_clause(pv[i as int])[j] == term@);
                    }
                }
            },
            ProofCommand::Step(s) => {
                proof {
                    lemma_terms_view_index(s.clause@);
                }
                let m = s.clause.len();
                let mut j: usize = 0;
                while j < m
                    invariant
                        m == s.clause@.len(),
                        0 <= j <= m,
                        0 <= i < premises@.len(),
                        cv == terms_view(clause@),
                        cv.len() == clause@.len(),
                        pv == refs_view(premises@),
                        pv.len() == premises@.len(),
                        command_clause(pv[i as int]) == terms_view(s.clause@),
                        terms_view(s.clause@).len() == m,
                        premises@.len() == np,
                        forall|q: int|
                            0 <= q < m ==> #[trigger] terms_view(s.clause@)[q] == crate::terms::term_view(
                                s.clause@[q],
                            ),
                        forall|q: int|
                            0 <= q < j ==> spec_covered(
                                cv,
                                pv,
                                spec_norm(#[trigger] terms_view(s.clause@)[q]).0,
                                spec_norm(terms_view(s.clause@)[q]).1,
                            ),
                    decreases m - j,
                {
                    let (tp, p) = to_positive(&s.clause[j]);
                    let other = find_polarity(&premises, tp, !p);
                    if !other {
                        if !clause_has(&clause, tp, p) {
                            proof {
                                assert(command_clause(pv[i as int])[j as int] == terms_view(
                                    s.clause@,
                                )[j as int]);
                                assert(has_polarity(pv, tp@, p));
                                assert(!spec_resolution_accepts(cv, pv));
                            }
                            return false;
                        }
                    }
                    j += 1;
                }
            },
            ProofCommand::Subproof(sp) => {
            },
        }
        i += 1;
    }
    proof {
        assert forall|t: TermV, pos: bool|
            #![trigger has_polarity(pv, t, pos)]
            has_polarity(pv, t, pos) && !has_polarity(pv, t, !pos) implies exists|q: int|
            0 <= q < cv.len() && spec_norm(#[trigger] cv[q]) == (t, pos) by {
            let (k, j) = choose|k: int, j: int|
                #![trigger command_clause(pv[k])[j]]
                0 <= k < pv.len() && 0 <= j < command_clause(pv[k]).len() && spec_norm(
                    command_clause(pv[k])[j],
                ) == (t, pos);
            assert(spec_covered(cv, pv, t, pos));
        }
    }
    true
}

/// Whether an `or` step is valid: the one premise is (or concludes) a
/// disjunction whose operands are exactly the clause.
pub open spec fn spec_or_accepts(clause: Seq<TermV>, prems: Seq<CommandV>) -> bool {
    prems.len() == 1 && {
        let t = match prems[0] {
            CommandV::Assume { id, term } => Some(term),
            CommandV::Step(s) => {
                if s.clause.len() == 1 {
                    Some(s.clause[0])
                } else {
                    None
                }
            },
            CommandV::Subproof(_) => None,
        };
        match t {
            Some(TermV::Op(op, args)) => op == Operator::Or && args == clause,
            _ => false,
        }
    }
}

/// The `or` rule: unfolds a disjunction premise into its operands.
pub fn or(clause: &Vec<Term>, premises: Vec<&ProofCommand>) -> (r: bool)
    ensures
        r == spec_or_accepts(terms_view(clause@), refs_view(premises@)),
{
    let ghost cv = terms_view(clause@);
    let ghost pv = refs_view(premises@);
    proof {
        lemma_terms_view_index(clause@);
        lemma_refs_view_index(premises@);
    }
    if premises.len() != 1 {
        return false;
    }
    let cmd: &ProofCommand = premises[0];
    let or_term: &Term = match cmd {
        ProofCommand::Assume { id, term } => term,
        ProofCommand::Step(s) => {
            proof {
                lemma_terms_view_index(s.clause@);
            }
            if s.clause.len() == 1 {
                &s.clause[0]
            } else {
                return false;
            }
        },
        ProofCommand::Subproof(sp) => {
            return false;
        },
    };
    let (op, args) = match crate::linear_arithmetic::as_op(or_term) {
        Some(x) => x,
        None => {
            return false;
        },
    };
    if op != Operator::Or {
        return false;
    }
    proof {
        lemma_terms_view_index(args@);
    }
    if args.len() != clause.len() {
        return false;
    }
    proof {
        assert(spec_or_accepts(cv, pv) == (terms_view(args@) == cv));
    }
    let n = args.len();
    let mut i: usize = 0;
    while i < n
        invariant
            n == args@.len() == clause@.len(),
            0 <= i <= n,
            cv == terms_view(clause@),
            pv == refs_view(premises@),
            spec_or_accepts(cv, pv) == (terms_view(args@) == cv),
            cv.len() == n,
            terms_view(args@).len() == n,
            forall|q: int| 0 <= q < n ==> cv[q] == crate::terms::term_view(#[trigger] clause@[q]),
            forall|q: int|
                0 <= q < n ==> #[trigger] terms_view(args@)[q] == crate::terms::term_view(
                    args@[q],
                ),
            forall|q: int| 0 <= q < i ==> #[trigger] terms_view(args@)[q] == cv[q],
        decreases n - i,
    {
        if !args[i].term_eq(&clause[i]) {
            proof {
                assert(terms_view(args@)[i as int] != cv[i as int]);
                assert(terms_view(args@) != cv);
            }
            return false;
        }
        i += 1;
    }
    proof {
        assert(terms_view(args@) =~= cv);
    }
    true
}

/// Whether an `eq_congruent` step is valid: a run of negated equalities
/// followed by an equality of two applications of the same head whose
/// arguments are, in order, the sides of those equalities.
pub open spec fn spec_eq_congruent_accepts(clause: Seq<TermV>) -> bool {
    &&& clause.len() >= 2
    &&& forall|i: int|
        0 <= i < clause.len() - 1 ==> crate::linear_arithmetic::spec_not_cmp2(
            #[trigger] clause[i],
            Operator::Equals,
        ) is Some
    &&& {
        match crate::linear_arithmetic::spec_cmp2(clause.last(), Operator::Equals) {
            Some((f, g)) => match (f, g) {
                (TermV::App(fh, fargs), TermV::App(gh, gargs)) => {
                    &&& fh == gh
                    &&& fargs.len() == clause.len() - 1
                    &&& gargs.len() == clause.len() - 1
                    &&& forall|i: int|
                        0 <= i < clause.len() - 1 ==> #[trigger] fargs[i]
                            == crate::linear_arithmetic::spec_not_cmp2(
                            clause[i],
                            Operator::Equals,
                        ).unwrap().0
                    &&& forall|i: int|
                        0 <= i < clause.len() - 1 ==> #[trigger] gargs[i]
                            == crate::linear_arithmetic::spec_not_cmp2(
                            clause[i],
                            Operator::Equals,
                        ).unwrap().1
                },
                _ => false,
            },
            None => false,
        }
    }
}

/// The head symbol and arguments of a function application.
fn as_app<'a>(t: &'a Term) -> (r: Option<(u64, &'a Vec<Term>)>)
    ensures
        r matches Some((f, args)) ==> t@ == TermV::App(f, terms_view(args@)),
        r is None ==> !(t@ is App),
{
    match t {
        Term::App(f, args) => Some((*f, args)),
        _ => None,
    }
}

/// The `eq_congruent` rule: from pairwise equalities to an equality of two
/// applications.
pub fn eq_congruent(clause: &Vec<Term>) -> (r: bool)
    ensures
        r == spec_eq_congruent_accepts(terms_view(clause@)),
{
    let ghost cv = terms_view(clause@);
    proof {
        lemma_terms_view_index(clause@);
    }
    if clause.len() < 2 {
        return false;
    }
    let n = clause.len();
    let mut i: usize = 0;
    while i < n - 1
        invariant
            n == clause@.len(),
            n >= 2,
            0 <= i <= n - 1,
            cv == terms_view(clause@),
            cv.len() == n,
            forall|q: int| 0 <= q < n ==> cv[q] == crate::terms::term_view(#[trigger] clause@[q]),
            forall|q: int|
                0 <= q < i ==> crate::linear_arithmetic::spec_not_cmp2(
                    #[trigger] cv[q],
                    Operator::Equals,
                ) is Some,
        decreases n - 1 - i,
    {
        match crate::linear_arithmetic::match_not_cmp2(&clause[i], Operator::Equals) {
            Some(x) => {},
            None => {
                return false;
            },
        }
        i += 1;
    }
    let (f, g) = match crate::linear_arithmetic::match_cmp2(&clause[n - 1], Operator::Equals) {
        Some(x) => x,
        None => {
            return false;
        },
    };
    let (fh, fargs) = match as_app(f) {
        Some(x) => x,
        None => {
            return false;
        },
    };
    let (gh, gargs) = match as_app(g) {
        Some(x) => x,
        None => {
            return false;
        },
    };
    proof {
        lemma_terms_view_index(fargs@);
        lemma_terms_view_index(gargs@);
    }
    if fh != gh || fargs.len() != n - 1 || gargs.len() != n - 1 {
        return false;
    }
    let ghost fv = terms_view(fargs@);
    let ghost gv = terms_view(gargs@);
    proof {
        assert(cv.last() == cv[n - 1]);
    }
    let mut i: usize = 0;
    while i < n - 1
        invariant
            n == clause@.len(),
            n >= 2,
            0 <= i <= n - 1,
            cv == terms_view(clause@),
            cv.len() == n,
            fv == terms_view(fargs@),
            gv == terms_view(gargs@),
            crate::linear_arithmetic::spec_cmp2(cv.last(), Operator::Equals) == Some(
                (TermV::App(fh, fv), TermV::App(gh, gv)),
            ),
            fh == gh,
            cv.last() == cv[n - 1],
            forall|q: int|
                0 <= q < n - 1 ==> crate::linear_arithmetic::spec_not_cmp2(
                    #[trigger] cv[q],
                    Operator::Equals,
                ) is Some,
            fargs@.len() == n - 1,
            gargs@.len() == n - 1,
            terms_view(fargs@).len() == n - 1,
            terms_view(gargs@).len() == n - 1,
            forall|q: int| 0 <= q < n ==> cv[q] == crate::terms::term_view(#[trigger] clause@[q]),
            forall|q: int|
                0 <= q < n - 1 ==> #[trigger] terms_view(fargs@)[q] == crate::terms::term_view(
                    fargs@[q],
                ),
            forall|q: int|
                0 <= q < n - 1 ==> #[trigger] terms_view(gargs@)[q] == crate::terms::term_view(
                    gargs@[q],
                ),
            forall|q: int|
                0 <= q < i ==> crate::linear_arithmetic::spec_not_cmp2(
                    #[trigger] cv[q],
                    Operator::Equals,
                ) is Some && terms_view(fargs@)[q] == crate::linear_arithmetic::spec_not_cmp2(
                    cv[q],
                    Operator::Equals,
                ).unwrap().0 && terms_view(gargs@)[q] == crate::linear_arithmetic::spec_not_cmp2(
                    cv[q],
                    Operator::Equals,
                ).unwrap().1,
        decreases n - 1 - i,
    {
        let (t, u) = match crate::linear_arithmetic::match_not_cmp2(&clause[i], Operator::Equals) {
            Some(x) => x,
            None => {
                return false;
            },
        };
        if !fargs[i].term_eq(t) {
            proof {
                assert(terms_view(fargs@)[i as int] != crate::linear_arithmetic::spec_not_cmp2(
                    cv[i as int],
                    Operator::Equals,
                ).unwrap().0);
            }
            return false;
        }
        if !gargs[i].term_eq(u) {
            proof {
                assert(terms_view(gargs@)[i as int] != crate::linear_arithmetic::spec_not_cmp2(
                    cv[i as int],
                    Operator::Equals,
                ).unwrap().1);
            }
            return false;
        }
        i += 1;
    }
    proof {
        assert(cv.last() == cv[n - 1]);
    }
    true
}

/// The step a command carries, if it is one.
pub open spec fn spec_command_step(c: CommandV) -> Option<StepV> {
    match c {
        CommandV::Step(s) => Some(s),
        _ => None,
    }
}

/// The commands a step's premise references name, in order.
pub open spec fn spec_resolved(cmds: Seq<CommandV>, prems: Seq<(usize, usize)>) -> Seq<CommandV> {
    Seq::new(prems.len(), |i: int| cmds[prems[i].1 as int])
}

/// Every premise reference points into the top scope.
pub open spec fn spec_premises_ok(cmds: Seq<CommandV>, prems: Seq<(usize, usize)>) -> bool {
    forall|i: int| 0 <= i < prems.len() ==> (#[trigger] prems[i]).0 == 0 && prems[i].1 < cmds.len()
}

/// Whether one step holds under its declared rule.
pub open spec fn spec_step_ok(cmds: Seq<CommandV>, s: StepV) -> bool {
    if !spec_premises_ok(cmds, s.premises) {
        false
    } else if s.rule == "or"@ {
        spec_or_accepts(s.clause, spec_resolved(cmds, s.premises))
    } else if s.rule == "eq_congruent"@ {
        spec_eq_congruent_accepts(s.clause)
    } else if s.rule == "resolution"@ {
        spec_resolution_accepts(s.clause, spec_resolved(cmds, s.premises))
    } else {
        false
    }
}

/// Whether every step of the proof holds under its declared rule.
pub open spec fn spec_check(cmds: Seq<CommandV>) -> bool {
    forall|i: int|
        0 <= i < cmds.len() ==> (spec_command_step(#[trigger] cmds[i]) matches Some(s)
            ==> spec_step_ok(cmds, s))
}

/// Walks a proof and checks every step against its declared rule.
pub struct ProofChecker {
    pub proof: Proof,
}

impl ProofChecker {
    pub fn new(proof: Proof) -> (r: ProofChecker)
        ensures
            r.proof@ == proof@,
    {
        ProofChecker { proof }
    }

    /// Checks every step of the proof: assumptions pass as they stand, and
    /// each step must be a valid instance of a known rule with premise
    /// references that stay inside the top scope.
    pub fn check(self) -> (r: bool)
        ensures
            r == spec_check(self.proof@),
    {
        let ghost cmds = self.proof@;
        proof {
            crate::ast::lemma_commands_view_index(self.proof.commands@);
        }
        let n = self.proof.commands.len();
        let mut i: usize = 0;
        while i < n
            invariant
                n == self.proof.commands@.len(),
                0 <= i <= n,
                cmds == self.proof@,
                cmds.len() == n,
                forall|q: int| 0 <= q < n ==> #[trigger] cmds[q] == crate::ast::command_view(
                    self.proof.commands@[q],
                ),
                forall|q: int|
                    0 <= q < i ==> (spec_command_step(#[trigger] cmds[q]) matches Some(s)
                        ==> spec_step_ok(cmds, s)),
            decreases n - i,
        {
            match &self.proof.commands[i] {
                ProofCommand::Step(s) => {
                    if !self.check_step(s, Ghost(cmds)) {
                        proof {
                            assert(spec_command_step(cmds[i as int]) == Some(s@));
                        }
                        return false;
                    }
                },
                _ => {},
            }
            i += 1;
        }
        true
    }

    /// Checks the one command at `index`: an assumption or a sub-proof
    /// passes as it stands, a step must hold under its declared rule. A
    /// caller that times each step drives the walk itself through this
    /// entry point; `check` accepts exactly when it holds at every index.
    pub fn check_step_at(&self, index: usize) -> (r: bool)
        requires
            index < self.proof.commands@.len(),
        ensures
            r == (spec_command_step(self.proof@[index as int]) matches Some(s) ==> spec_step_ok(
                self.proof@,
                s,
            )),
    {
        proof {
            crate::ast::lemma_commands_view_index(self.proof.commands@);
        }
        match &self.proof.commands[index] {
            ProofCommand::Step(s) => {
                let ghost cmds = self.proof@;
                proof {
                    assert(spec_command_step(cmds[index as int]) == Some(s@));
                }
                self.check_step(s, Ghost(cmds))
            },
            _ => true,
        }
    }

    /// Checks one step against the commands of the top scope.
    fn check_step(&self, s: &crate::ast::ProofStep, Ghost(cmds): Ghost<Seq<CommandV>>) -> (r: bool)
        requires
            cmds == self.proof@,
        ensures
            r == spec_step_ok(cmds, s@),
    {
        proof {
            crate::ast::lemma_commands_view_index(self.proof.commands@);
        }
        let np = s.premises.len();
        let mut resolved: Vec<&ProofCommand> = Vec::new();
        let mut i: usize = 0;
        while i < np
            invariant
                np == s.premises@.len(),
                0 <= i <= np,
                cmds == self.proof@,
                cmds.len() == self.proof.commands@.len(),
                forall|q: int| 0 <= q < cmds.len() ==> #[trigger] cmds[q]
                    == crate::ast::command_view(self.proof.commands@[q]),
                forall|q: int|
                    0 <= q < i ==> (#[trigger] s.premises@[q]).0 == 0 && s.premises@[q].1
                        < cmds.len(),
                resolved@.len() == i,
                forall|q: int|
                    0 <= q < i ==> command_view(*(#[trigger] resolved@[q])) == cmds[s.premises@[q].1 as int],
            decreases np - i,
        {
            let (depth, index) = (s.premises[i].0, s.premises[i].1);
            if depth != 0 || index >= self.proof.commands.len() {
                proof {
                    assert(!spec_premises_ok(cmds, s@.premises));
                }
                return false;
            }
            resolved.push(&self.proof.commands[index]);
            i += 1;
        }
        proof {
            lemma_refs_view_index(resolved@);
            assert(refs_view(resolved@) =~= spec_resolved(cmds, s@.premises));
        }
        let rule_or = String::from_str("or");
        let rule_eqc = String::from_str("eq_congruent");
        let rule_res = String::from_str("resolution");
        if s.rule == rule_or {
            or(&s.clause, resolved)
        } else if s.rule == rule_eqc {
            eq_congruent(&s.clause)
        } else if s.rule == rule_res {
            resolution(&s.clause, resolved)
        } else {
            false
        }
    }
}

/// Resolution is commutative and associative in the set of its premises:
/// two premise runs that hold the same commands, in any order and
/// grouping, accept exactly the same clauses.
pub proof fn lemma_resolution_premise_order(
    clause: Seq<TermV>,
    prems1: Seq<CommandV>,
    prems2: Seq<CommandV>,
)
    requires
        prems1.to_multiset() == prems2.to_multiset(),
    ensures
        spec_resolution_accepts(clause, prems1) == spec_resolution_accepts(clause, prems2),
{
    lemma_has_polarity_order(clause, prems1, prems2);
    lemma_has_polarity_order(clause, prems2, prems1);
    assert forall|t: TermV, pos: bool| #[trigger]
        has_polarity(prems1, t, pos) == has_polarity(prems2, t, pos) by {}
    assert forall|t: TermV| #[trigger]
        spec_polarity_of(prems1, t) == spec_polarity_of(prems2, t) by {
        assert(has_polarity(prems1, t, true) == has_polarity(prems2, t, true));
        assert(has_polarity(prems1, t, false) == has_polarity(prems2, t, false));
    }
}

proof fn lemma_has_polarity_order(clause: Seq<TermV>, prems1: Seq<CommandV>, prems2: Seq<CommandV>)
    requires
        prems1.to_multiset() == prems2.to_multiset(),
    ensures
        forall|t: TermV, pos: bool|
            #![trigger has_polarity(prems1, t, pos)]
            has_polarity(prems1, t, pos) ==> has_polarity(prems2, t, pos),
{
    prems1.to_multiset_ensures();
    prems2.to_multiset_ensures();
    assert forall|t: TermV, pos: bool|
        #![trigger has_polarity(prems1, t, pos)]
        has_polarity(prems1, t, pos) implies has_polarity(prems2, t, pos) by {
        let (i, j) = choose|i: int, j: int|
            #![trigger command_clause(prems1[i])[j]]
            0 <= i < prems1.len() && 0 <= j < command_clause(prems1[i]).len() && spec_norm(
                command_clause(prems1[i])[j],
            ) == (t, pos);
        let c = prems1[i];
        assert(prems1.contains(c));
        assert(prems1.to_multiset().count(c) > 0);
        assert(prems2.contains(c));
        let i2 = choose|i2: int| 0 <= i2 < prems2.len() && prems2[i2] == c;
        assert(command_clause(prems2[i2])[j] == command_clause(prems1[i])[j]);
    }
}

/// A single-polarity premise term either loses that status or stands in
/// the clause.
pub open spec fn spec_covered(
    clause: Seq<TermV>,
    prems: Seq<CommandV>,
    t: TermV,
    pos: bool,
) -> bool {
    has_polarity(prems, t, !pos) || exists|q: int|
        0 <= q < clause.len() && spec_norm(#[trigger] clause[q]) == (t, pos)
}

} // verus!
