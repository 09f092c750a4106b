use vstd::prelude::*;

use vstd::string::StringExecFns;

use crate::ast::{
    command_view, commands_view, lemma_commands_view_index, CommandV, ProofCommand, ProofStep,
    StepV, Subproof,
};
use crate::elaborator::{spec_new_id, Elaborator};
use crate::terms::{lemma_terms_view_index, spec_remove_negation, terms_view, Operator, Term, TermV};

verus! {

broadcast use vstd::std_specs::vec::group_vec_axioms, vstd::seq::group_seq_axioms;

/// Failures of the outside-solver bridge; the surrounding program maps its
/// process handling onto these.
pub enum LiaGenericError {
    FailedSpawnSolver,
    FailedWriteToSolverStdin,
    FailedWaitForSolver,
    SolverTimeout,
    SolverNonZeroExitCode(Option<i32>),
    SolverOutputNotUnsat,
    SolverGaveInvalidOutput,
    InnerProofError,
}

/// The assumption term a command carries, if it is an assumption.
pub open spec fn command_assume_term(c: CommandV) -> Option<TermV> {
    match c {
        CommandV::Assume { id, term } => Some(term),
        _ => None,
    }
}

/// Every assumption among the commands is a negation.
pub open spec fn assumes_negated(cmds: Seq<CommandV>) -> bool {
    forall|i: int|
        0 <= i < cmds.len() ==> (command_assume_term(#[trigger] cmds[i]) is Some
            ==> spec_remove_negation(command_assume_term(cmds[i]).unwrap()) is Some)
}

/// The assumption terms among the commands, in order.
pub open spec fn assume_terms(cmds: Seq<CommandV>) -> Seq<TermV>
    decreases cmds.len(),
{
    if cmds.len() == 0 {
        Seq::empty()
    } else {
        let rest = assume_terms(cmds.drop_last());
        match command_assume_term(cmds.last()) {
            Some(t) => rest.push(t),
            None => rest,
        }
    }
}

/// The positions of the assumptions among the commands, one scope down, in
/// order.
pub open spec fn assume_discharges(cmds: Seq<CommandV>) -> Seq<(usize, usize)>
    decreases cmds.len(),
{
    if cmds.len() == 0 {
        Seq::empty()
    } else {
        let rest = assume_discharges(cmds.drop_last());
        match command_assume_term(cmds.last()) {
            Some(t) => rest.push((1usize, (cmds.len() - 1) as usize)),
            None => rest,
        }
    }
}

/// Whether some assumption negates exactly `t`.
pub open spec fn has_assume_for(cmds: Seq<CommandV>, t: TermV) -> bool {
    exists|i: int|
        0 <= i < cmds.len() && command_assume_term(#[trigger] cmds[i]) is Some
            && spec_remove_negation(command_assume_term(cmds[i]).unwrap()) == Some(t)
}

/// The conclusion terms no assumption accounts for, in order.
pub open spec fn missing_terms(concl: Seq<TermV>, cmds: Seq<CommandV>) -> Seq<TermV>
    decreases concl.len(),
{
    if concl.len() == 0 {
        Seq::empty()
    } else {
        let rest = missing_terms(concl.drop_last(), cmds);
        if !has_assume_for(cmds, concl.last()) {
            rest.push(concl.last())
        } else {
            rest
        }
    }
}

/// Every premise reference among the commands leaves room for the shifts.
pub open spec fn premises_fit(cmds: Seq<CommandV>, dd: int, idd: int) -> bool
    decreases cmds, 0int,
{
    if cmds.len() == 0 {
        true
    } else {
        premises_fit(cmds.drop_last(), dd, idd) && command_premises_fit(cmds.last(), dd, idd)
    }
}

pub proof fn lemma_premises_fit_index(cmds: Seq<CommandV>, dd: int, idd: int)
    requires
        premises_fit(cmds, dd, idd),
    ensures
        forall|i: int| 0 <= i < cmds.len() ==> command_premises_fit(#[trigger] cmds[i], dd, idd),
    decreases cmds.len(),
{
    if cmds.len() > 0 {
        lemma_premises_fit_index(cmds.drop_last(), dd, idd);
        assert forall|i: int| 0 <= i < cmds.len() implies command_premises_fit(
            #[trigger] cmds[i],
            dd,
            idd,
        ) by {
            if i < cmds.len() - 1 {
                assert(cmds.drop_last()[i] == cmds[i]);
            } else {
                assert(cmds[i] == cmds.last());
            }
        }
    }
}

/// The size of a command tree, counting nested sub-proof commands.
pub open spec fn command_size(c: CommandV) -> nat
    decreases c,
{
    match c {
        CommandV::Subproof(cs) => 1 + cmds_size(cs),
        _ => 1,
    }
}

pub open spec fn cmds_size(s: Seq<CommandV>) -> nat
    decreases s,
{
    if s.len() == 0 {
        0
    } else {
        cmds_size(s.drop_last()) + command_size(s.last())
    }
}

pub proof fn lemma_cmds_size_elem(s: Seq<CommandV>, i: int)
    requires
        0 <= i < s.len(),
    ensures
        command_size(s[i]) <= cmds_size(s),
    decreases s.len(),
{
    if i < s.len() - 1 {
        assert(s.drop_last()[i] == s[i]);
        lemma_cmds_size_elem(s.drop_last(), i);
    }
}

/// Whether one premise reference leaves room for the shifts.
pub open spec fn pair_fits(p: (usize, usize), dd: int, idd: int) -> bool {
    p.0 + dd <= usize::MAX && p.1 + idd <= usize::MAX
}

pub open spec fn command_premises_fit(c: CommandV, dd: int, idd: int) -> bool
    decreases c, 1int,
{
    match c {
        CommandV::Step(s) => pairs_fit(s.premises, dd, idd),
        CommandV::Subproof(cs) => premises_fit(cs, dd, 0),
        _ => true,
    }
}

/// Whether every reference in the run leaves room for the shifts.
pub open spec fn pairs_fit(ps: Seq<(usize, usize)>, dd: int, idd: int) -> bool
    decreases ps.len(),
{
    if ps.len() == 0 {
        true
    } else {
        pairs_fit(ps.drop_last(), dd, idd) && pair_fits(ps.last(), dd, idd)
    }
}

pub proof fn lemma_pairs_fit_index(ps: Seq<(usize, usize)>, dd: int, idd: int)
    requires
        pairs_fit(ps, dd, idd),
    ensures
        forall|i: int| 0 <= i < ps.len() ==> #[trigger] pair_fits(ps[i], dd, idd),
    decreases ps.len(),
{
    if ps.len() > 0 {
        lemma_pairs_fit_index(ps.drop_last(), dd, idd);
        assert forall|i: int| 0 <= i < ps.len() implies #[trigger] pair_fits(ps[i], dd, idd) by {
            if i < ps.len() - 1 {
                assert(ps.drop_last()[i] == ps[i]);
            } else {
                assert(ps[i] == ps.last());
            }
        }
    }
}

/// What rewriting a command for splicing yields: ids gain the root as a
/// prefix, premise references shift by the depth and index deltas, and
/// nested sub-proofs shift only in depth.
pub open spec fn spec_update_command(c: CommandV, dd: int, idd: int, root: Seq<char>) -> CommandV
    decreases c,
{
    match c {
        CommandV::Assume { id, term } => CommandV::Assume {
            id: root + seq!['.'] + id,
            term,
        },
        CommandV::Step(s) => CommandV::Step(
            StepV {
                id: root + seq!['.'] + s.id,
                clause: s.clause,
                rule: s.rule,
                premises: Seq::new(
                    s.premises.len(),
                    |i: int| (((s.premises[i].0 + dd) as usize), ((s.premises[i].1 + idd) as usize)),
                ),
                args: s.args,
                discharge: s.discharge,
            },
        ),
        CommandV::Subproof(cs) => CommandV::Subproof(spec_update_commands(cs, dd, root)),
    }
}

pub open spec fn spec_update_commands(cmds: Seq<CommandV>, dd: int, root: Seq<char>) -> Seq<
    CommandV,
>
    decreases cmds,
{
    if cmds.len() == 0 {
        Seq::empty()
    } else {
        spec_update_commands(cmds.drop_last(), dd, root).push(
            spec_update_command(cmds.last(), dd, 0, root),
        )
    }
}

pub proof fn lemma_update_commands_index(cmds: Seq<CommandV>, dd: int, root: Seq<char>)
    ensures
        spec_update_commands(cmds, dd, root).len() == cmds.len(),
        forall|i: int| 0 <= i < cmds.len() ==> #[trigger] spec_update_commands(cmds, dd, root)[i]
            == spec_update_command(cmds[i], dd, 0, root),
    decreases cmds.len(),
{
    if cmds.len() > 0 {
        lemma_update_commands_index(cmds.drop_last(), dd, root);
        assert forall|i: int| 0 <= i < cmds.len() implies #[trigger] spec_update_commands(
            cmds,
            dd,
            root,
        )[i] == spec_update_command(cmds[i], dd, 0, root) by {
            if i < cmds.len() - 1 {
                assert(cmds.drop_last()[i] == cmds[i]);
            } else {
                assert(cmds[i] == cmds.last());
            }
        }
    }
}

/// The negations of the assumption terms, in order.
pub open spec fn negated_assumes(cmds: Seq<CommandV>) -> Seq<TermV>
    decreases cmds.len(),
{
    if cmds.len() == 0 {
        Seq::empty()
    } else {
        let rest = negated_assumes(cmds.drop_last());
        match command_assume_term(cmds.last()) {
            Some(t) => rest.push(TermV::Op(Operator::Not, seq![t])),
            None => rest,
        }
    }
}

/// The assumption terms with their outer negation stripped, in order.
pub open spec fn stripped_assumes(cmds: Seq<CommandV>) -> Seq<TermV>
    decreases cmds.len(),
{
    if cmds.len() == 0 {
        Seq::empty()
    } else {
        let rest = stripped_assumes(cmds.drop_last());
        match command_assume_term(cmds.last()) {
            Some(t) => rest.push(spec_remove_negation(t).unwrap()),
            None => rest,
        }
    }
}

/// A single negation around a copy of the term.
fn not_term(t: &Term) -> (r: Term)
    ensures
        r@ == TermV::Op(Operator::Not, seq![t@]),
{
    let mut args: Vec<Term> = Vec::new();
    args.push(t.deep_copy());
    proof {
        lemma_terms_view_index(args@);
        assert(terms_view(args@) =~= seq![t@]);
    }
    Term::Op(Operator::Not, args)
}

/// Whether some assumption among the commands negates exactly `t`.
fn has_assume(commands: &Vec<ProofCommand>, t: &Term) -> (r: bool)
    ensures
        r == has_assume_for(commands_view(commands@), t@),
{
    let ghost cv = commands_view(commands@);
    proof {
        lemma_commands_view_index(commands@);
    }
    let n = commands.len();
    let mut i: usize = 0;
    while i < n
        invariant
            n == commands@.len(),
            0 <= i <= n,
            cv == commands_view(commands@),
            cv.len() == n,
            forall|q: int| 0 <= q < n ==> #[trigger] cv[q] == command_view(commands@[q]),
            forall|q: int|
                0 <= q < i ==> !(command_assume_term(#[trigger] cv[q]) is Some
                    && spec_remove_negation(command_assume_term(cv[q]).unwrap()) == Some(t@)),
        decreases n - i,
    {
        match &commands[i] {
            ProofCommand::Assume { id, term } => {
                match term.remove_negation() {
                    Some(inner) => {
                        if inner.term_eq(t) {
                            proof {
                                assert(command_assume_term(cv[i as int]) == Some(term@));
                            }
                            return true;
                        }
                    },
                    None => {},
                }
            },
            _ => {},
        }
        i += 1;
    }
    proof {
        if has_assume_for(cv, t@) {
            let q = choose|q: int|
                0 <= q < cv.len() && command_assume_term(#[trigger] cv[q]) is Some
                    && spec_remove_negation(command_assume_term(cv[q]).unwrap()) == Some(t@);
            assert(false);
        }
    }
    false
}

/// Splices a checked outside proof of the conclusion's negations into the
/// elaborated proof: a sub-proof discharges the assumptions, `not_not`
/// steps strip the double negations, a `false` step justifies the constant,
/// a resolution step recovers the conclusion, and a final step labelled
/// `hole` replaces the original one.
/// The shape of the enclosing level after one splice: the base commands
/// unchanged, then the discharging sub-proof, one double-negation step per
/// assumption, the step justifying the boolean constant, the resolution
/// step recovering the conclusion, and the final step labelled `hole`.
pub open spec fn spec_spliced(
    base: Seq<CommandV>,
    cmdsv: Seq<CommandV>,
    conclv: Seq<TermV>,
    root: Seq<char>,
    c0: u64,
    top: Seq<CommandV>,
) -> bool {
    let ll = base.len() as int;
    let na = assume_terms(cmdsv).len() as int;
    let nm = missing_terms(conclv, cmdsv).len() as int;
    &&& top.len() == ll + na + 4
    &&& top.take(ll) == base
    &&& top[ll] matches CommandV::Subproof(sub) && {
        &&& sub.len() == nm + cmdsv.len() + 1
        &&& (forall|k: int|
            0 <= k < nm ==> command_assume_term(#[trigger] sub[k]) == Some(
                missing_terms(conclv, cmdsv)[k],
            ))
        &&& (forall|k: int|
            0 <= k < cmdsv.len() ==> #[trigger] sub[nm + k] == spec_update_command(
                cmdsv[k],
                1,
                nm,
                spec_new_id(root, c0),
            ))
        &&& sub[sub.len() - 1] matches CommandV::Step(end) && {
            &&& end.id == spec_new_id(root, c0)
            &&& end.rule == "subproof"@
            &&& end.clause == negated_assumes(cmdsv).push(TermV::False)
            &&& end.discharge == assume_discharges(cmdsv)
            &&& end.premises.len() == 0
            &&& end.args.len() == 0
        }
    }
    &&& (forall|k: int|
        0 <= k < na ==> ((#[trigger] top[ll + 1 + k]) matches CommandV::Step(s) && s.rule
            == "not_not"@ && s.clause == seq![
            TermV::Op(Operator::Not, seq![negated_assumes(cmdsv)[k]]),
            stripped_assumes(cmdsv)[k],
        ] && s.premises.len() == 0 && s.args.len() == 0 && s.discharge.len() == 0))
    &&& top[ll + na + 1] matches CommandV::Step(s) && s.rule == "false"@ && s.clause == seq![
        TermV::Op(Operator::Not, seq![TermV::False]),
    ] && s.premises.len() == 0 && s.args.len() == 0 && s.discharge.len() == 0
    &&& top[ll + na + 2] matches CommandV::Step(s) && s.rule == "resolution"@ && s.clause
        == stripped_assumes(cmdsv) && s.premises == seq![(0usize, ll as usize)] + Seq::new(
        na as nat,
        |q: int| (0usize, (ll + 1 + q) as usize),
    ).push((0usize, (ll + na + 1) as usize)) && s.args.len() == 0 && s.discharge.len() == 0
    &&& top[ll + na + 3] matches CommandV::Step(s) && s.rule == "hole"@ && s.clause == conclv
        && s.premises == seq![(0usize, (ll + na + 2) as usize)] && s.args.len() == 0
        && s.discharge.len() == 0
}

pub fn insert_cvc5_proof(
    elaborator: &mut Elaborator,
    commands: Vec<ProofCommand>,
    conclusion: &Vec<Term>,
    root_id: &String,
)
    requires
        assumes_negated(commands_view(commands@)),
        premises_fit(
            commands_view(commands@),
            1,
            missing_terms(terms_view(conclusion@), commands_view(commands@)).len() as int,
        ),
        old(elaborator).id_counter + conclusion@.len() + commands@.len() + 5 <= u64::MAX,
        old(elaborator).open_depth < usize::MAX,
        commands@.len() + conclusion@.len() + 5 <= usize::MAX,
    ensures
        final(elaborator).open_depth == old(elaborator).open_depth,
        spec_spliced(
            commands_view(old(elaborator).top@),
            commands_view(commands@),
            terms_view(conclusion@),
            root_id@,
            old(elaborator).id_counter,
            commands_view(final(elaborator).top@),
        ),
{
    let ghost cmdsv = commands_view(commands@);
    let ghost conclv = terms_view(conclusion@);
    let ghost base = commands_view(old(elaborator).top@);
    let ghost ll = base.len() as int;
    proof {
        lemma_commands_view_index(commands@);
        lemma_commands_view_index(elaborator.top@);
        lemma_terms_view_index(conclusion@);
        assert(conclv.take(0) =~= Seq::<TermV>::empty());
    }
    let subproof_id = elaborator.get_new_id(root_id);
    elaborator.open_accumulator_subproof();

    // Insert an assumption for each conclusion term the proof does not
    // already assume.
    let nc = conclusion.len();
    let mut num_added: usize = 0;
    let mut i: usize = 0;
    while i < nc
        invariant
            nc == conclusion@.len(),
            0 <= i <= nc,
            cmdsv == commands_view(commands@),
            conclv == terms_view(conclusion@),
            conclv.len() == nc,
            forall|q: int| 0 <= q < nc ==> conclv[q] == crate::terms::term_view(
                #[trigger] conclusion@[q],
            ),
            num_added == missing_terms(conclv.take(i as int), cmdsv).len(),
            num_added <= i,
            elaborator.open_depth == old(elaborator).open_depth + 1,
            elaborator.top == old(elaborator).top,
            elaborator.id_counter <= old(elaborator).id_counter + 1 + i,
            old(elaborator).id_counter + conclusion@.len() + commands@.len() + 5 <= u64::MAX,
            commands_view(elaborator.accumulator@).len() == num_added,
            forall|k: int|
                0 <= k < num_added ==> command_assume_term(
                    #[trigger] commands_view(elaborator.accumulator@)[k],
                ) == Some(missing_terms(conclv.take(i as int), cmdsv)[k]),
        decreases nc - i,
    {
        proof {
            assert(conclv.take(i as int + 1).drop_last() =~= conclv.take(i as int));
            assert(conclv.take(i as int + 1).last() == conclv[i as int]);
        }
        if !has_assume(&commands, &conclusion[i]) {
            let id = elaborator.get_new_id(root_id);
            let cmd = ProofCommand::Assume { id, term: conclusion[i].deep_copy() };
            let ghost acc0 = elaborator.accumulator@;
            elaborator.add_new_command(cmd);
            proof {
                crate::elaborator::lemma_commands_view_push(acc0, cmd);
                lemma_commands_view_index(elaborator.accumulator@);
            }
            num_added = num_added + 1;
        }
        i += 1;
    }
    proof {
        assert(conclv.take(nc as int) =~= conclv);
    }
    let ghost nm = missing_terms(conclv, cmdsv).len() as int;

    // Collect, per assumption: its negation for the closing clause and the
    // `not_not` steps, its stripped body, and its discharge reference.
    let n = commands.len();
    let mut clause: Vec<Term> = Vec::new();
    let mut negated: Vec<Term> = Vec::new();
    let mut stripped: Vec<Term> = Vec::new();
    let mut discharge: Vec<(usize, usize)> = Vec::new();
    let mut j: usize = 0;
    proof {
        assert(cmdsv.take(0) =~= Seq::<CommandV>::empty());
    }
    while j < n
        invariant
            n == commands@.len(),
            0 <= j <= n,
            cmdsv == commands_view(commands@),
            cmdsv.len() == n,
            assumes_negated(cmdsv),
            forall|q: int| 0 <= q < n ==> #[trigger] cmdsv[q] == command_view(commands@[q]),
            terms_view(clause@) == negated_assumes(cmdsv.take(j as int)),
            terms_view(negated@) == negated_assumes(cmdsv.take(j as int)),
            terms_view(stripped@) == stripped_assumes(cmdsv.take(j as int)),
            discharge@ == assume_discharges(cmdsv.take(j as int)),
        decreases n - j,
    {
        proof {
            assert(cmdsv.take(j as int + 1).drop_last() =~= cmdsv.take(j as int));
            assert(cmdsv.take(j as int + 1).last() == cmdsv[j as int]);
        }
        match &commands[j] {
            ProofCommand::Assume { id, term } => {
                let ghost c0 = clause@;
                let ghost n0 = negated@;
                let ghost s0 = stripped@;
                let nt = not_term(term);
                let nt2 = not_term(term);
                clause.push(nt);
                negated.push(nt2);
                match term.remove_negation() {
                    Some(inner) => {
                        stripped.push(inner.deep_copy());
                    },
                    None => {
                        proof {
                            assert(command_assume_term(cmdsv[j as int]) == Some(term@));
                            assert(false);
                        }
                    },
                }
                discharge.push((1, j));
                proof {
                    crate::terms::lemma_terms_view_push(c0, clause@.last());
                    crate::terms::lemma_terms_view_push(n0, negated@.last());
                    crate::terms::lemma_terms_view_push(s0, stripped@.last());
                    assert(terms_view(clause@) =~= negated_assumes(cmdsv.take(j as int + 1)));
                    assert(terms_view(negated@) =~= negated_assumes(cmdsv.take(j as int + 1)));
                    assert(terms_view(stripped@) =~= stripped_assumes(cmdsv.take(j as int + 1)));
                }
            },
            _ => {},
        }
        j += 1;
    }
    proof {
        assert(cmdsv.take(n as int) =~= cmdsv);
    }
    let ghost na = assume_terms(cmdsv).len() as int;
    proof {
        lemma_assume_seqs_len(cmdsv);
        lemma_terms_view_index(negated@);
        lemma_terms_view_index(stripped@);
        assert(negated@.len() == na);
        assert(stripped@.len() == na);
    }
    let ghost clause0 = clause@;
    clause.push(Term::False);
    proof {
        crate::terms::lemma_terms_view_push(clause0, Term::False);
        assert(terms_view(clause@) =~= negated_assumes(cmdsv).push(TermV::False));
    }

    // Splice the rewritten commands after the inserted assumptions.
    let mut updated = update_premises(commands, 1, num_added, &subproof_id);
    let ghost upv = commands_view(updated@);
    proof {
        lemma_commands_view_index(updated@);
    }
    let ghost acc_before = commands_view(elaborator.accumulator@);
    let mut k: usize = 0;
    let nu = updated.len();
    while k < nu
        invariant
            nu == upv.len(),
            0 <= k <= nu,
            updated@.len() == nu - k,
            forall|q: int| 0 <= q < nu - k ==> command_view(#[trigger] updated@[q]) == upv[k + q],
            elaborator.open_depth == old(elaborator).open_depth + 1,
            elaborator.top == old(elaborator).top,
            elaborator.id_counter <= old(elaborator).id_counter + 1 + conclusion@.len(),
            old(elaborator).id_counter + conclusion@.len() + commands@.len() + 5 <= u64::MAX,
            commands_view(elaborator.accumulator@) =~= acc_before + upv.take(k as int),
        decreases nu - k,
    {
        let c = updated.remove(0);
        proof {
            assert(command_view(c) == upv[k as int]);
        }
        let ghost acc0 = elaborator.accumulator@;
        elaborator.add_new_command(c);
        proof {
            crate::elaborator::lemma_commands_view_push(acc0, c);
            assert(commands_view(elaborator.accumulator@) =~= acc_before + upv.take(k as int + 1));
        }
        k += 1;
    }
    proof {
        assert(upv.take(nu as int) =~= upv);
    }

    // Close the sub-proof with the discharging step.
    let rule_subproof = String::from_str("subproof");
    let end_step = ProofStep {
        id: subproof_id,
        clause,
        rule: rule_subproof,
        premises: Vec::new(),
        args: Vec::new(),
        discharge,
    };
    let ghost endv = end_step@;
    let ghost acc_final = commands_view(elaborator.accumulator@);
    proof {
        assert(elaborator.top@.len() == ll);
    }
    let sp_ref = elaborator.close_accumulator_subproof(end_step);
    let ghost topc = commands_view(elaborator.top@);
    proof {
        assert(topc == base.push(
            CommandV::Subproof(acc_final.push(CommandV::Step(endv))),
        ));
        assert(topc.len() == ll + 1);
        assert(topc.take(ll) =~= base);
        assert(sp_ref == (0usize, ll as usize));
    }

    // One step per assumption to strip the double negation.
    let rule_nn = String::from_str("not_not");
    proof {
        lemma_terms_view_index(negated@);
        lemma_terms_view_index(stripped@);
    }
    let mut premises: Vec<(usize, usize)> = Vec::new();
    premises.push(sp_ref);
    let nn = negated.len();
    let mut k: usize = 0;
    while k < nn
        invariant
            nn == negated@.len(),
            0 <= k <= nn,
            nn == na,
            na == assume_terms(cmdsv).len(),
            stripped@.len() == na,
            terms_view(negated@) == negated_assumes(cmdsv),
            terms_view(stripped@) == stripped_assumes(cmdsv),
            forall|q: int|
                0 <= q < na ==> terms_view(negated@)[q] == crate::terms::term_view(
                    #[trigger] negated@[q],
                ),
            forall|q: int|
                0 <= q < na ==> terms_view(stripped@)[q] == crate::terms::term_view(
                    #[trigger] stripped@[q],
                ),
            na <= commands@.len(),
            old(elaborator).id_counter + conclusion@.len() + commands@.len() + 5 <= u64::MAX,
            elaborator.id_counter <= old(elaborator).id_counter + 2 + conclusion@.len() + k,
            elaborator.open_depth == old(elaborator).open_depth,
            commands_view(elaborator.top@).len() == topc.len() + k,
            commands_view(elaborator.top@).take(topc.len() as int) == topc,
            topc.len() == ll + 1,
            rule_nn@ == "not_not"@,
            premises@.len() == 1 + k,
            premises@[0] == (0usize, ll as usize),
            forall|q: int| 0 <= q < k ==> #[trigger] premises@[1 + q] == (
                0usize,
                (ll + 1 + q) as usize,
            ),
            forall|q: int|
                0 <= q < k ==> ((#[trigger] commands_view(elaborator.top@)[ll + 1 + q]) matches
                    CommandV::Step(s) && s.rule == "not_not"@ && s.clause == seq![
                    TermV::Op(Operator::Not, seq![negated_assumes(cmdsv)[q]]),
                    stripped_assumes(cmdsv)[q],
                ] && s.premises.len() == 0 && s.args.len() == 0 && s.discharge.len() == 0),
        decreases nn - k,
    {
        let nid = elaborator.get_new_id(root_id);
        let mut cl: Vec<Term> = Vec::new();
        cl.push(not_term(&negated[k]));
        cl.push(stripped[k].deep_copy());
        proof {
            lemma_terms_view_index(cl@);
            assert(cl@.len() == 2);
            assert(crate::terms::term_view(negated@[k as int]) == negated_assumes(
                cmdsv,
            )[k as int]);
            assert(crate::terms::term_view(stripped@[k as int]) == stripped_assumes(
                cmdsv,
            )[k as int]);
            assert(crate::terms::term_view(cl@[0]) == TermV::Op(
                Operator::Not,
                seq![negated_assumes(cmdsv)[k as int]],
            ));
            assert(crate::terms::term_view(cl@[1]) == stripped_assumes(cmdsv)[k as int]);
            assert(terms_view(cl@) =~= seq![
                TermV::Op(Operator::Not, seq![negated_assumes(cmdsv)[k as int]]),
                stripped_assumes(cmdsv)[k as int],
            ]);
        }
        let step = ProofStep {
            id: nid,
            clause: cl,
            rule: rule_nn.clone(),
            premises: Vec::new(),
            args: Vec::new(),
            discharge: Vec::new(),
        };
        let ghost top0 = commands_view(elaborator.top@);
        let ghost stepv = step@;
        proof {
            lemma_commands_view_index(elaborator.top@);
            crate::ast::lemma_args_view_index(Seq::<crate::ast::ProofArg>::empty());
        }
        let r = elaborator.add_new_step(step);
        premises.push(r);
        proof {
            assert(commands_view(elaborator.top@).take(topc.len() as int) =~= topc);
            assert(r == (0usize, (ll + 1 + k) as usize));
            assert forall|q: int|
                0 <= q < k + 1 implies ((#[trigger] commands_view(elaborator.top@)[ll + 1 + q])
                matches CommandV::Step(s) && s.rule == "not_not"@ && s.clause == seq![
                TermV::Op(Operator::Not, seq![negated_assumes(cmdsv)[q]]),
                stripped_assumes(cmdsv)[q],
            ] && s.premises.len() == 0 && s.args.len() == 0 && s.discharge.len() == 0) by {
                if q < k {
                    assert(commands_view(elaborator.top@)[ll + 1 + q] == top0[ll + 1 + q]);
                } else {
                    assert(commands_view(elaborator.top@)[ll + 1 + q] == CommandV::Step(stepv));
                }
            }
        }
        k += 1;
    }

    // The step that justifies the boolean constant.
    let rule_false = String::from_str("false");
    let fid = elaborator.get_new_id(root_id);
    let mut fcl: Vec<Term> = Vec::new();
    let f = Term::False;
    fcl.push(not_term(&f));
    proof {
        lemma_terms_view_index(fcl@);
        assert(terms_view(fcl@) =~= seq![TermV::Op(Operator::Not, seq![TermV::False])]);
    }
    let ghost top1 = commands_view(elaborator.top@);
    let fstep = ProofStep {
        id: fid,
        clause: fcl,
        rule: rule_false,
        premises: Vec::new(),
        args: Vec::new(),
        discharge: Vec::new(),
    };
    let ghost fstepv = fstep@;
    proof {
        lemma_commands_view_index(elaborator.top@);
    }
    let fref = elaborator.add_new_step(fstep);
    premises.push(fref);
    proof {
        assert(fref == (0usize, (ll + na + 1) as usize));
    }

    // The resolution step that recovers the conclusion.
    let rule_res = String::from_str("resolution");
    let rid = elaborator.get_new_id(root_id);
    let ghost top2 = commands_view(elaborator.top@);
    let ghost premv = premises@;
    let rstep = ProofStep {
        id: rid,
        clause: stripped,
        rule: rule_res,
        premises,
        args: Vec::new(),
        discharge: Vec::new(),
    };
    let ghost rstepv = rstep@;
    proof {
        lemma_commands_view_index(elaborator.top@);
    }
    let rref = elaborator.add_new_step(rstep);
    proof {
        assert(rref == (0usize, (ll + na + 2) as usize));
    }

    // The outermost step that replaces the original, labelled as a hole.
    let rule_hole = String::from_str("hole");
    let hid = elaborator.get_new_id(root_id);
    let mut hcl: Vec<Term> = Vec::new();
    let mut q: usize = 0;
    while q < conclusion.len()
        invariant
            0 <= q <= conclusion@.len(),
            conclv == terms_view(conclusion@),
            conclv.len() == conclusion@.len(),
            forall|p: int| 0 <= p < conclusion@.len() ==> conclv[p] == crate::terms::term_view(
                #[trigger] conclusion@[p],
            ),
            hcl@.len() == q,
            forall|p: int| 0 <= p < q ==> crate::terms::term_view(#[trigger] hcl@[p]) == conclv[p],
        decreases conclusion@.len() - q,
    {
        hcl.push(conclusion[q].deep_copy());
        q += 1;
    }
    proof {
        lemma_terms_view_index(hcl@);
        assert forall|p: int| 0 <= p < conclv.len() implies terms_view(hcl@)[p] == conclv[p] by {
            assert(crate::terms::term_view(hcl@[p]) == conclv[p]);
        }
        assert(terms_view(hcl@) =~= conclv);
    }
    let mut hprem: Vec<(usize, usize)> = Vec::new();
    hprem.push(rref);
    let ghost top3 = commands_view(elaborator.top@);
    let hstep = ProofStep {
        id: hid,
        clause: hcl,
        rule: rule_hole,
        premises: hprem,
        args: Vec::new(),
        discharge: Vec::new(),
    };
    let ghost hstepv = hstep@;
    elaborator.push_elaborated_step(hstep);
    proof {
        let top = commands_view(elaborator.top@);
        let top_nn = top1;
        assert(top.len() == ll + na + 4);
        assert forall|q: int| 0 <= q < ll + 1 implies top[q] == topc[q] by {
            assert(top[q] == top3[q]);
            assert(top3[q] == top2[q]);
            assert(top2[q] == top_nn[q]);
            assert(top_nn.take(topc.len() as int)[q] == topc[q]);
        }
        assert(top.take(ll) =~= base.take(ll));
        assert(base.take(ll) =~= base);
        assert(hstepv.premises =~= seq![(0usize, (ll + na + 2) as usize)]);
        assert(top[ll] == topc[ll]);
        assert(top[ll] == CommandV::Subproof(acc_final.push(CommandV::Step(endv))));
        let sub = acc_final.push(CommandV::Step(endv));
        assert(acc_final =~= acc_before + upv);
        assert(acc_before.len() == nm);
        assert(upv.len() == cmdsv.len());
        assert(sub.len() == nm + cmdsv.len() + 1);
        assert forall|k2: int| 0 <= k2 < nm implies command_assume_term(#[trigger] sub[k2])
            == Some(missing_terms(conclv, cmdsv)[k2]) by {
            assert(sub[k2] == acc_before[k2]);
        }
        assert forall|k2: int| 0 <= k2 < cmdsv.len() implies #[trigger] sub[nm + k2]
            == spec_update_command(
            cmdsv[k2],
            1,
            nm,
            spec_new_id(root_id@, old(elaborator).id_counter),
        ) by {
            assert(sub[nm + k2] == upv[k2]);
        }
        assert(sub[sub.len() - 1] == CommandV::Step(endv));
        assert(endv.clause == negated_assumes(cmdsv).push(TermV::False));
        assert(endv.discharge == assume_discharges(cmdsv));
        assert forall|q: int|
            0 <= q < na implies ((#[trigger] top[ll + 1 + q]) matches CommandV::Step(s) && s.rule
            == "not_not"@ && s.clause == seq![
            TermV::Op(Operator::Not, seq![negated_assumes(cmdsv)[q]]),
            stripped_assumes(cmdsv)[q],
        ] && s.premises.len() == 0 && s.args.len() == 0 && s.discharge.len() == 0) by {
            assert(top[ll + 1 + q] == top3[ll + 1 + q]);
            assert(top3[ll + 1 + q] == top2[ll + 1 + q]);
            assert(top2[ll + 1 + q] == top_nn[ll + 1 + q]);
        }
        assert(top[ll + na + 1] == top3[ll + na + 1]);
        assert(top3[ll + na + 1] == top2[ll + na + 1]);
        assert(top2[ll + na + 1] == CommandV::Step(fstepv));
        assert(top[ll + na + 2] == top3[ll + na + 2]);
        assert(top3[ll + na + 2] == CommandV::Step(rstepv));
        let want = seq![(0usize, ll as usize)] + Seq::new(
            na as nat,
            |q: int| (0usize, (ll + 1 + q) as usize),
        ).push((0usize, (ll + na + 1) as usize));
        assert(premv.len() == want.len());
        assert forall|x: int| 0 <= x < premv.len() implies premv[x] == want[x] by {
            if x == 0 {
            } else if x < 1 + na {
                assert(premv[1 + (x - 1)] == (0usize, (ll + 1 + (x - 1)) as usize));
            } else {
                assert(premv[x] == (0usize, (ll + na + 1) as usize));
            }
        }
        assert(premv =~= want);
        assert(rstepv.clause == stripped_assumes(cmdsv));
        assert(top[ll + na + 3] == CommandV::Step(hstepv));
    }
}

/// Classifies the outside solver's observable outcome from plain values: a
/// non-success whose error text carries the timeout marker is a timeout,
/// any other non-success reports its exit code, a success whose first
/// output line is not the expected verdict is wrong output, and otherwise
/// the run is good and its proof text can go to the parser.
pub fn classify_solver_outcome(
    success: bool,
    code: Option<i32>,
    stderr_has_timeout_marker: bool,
    first_line_is_unsat: bool,
) -> (r: Result<(), LiaGenericError>)
    ensures
        !success && stderr_has_timeout_marker ==> r matches Err(LiaGenericError::SolverTimeout),
        !success && !stderr_has_timeout_marker ==> (r matches Err(
            LiaGenericError::SolverNonZeroExitCode(c),
        ) && c == code),
        success && !first_line_is_unsat ==> r matches Err(LiaGenericError::SolverOutputNotUnsat),
        success && first_line_is_unsat ==> r is Ok,
{
    if !success {
        if stderr_has_timeout_marker {
            Err(LiaGenericError::SolverTimeout)
        } else {
            Err(LiaGenericError::SolverNonZeroExitCode(code))
        }
    } else if !first_line_is_unsat {
        Err(LiaGenericError::SolverOutputNotUnsat)
    } else {
        Ok(())
    }
}

/// The decision at the heart of the bridge: the surrounding program runs
/// the outside solver on the conclusion's negations and parses and checks
/// what comes back; this function decides what to do with the outcome. A
/// failure leaves the step as it stands, recorded unchanged, and reports
/// the step as accepted-by-default; a checked sub-proof is spliced in.
pub fn lia_generic(
    elaborator: &mut Elaborator,
    solver_result: Result<Vec<ProofCommand>, LiaGenericError>,
    conclusion: &Vec<Term>,
    original_step: ProofStep,
    root_id: &String,
) -> (r: bool)
    requires
        solver_result matches Ok(cmds) ==> assumes_negated(commands_view(cmds@)) && premises_fit(
            commands_view(cmds@),
            1,
            missing_terms(terms_view(conclusion@), commands_view(cmds@)).len() as int,
        ) && old(elaborator).id_counter + conclusion@.len() + cmds@.len() + 5 <= u64::MAX
            && cmds@.len() + conclusion@.len() + 5 <= usize::MAX,
        old(elaborator).open_depth < usize::MAX,
    ensures
        r == (solver_result is Err),
        final(elaborator).open_depth == old(elaborator).open_depth,
        solver_result is Err ==> commands_view(final(elaborator).top@) == commands_view(
            old(elaborator).top@,
        ).push(command_view(ProofCommand::Step(original_step))),
        solver_result matches Ok(cmds) ==> spec_spliced(
            commands_view(old(elaborator).top@),
            commands_view(cmds@),
            terms_view(conclusion@),
            root_id@,
            old(elaborator).id_counter,
            commands_view(final(elaborator).top@),
        ),
{
    match solver_result {
        Ok(commands) => {
            insert_cvc5_proof(elaborator, commands, conclusion, root_id);
            false
        },
        Err(e) => {
            elaborator.unchanged(original_step);
            true
        },
    }
}

/// The counts of the per-assumption sequences all agree.
pub proof fn lemma_assume_seqs_len(cmds: Seq<CommandV>)
    ensures
        negated_assumes(cmds).len() == assume_terms(cmds).len(),
        stripped_assumes(cmds).len() == assume_terms(cmds).len(),
        assume_discharges(cmds).len() == assume_terms(cmds).len(),
        assume_terms(cmds).len() <= cmds.len(),
    decreases cmds.len(),
{
    if cmds.len() > 0 {
        lemma_assume_seqs_len(cmds.drop_last());
    }
}

/// Rewrites parsed commands for splicing under a sub-proof: every id gains
/// the root as a prefix, and premise references shift by the given depth
/// and index deltas; nested sub-proofs keep their own indices.
pub fn update_premises(
    commands: Vec<ProofCommand>,
    depth_delta: usize,
    index_delta: usize,
    root_id: &String,
) -> (r: Vec<ProofCommand>)
    requires
        premises_fit(commands_view(commands@), depth_delta as int, index_delta as int),
    ensures
        commands_view(r@) == Seq::new(
            commands@.len(),
            |i: int| spec_update_command(
                commands_view(commands@)[i],
                depth_delta as int,
                index_delta as int,
                root_id@,
            ),
        ),
    decreases cmds_size(commands_view(commands@)),
{
    let ghost cv = commands_view(commands@);
    let ghost orig = commands@;
    proof {
        lemma_commands_view_index(commands@);
        lemma_premises_fit_index(cv, depth_delta as int, index_delta as int);
        assert(orig.skip(0) =~= orig);
    }
    let mut rest = commands;
    let mut out: Vec<ProofCommand> = Vec::new();
    let ghost n = cv.len();
    while rest.len() > 0
        invariant
            n == cv.len(),
            n == orig.len(),
            orig == commands@,
            cv == commands_view(commands@),
            out@.len() + rest@.len() == n,
            rest@ == orig.skip(out@.len() as int),
            forall|i: int| 0 <= i < cv.len() ==> #[trigger] cv[i] == command_view(orig[i]),
            forall|i: int| 0 <= i < cv.len() ==> command_premises_fit(
                #[trigger] cv[i],
                depth_delta as int,
                index_delta as int,
            ),
            forall|i: int| 0 <= i < out@.len() ==> command_view(#[trigger] out@[i])
                == spec_update_command(cv[i], depth_delta as int, index_delta as int, root_id@),
        decreases rest@.len(),
    {
        let ghost k = out@.len();
        proof {
            assert(rest@[0] == orig[k as int]);
        }
        let c = rest.remove(0);
        proof {
            assert(c == orig[k as int]);
            assert(rest@ =~= orig.skip(k as int + 1));
            assert(command_view(c) == cv[k as int]);
            assert(command_premises_fit(cv[k as int], depth_delta as int, index_delta as int));
        }
        let updated: ProofCommand = match c {
            ProofCommand::Assume { id, term } => {
                let mut nid = root_id.clone();
                proof {
                    reveal_strlit(".");
                }
                nid.append(".");
                nid.append(id.as_str());
                proof {
                    assert(nid@ =~= root_id@ + seq!['.'] + id@);
                }
                ProofCommand::Assume { id: nid, term }
            },
            ProofCommand::Step(s) => {
                proof {
                    assert(cv[k as int] == CommandV::Step(s@));
                }
                let ghost sv = s@;
                let ProofStep { id, clause, rule, premises, args, discharge } = s;
                proof {
                    assert(sv.premises == premises@);
                    assert(command_premises_fit(
                        CommandV::Step(sv),
                        depth_delta as int,
                        index_delta as int,
                    ));
                    assert(pairs_fit(sv.premises, depth_delta as int, index_delta as int));
                    lemma_pairs_fit_index(sv.premises, depth_delta as int, index_delta as int);
                }
                let mut nid = root_id.clone();
                proof {
                    reveal_strlit(".");
                }
                nid.append(".");
                nid.append(id.as_str());
                proof {
                    assert(nid@ =~= root_id@ + seq!['.'] + id@);
                }
                let ghost pv = premises@;
                let mut np: Vec<(usize, usize)> = Vec::new();
                let m = premises.len();
                let mut j: usize = 0;
                while j < m
                    invariant
                        m == pv.len(),
                        pv == premises@,
                        0 <= j <= m,
                        forall|q: int|
                            0 <= q < pv.len() ==> #[trigger] pair_fits(
                                pv[q],
                                depth_delta as int,
                                index_delta as int,
                            ),
                        np@.len() == j,
                        forall|q: int| 0 <= q < j ==> #[trigger] np@[q] == ((
                        (pv[q].0 + depth_delta) as usize), ((pv[q].1 + index_delta) as usize)),
                    decreases m - j,
                {
                    proof {
                        assert(pair_fits(pv[j as int], depth_delta as int, index_delta as int));
                    }
                    let p = premises[j];
                    np.push((p.0 + depth_delta, p.1 + index_delta));
                    j += 1;
                }
                proof {
                    assert(np@ =~= Seq::new(
                        pv.len(),
                        |i: int| (((pv[i].0 + depth_delta) as usize), ((pv[i].1
                            + index_delta) as usize)),
                    ));
                }
                ProofCommand::Step(
                    ProofStep { id: nid, clause, rule, premises: np, args, discharge },
                )
            },
            ProofCommand::Subproof(sp) => {
                proof {
                    assert(cv[k as int] == CommandV::Subproof(commands_view(sp.commands@)));
                    assert(command_premises_fit(
                        CommandV::Subproof(commands_view(sp.commands@)),
                        depth_delta as int,
                        index_delta as int,
                    ));
                    lemma_commands_view_index(sp.commands@);
                    assert(premises_fit(
                        commands_view(sp.commands@),
                        depth_delta as int,
                        0,
                    ));
                    lemma_cmds_size_elem(cv, k as int);
                    assert(command_size(cv[k as int]) == 1 + cmds_size(
                        commands_view(sp.commands@),
                    ));
                }
                let inner = update_premises(sp.commands, depth_delta, 0, root_id);
                proof {
                    lemma_commands_view_index(inner@);
                    lemma_update_commands_index(
                        commands_view(sp.commands@),
                        depth_delta as int,
                        root_id@,
                    );
                    assert(commands_view(inner@) =~= spec_update_commands(
                        commands_view(sp.commands@),
                        depth_delta as int,
                        root_id@,
                    ));
                }
                ProofCommand::Subproof(Subproof { commands: inner })
            },
        };
        let ghost out0 = out@;
        out.push(updated);
        proof {
            crate::elaborator::lemma_commands_view_push(out0, updated);
            lemma_commands_view_index(out@);
        }
    }
    proof {
        lemma_commands_view_index(out@);
        assert(commands_view(out@) =~= Seq::new(
            cv.len(),
            |i: int| spec_update_command(cv[i], depth_delta as int, index_delta as int, root_id@),
        ));
    }
    out
}

} // verus!
