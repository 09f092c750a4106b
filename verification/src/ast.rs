use vstd::prelude::*;

use crate::terms::{Term, TermV, terms_view};

verus! {

broadcast use vstd::std_specs::vec::group_vec_axioms, vstd::seq::group_seq_axioms;

/// An argument attached to a proof step: a plain term, or a named
/// assignment.
pub enum ProofArg {
    Term(Term),
    Assign(String, Term),
}

/// The shape of a proof argument.
pub enum ProofArgV {
    Term(TermV),
    Assign(Seq<char>, TermV),
}

impl View for ProofArg {
    type V = ProofArgV;

    open spec fn view(&self) -> ProofArgV {
        match self {
            ProofArg::Term(t) => ProofArgV::Term(t@),
            ProofArg::Assign(n, t) => ProofArgV::Assign(n@, t@),
        }
    }
}

/// The term a plain argument carries; named assignments carry none here.
pub open spec fn spec_arg_as_term(a: ProofArgV) -> Option<TermV> {
    match a {
        ProofArgV::Term(t) => Some(t),
        ProofArgV::Assign(n, t) => None,
    }
}

/// The name and value a named-assignment argument carries.
pub open spec fn spec_arg_assign(a: ProofArgV) -> Option<(Seq<char>, TermV)> {
    match a {
        ProofArgV::Assign(n, t) => Some((n, t)),
        ProofArgV::Term(t) => None,
    }
}

/// The shapes of a run of proof arguments.
pub open spec fn args_view(s: Seq<ProofArg>) -> Seq<ProofArgV>
    decreases s.len(),
{
    if s.len() == 0 {
        Seq::empty()
    } else {
        args_view(s.drop_last()).push(s.last()@)
    }
}

pub proof fn lemma_args_view_index(s: Seq<ProofArg>)
    ensures
        args_view(s).len() == s.len(),
        forall|i: int| 0 <= i < s.len() ==> #[trigger] args_view(s)[i] == s[i]@,
    decreases s.len(),
{
    if s.len() > 0 {
        lemma_args_view_index(s.drop_last());
        assert forall|i: int| 0 <= i < s.len() implies #[trigger] args_view(s)[i] == s[i]@ by {
            if i < s.len() - 1 {
                assert(s.drop_last()[i] == s[i]);
            } else {
                assert(s[i] == s.last());
            }
        }
    }
}

/// A derived step: an id, a derived clause, the rule it claims, premise
/// references as depth/index pairs, rule arguments, and discharged
/// assumptions.
pub struct ProofStep {
    pub id: String,
    pub clause: Vec<Term>,
    pub rule: String,
    pub premises: Vec<(usize, usize)>,
    pub args: Vec<ProofArg>,
    pub discharge: Vec<(usize, usize)>,
}

/// The shape of a proof step.
pub struct StepV {
    pub id: Seq<char>,
    pub clause: Seq<TermV>,
    pub rule: Seq<char>,
    pub premises: Seq<(usize, usize)>,
    pub args: Seq<ProofArgV>,
    pub discharge: Seq<(usize, usize)>,
}

impl View for ProofStep {
    type V = StepV;

    open spec fn view(&self) -> StepV {
        StepV {
            id: self.id@,
            clause: terms_view(self.clause@),
            rule: self.rule@,
            premises: self.premises@,
            args: args_view(self.args@),
            discharge: self.discharge@,
        }
    }
}

/// One command of a proof: an assumption, a derived step, or a nested
/// sub-proof whose last command's clause is exported.
pub enum ProofCommand {
    Assume { id: String, term: Term },
    Step(ProofStep),
    Subproof(Subproof),
}

/// A nested proof block.
pub struct Subproof {
    pub commands: Vec<ProofCommand>,
}

/// The shape of a proof command.
pub enum CommandV {
    Assume { id: Seq<char>, term: TermV },
    Step(StepV),
    Subproof(Seq<CommandV>),
}

pub open spec fn command_view(c: ProofCommand) -> CommandV
    decreases c,
{
    match c {
        ProofCommand::Assume { id, term } => CommandV::Assume { id: id@, term: term@ },
        ProofCommand::Step(s) => CommandV::Step(s@),
        ProofCommand::Subproof(sp) => CommandV::Subproof(commands_view(sp.commands@)),
    }
}

pub open spec fn commands_view(s: Seq<ProofCommand>) -> Seq<CommandV>
    decreases s,
{
    if s.len() == 0 {
        Seq::empty()
    } else {
        commands_view(s.drop_last()).push(command_view(s.last()))
    }
}

impl View for ProofCommand {
    type V = CommandV;

    open spec fn view(&self) -> CommandV {
        command_view(*self)
    }
}

pub proof fn lemma_commands_view_index(s: Seq<ProofCommand>)
    ensures
        commands_view(s).len() == s.len(),
        forall|i: int| 0 <= i < s.len() ==> #[trigger] commands_view(s)[i] == command_view(s[i]),
    decreases s.len(),
{
    if s.len() > 0 {
        lemma_commands_view_index(s.drop_last());
        assert forall|i: int| 0 <= i < s.len() implies #[trigger] commands_view(s)[i]
            == command_view(s[i]) by {
            if i < s.len() - 1 {
                assert(s.drop_last()[i] == s[i]);
            } else {
                assert(s[i] == s.last());
            }
        }
    }
}

/// A proof: the commands of its outermost scope.
pub struct Proof {
    pub commands: Vec<ProofCommand>,
}

impl View for Proof {
    type V = Seq<CommandV>;

    open spec fn view(&self) -> Seq<CommandV> {
        commands_view(self.commands@)
    }
}

} // verus!
