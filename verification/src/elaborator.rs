use vstd::prelude::*;

use vstd::string::StringExecFns;

use crate::ast::{command_view, commands_view, CommandV, ProofCommand, ProofStep, Subproof};

verus! {

broadcast use vstd::std_specs::vec::group_vec_axioms, vstd::seq::group_seq_axioms;

/// The decimal digit character for a value below ten.
pub open spec fn spec_digit(d: u64) -> char {
    if d == 0 {
        '0'
    } else if d == 1 {
        '1'
    } else if d == 2 {
        '2'
    } else if d == 3 {
        '3'
    } else if d == 4 {
        '4'
    } else if d == 5 {
        '5'
    } else if d == 6 {
        '6'
    } else if d == 7 {
        '7'
    } else if d == 8 {
        '8'
    } else {
        '9'
    }
}

/// The decimal rendering of a number.
pub open spec fn spec_digits(n: u64) -> Seq<char>
    decreases n,
{
    if n < 10 {
        seq![spec_digit(n)]
    } else {
        spec_digits(n / 10).push(spec_digit(n % 10))
    }
}

/// Appends one decimal digit to a string.
fn push_digit(s: &mut String, d: u64)
    requires
        d < 10,
    ensures
        final(s)@ == old(s)@.push(spec_digit(d)),
{
    if d == 0 {
        proof {
            reveal_strlit("0");
        }
        s.append("0");
    } else if d == 1 {
        proof {
            reveal_strlit("1");
        }
        s.append("1");
    } else if d == 2 {
        proof {
            reveal_strlit("2");
        }
        s.append("2");
    } else if d == 3 {
        proof {
            reveal_strlit("3");
        }
        s.append("3");
    } else if d == 4 {
        proof {
            reveal_strlit("4");
        }
        s.append("4");
    } else if d == 5 {
        proof {
            reveal_strlit("5");
        }
        s.append("5");
    } else if d == 6 {
        proof {
            reveal_strlit("6");
        }
        s.append("6");
    } else if d == 7 {
        proof {
            reveal_strlit("7");
        }
        s.append("7");
    } else if d == 8 {
        proof {
            reveal_strlit("8");
        }
        s.append("8");
    } else {
        proof {
            reveal_strlit("9");
        }
        s.append("9");
    }
    proof {
        assert(final(s)@ =~= old(s)@.push(spec_digit(d)));
    }
}

/// Appends the decimal rendering of `n` to a string.
fn push_u64(s: &mut String, n: u64)
    ensures
        final(s)@ == old(s)@ + spec_digits(n),
    decreases n,
{
    if n < 10 {
        push_digit(s, n);
        proof {
            assert(final(s)@ =~= old(s)@ + spec_digits(n));
        }
    } else {
        push_u64(s, n / 10);
        push_digit(s, n % 10);
        proof {
            assert(final(s)@ =~= old(s)@ + spec_digits(n));
        }
    }
}

/// The id the elaborator mints under a root: the root, a dot, a `t`, and a
/// running number.
pub open spec fn spec_new_id(root: Seq<char>, n: u64) -> Seq<char> {
    root + seq!['.', 't'] + spec_digits(n)
}

/// Builds rewritten proofs beside the one being checked: it accumulates
/// commands, opens and closes one nested accumulator sub-proof, and mints
/// fresh step ids under a root.
pub struct Elaborator {
    pub top: Vec<ProofCommand>,
    pub accumulator: Vec<ProofCommand>,
    pub open_depth: usize,
    pub id_counter: u64,
}

impl Elaborator {
    pub fn new() -> (r: Elaborator)
        ensures
            r.top@.len() == 0,
            r.accumulator@.len() == 0,
            r.open_depth == 0,
            r.id_counter == 0,
    {
        Elaborator { top: Vec::new(), accumulator: Vec::new(), open_depth: 0, id_counter: 0 }
    }

    /// Mints a fresh id under `root_id`, advancing the counter.
    pub fn get_new_id(&mut self, root_id: &String) -> (r: String)
        requires
            old(self).id_counter < u64::MAX,
        ensures
            r@ == spec_new_id(root_id@, old(self).id_counter),
            final(self).id_counter == old(self).id_counter + 1,
            final(self).top == old(self).top,
            final(self).accumulator == old(self).accumulator,
            final(self).open_depth == old(self).open_depth,
    {
        let mut s = root_id.clone();
        proof {
            reveal_strlit(".t");
        }
        s.append(".t");
        let c = self.id_counter;
        push_u64(&mut s, c);
        self.id_counter = c + 1;
        proof {
            assert(s@ =~= spec_new_id(root_id@, old(self).id_counter));
        }
        s
    }

    /// Opens the accumulator sub-proof: commands added from now on belong
    /// to it.
    pub fn open_accumulator_subproof(&mut self)
        requires
            old(self).open_depth < usize::MAX,
        ensures
            final(self).open_depth == old(self).open_depth + 1,
            final(self).accumulator@.len() == 0,
            final(self).top == old(self).top,
            final(self).id_counter == old(self).id_counter,
    {
        self.accumulator = Vec::new();
        self.open_depth = self.open_depth + 1;
    }

    /// Adds a command to the open accumulator sub-proof and returns its
    /// position there.
    pub fn add_new_command(&mut self, command: ProofCommand) -> (r: usize)
        requires
            old(self).open_depth > 0,
        ensures
            final(self).accumulator@ == old(self).accumulator@.push(command),
            r == old(self).accumulator@.len(),
            final(self).top == old(self).top,
            final(self).open_depth == old(self).open_depth,
            final(self).id_counter == old(self).id_counter,
    {
        let r = self.accumulator.len();
        self.accumulator.push(command);
        r
    }

    /// Closes the accumulator sub-proof: its commands and the closing step
    /// become one nested sub-proof appended to the enclosing level. Returns
    /// the position of that sub-proof as a premise reference.
    pub fn close_accumulator_subproof(&mut self, end_step: ProofStep) -> (r: (usize, usize))
        requires
            old(self).open_depth > 0,
        ensures
            final(self).open_depth == old(self).open_depth - 1,
            final(self).accumulator@.len() == 0,
            commands_view(final(self).top@) == commands_view(old(self).top@).push(
                CommandV::Subproof(
                    commands_view(old(self).accumulator@).push(command_view(
                        ProofCommand::Step(end_step),
                    )),
                ),
            ),
            r == (0usize, old(self).top@.len() as usize),
            final(self).id_counter == old(self).id_counter,
    {
        let r = (0usize, self.top.len());
        let mut commands: Vec<ProofCommand> = Vec::new();
        core::mem::swap(&mut commands, &mut self.accumulator);
        let ghost acc0 = commands@;
        commands.push(ProofCommand::Step(end_step));
        let sp = ProofCommand::Subproof(Subproof { commands });
        let ghost top0 = self.top@;
        self.top.push(sp);
        self.open_depth = self.open_depth - 1;
        proof {
            crate::ast::lemma_commands_view_index(self.top@);
            crate::ast::lemma_commands_view_index(top0);
            lemma_commands_view_push(top0, sp);
            lemma_commands_view_push(acc0, ProofCommand::Step(end_step));
        }
        r
    }

    /// Appends a finished step at the enclosing level and returns its
    /// position as a premise reference.
    pub fn add_new_step(&mut self, step: ProofStep) -> (r: (usize, usize))
        ensures
            commands_view(final(self).top@) == commands_view(old(self).top@).push(
                command_view(ProofCommand::Step(step)),
            ),
            r == (0usize, old(self).top@.len() as usize),
            final(self).accumulator == old(self).accumulator,
            final(self).open_depth == old(self).open_depth,
            final(self).id_counter == old(self).id_counter,
    {
        let r = (0usize, self.top.len());
        let ghost top0 = self.top@;
        let ghost c = ProofCommand::Step(step);
        self.top.push(ProofCommand::Step(step));
        proof {
            lemma_commands_view_push(top0, c);
        }
        r
    }

    /// Appends the step that replaces the one being elaborated.
    pub fn push_elaborated_step(&mut self, step: ProofStep)
        ensures
            commands_view(final(self).top@) == commands_view(old(self).top@).push(
                command_view(ProofCommand::Step(step)),
            ),
            final(self).accumulator == old(self).accumulator,
            final(self).open_depth == old(self).open_depth,
            final(self).id_counter == old(self).id_counter,
    {
        let ghost top0 = self.top@;
        let ghost c = ProofCommand::Step(step);
        self.top.push(ProofCommand::Step(step));
        proof {
            lemma_commands_view_push(top0, c);
        }
    }

    /// Records the step being elaborated as unchanged.
    pub fn unchanged(&mut self, step: ProofStep)
        ensures
            commands_view(final(self).top@) == commands_view(old(self).top@).push(
                command_view(ProofCommand::Step(step)),
            ),
            final(self).accumulator == old(self).accumulator,
            final(self).open_depth == old(self).open_depth,
            final(self).id_counter == old(self).id_counter,
    {
        let ghost top0 = self.top@;
        let ghost c = ProofCommand::Step(step);
        self.top.push(ProofCommand::Step(step));
        proof {
            lemma_commands_view_push(top0, c);
        }
    }
}

/// Command views after a push are the old views plus the new command's.
pub proof fn lemma_commands_view_push(s: Seq<ProofCommand>, c: ProofCommand)
    ensures
        commands_view(s.push(c)) =~= commands_view(s).push(command_view(c)),
{
    crate::ast::lemma_commands_view_index(s);
    crate::ast::lemma_commands_view_index(s.push(c));
    let l = commands_view(s.push(c));
    let r = commands_view(s).push(command_view(c));
    assert(l.len() == r.len());
    assert forall|i: int| 0 <= i < l.len() implies l[i] == r[i] by {
        if i < s.len() {
            assert(s.push(c)[i] == s[i]);
        } else {
            assert(s.push(c)[i] == c);
        }
    }
}

} // verus!
