use vstd::prelude::*;
use crate::lexer::{lex, lex_spec};
use crate::parser::{parse, parse_spec, ParseError};
use crate::pretty::format_spec;
use std::collections::VecDeque;
use crate::registers::{Registers, entries_view, output_order};
use crate::text::{chars_of, string_of};
use crate::vm::{execute, run, Outcome, RuntimeError, RuntimeErrorV};

verus! {

/// Why program text could not be run to a halt.
#[derive(Debug, Clone, PartialEq, Eq)]
pub enum ProgramError {
    Parse(ParseError),
    Runtime(RuntimeError),
}

/// Lexes, parses and runs program text from the given registers.
pub fn run_text(program: &str, registers: Registers) -> (r: Result<Registers, ProgramError>)
    requires
        registers.wf(),
    ensures
        match parse_spec(lex_spec(program@)) {
            Err(pe) => r matches Err(ProgramError::Parse(e)) && e@ == pe,
            Ok(p) => match (r, execute(p, registers.view(), u64::MAX as nat)) {
                (Ok(b), Outcome::Halted(v)) => b.wf() && b.view() == v,
                (Err(ProgramError::Runtime(e)), Outcome::Failed(v)) => e@ == v,
                (Err(ProgramError::Runtime(e)), Outcome::Running(ip, _)) => e@ == if 0 <= ip < p.len() {
                    RuntimeErrorV::StepLimitReached
                } else {
                    RuntimeErrorV::ProgramOverrun
                },
                _ => false,
            },
        },
{
    let tokens = lex(program);
    match parse(tokens) {
        Err(e) => Err(ProgramError::Parse(e)),
        Ok(lines) => match run(lines, registers) {
            Ok(b) => Ok(b),
            Err(e) => Err(ProgramError::Runtime(e)),
        },
    }
}

/// One `name: value` line for each entry, in order.
pub open spec fn output_text(s: Seq<(Seq<char>, Seq<char>)>) -> Seq<char>
    decreases s.len(),
{
    if s.len() == 0 {
        Seq::empty()
    } else {
        output_text(s.drop_last()) + s.last().0 + seq![':', ' '] + s.last().1 + seq!['\n']
    }
}

fn push_queue(out: &mut Vec<char>, q: &VecDeque<char>)
    ensures
        final(out)@ == old(out)@ + q@,
{
    let ghost start = out@;
    let mut k: usize = 0;
    while k < q.len()
        invariant
            k <= q@.len(),
            out@ == start + q@.take(k as int),
        decreases q@.len() - k,
    {
        out.push(q[k]);
        assert(q@.take(k + 1) =~= q@.take(k as int).push(q@[k as int]));
        assert(start + q@.take(k + 1) =~= (start + q@.take(k as int)).push(q@[k as int]));
        k = k + 1;
    }
    assert(q@.take(k as int) =~= q@);
}

/// The final output of a run: a `name: value` line for each register with
/// non-empty contents, in name order.
pub fn render_output(registers: &Registers) -> (r: String)
    requires
        registers.wf(),
    ensures
        exists|s: Seq<(Seq<char>, Seq<char>)>| output_order(registers.view(), s) && r@ == output_text(s),
{
    let entries = registers.nonempty_sorted();
    let ghost s = entries_view(entries@);
    let mut out: Vec<char> = Vec::new();
    let mut i: usize = 0;
    while i < entries.len()
        invariant
            s == entries_view(entries@),
            i <= entries@.len(),
            out@ == output_text(s.take(i as int)),
        decreases entries@.len() - i,
    {
        let ghost before = out@;
        let mut name = chars_of(entries[i].0.as_str());
        out.append(&mut name);
        let mut sep = vec![':', ' '];
        out.append(&mut sep);
        push_queue(&mut out, &entries[i].1);
        out.push('\n');
        assert(s.take(i + 1).drop_last() =~= s.take(i as int));
        assert(out@ =~= before + s[i as int].0 + seq![':', ' '] + s[i as int].1 + seq!['\n']);
        i = i + 1;
    }
    assert(s.take(i as int) =~= s);
    string_of(&out)
}

/// Parses program text and renders it in canonical form.
pub fn format_text(program: &str) -> (r: Result<String, ParseError>)
    ensures
        match (r, parse_spec(lex_spec(program@))) {
            (Ok(s), Ok(p)) => s@ == format_spec(p),
            (Err(e), Err(v)) => e@ == v,
            _ => false,
        },
{
    let tokens = lex(program);
    match parse(tokens) {
        Err(e) => Err(e),
        Ok(lines) => Ok(crate::pretty::format(lines)),
    }
}

} // verus!
