use vstd::prelude::*;
use crate::parser::{Instruction, InstructionV, Line, LineV, lines_view};
use crate::text::{chars_of, string_of};

verus! {

/// `n` spaces.
pub open spec fn spaces(n: nat) -> Seq<char>
    decreases n,
{
    if n == 0 {
        Seq::empty()
    } else {
        spaces((n - 1) as nat).push(' ')
    }
}

/// The canonical surface syntax of one instruction.
pub open spec fn instruction_text(i: InstructionV) -> Seq<char> {
    match i {
        InstructionV::Clr(r) => seq!['c', 'l', 'r', ' '] + r,
        InstructionV::Del(r) => seq!['d', 'e', 'l', ' '] + r,
        InstructionV::Add(r, c) => seq!['a', 'd', 'd', c, ' '] + r,
        InstructionV::Copy(d, s) => d + seq![' ', '<', '-', ' '] + s,
        InstructionV::Jmp(l) => seq!['j', 'm', 'p', ' '] + l,
        InstructionV::CondJmp(r, c, l) => r + seq![' ', 'j', 'm', 'p', c, ' '] + l,
        InstructionV::Continue => seq!['c', 'o', 'n', 't', 'i', 'n', 'u', 'e'],
    }
}

/// The text of `ls` and the indent that an unlabelled line after them gets:
/// each labelled line starts a block (after a blank line, unless it is the
/// first), and unlabelled lines are indented past the widest label so far
/// and its `: `.
pub open spec fn render(ls: Seq<LineV>) -> (Seq<char>, Option<nat>)
    decreases ls.len(),
{
    if ls.len() == 0 {
        (Seq::empty(), None)
    } else {
        let (t, indent) = render(ls.drop_last());
        let l = ls.last();
        match l.label {
            Some(name) => (
                t + (if indent is Some { seq!['\n'] } else { Seq::empty() }) + name + seq![':', ' ']
                    + instruction_text(l.instruction) + seq!['\n'],
                Some(
                    match indent {
                        Some(n) => if n >= name.len() + 2 {
                            n
                        } else {
                            name.len() + 2
                        },
                        None => name.len() + 2,
                    },
                ),
            ),
            None => (
                t + spaces(
                    match indent {
                        Some(n) => n,
                        None => 0,
                    },
                ) + instruction_text(l.instruction) + seq!['\n'],
                indent,
            ),
        }
    }
}

/// The formatted text of a program.
pub open spec fn format_spec(ls: Seq<LineV>) -> Seq<char> {
    render(ls).0
}

proof fn lemma_spaces_add(a: nat, b: nat)
    ensures
        spaces(a) + spaces(b) == spaces(a + b),
    decreases b,
{
    if b == 0 {
        assert(spaces(a) + spaces(0) =~= spaces(a));
    } else {
        lemma_spaces_add(a, (b - 1) as nat);
        assert(spaces(a) + spaces(b) =~= (spaces(a) + spaces((b - 1) as nat)).push(' '));
    }
}

fn push_all(out: &mut Vec<char>, s: Vec<char>)
    ensures
        final(out)@ == old(out)@ + s@,
{
    let mut s = s;
    out.append(&mut s);
}

fn push_name(out: &mut Vec<char>, s: &String)
    ensures
        final(out)@ == old(out)@ + s@,
{
    push_all(out, chars_of(s.as_str()));
}

fn push_spaces(out: &mut Vec<char>, n: usize)
    ensures
        final(out)@ == old(out)@ + spaces(n as nat),
{
    let ghost start = out@;
    let mut i: usize = 0;
    while i < n
        invariant
            i <= n,
            out@ == start + spaces(i as nat),
        decreases n - i,
    {
        out.push(' ');
        assert(start + spaces((i + 1) as nat) =~= (start + spaces(i as nat)).push(' '));
        i = i + 1;
    }
}

fn push_instruction(out: &mut Vec<char>, i: &Instruction)
    ensures
        final(out)@ == old(out)@ + instruction_text(i@),
{
    let ghost start = out@;
    match i {
        Instruction::Clr(r) => {
            push_all(out, vec!['c', 'l', 'r', ' ']);
            push_name(out, r);
        },
        Instruction::Del(r) => {
            push_all(out, vec!['d', 'e', 'l', ' ']);
            push_name(out, r);
        },
        Instruction::Add(r, c) => {
            push_all(out, vec!['a', 'd', 'd', *c, ' ']);
            push_name(out, r);
        },
        Instruction::Copy(d, s) => {
            push_name(out, d);
            push_all(out, vec![' ', '<', '-', ' ']);
            push_name(out, s);
        },
        Instruction::Jmp(l) => {
            push_all(out, vec!['j', 'm', 'p', ' ']);
            push_name(out, l);
        },
        Instruction::CondJmp(r, c, l) => {
            push_name(out, r);
            push_all(out, vec![' ', 'j', 'm', 'p', *c, ' ']);
            push_name(out, l);
        },
        Instruction::Continue => {
            push_all(out, vec!['c', 'o', 'n', 't', 'i', 'n', 'u', 'e']);
        },
    }
    assert(out@ =~= start + instruction_text(i@));
}

/// Renders a program as canonical text: one instruction per line, labels flush
/// left and followed by `: `, unlabelled lines indented by the width of the
/// widest label before them plus two.
pub fn format(lines: Vec<Line>) -> (r: String)
    ensures
        r@ == format_spec(lines_view(lines@)),
{
    let ghost p = lines_view(lines@);
    let mut out: Vec<char> = Vec::new();
    let mut widest: Option<usize> = None;
    let mut i: usize = 0;
    while i < lines.len()
        invariant
            p == lines_view(lines@),
            i <= lines@.len(),
            out@ == render(p.take(i as int)).0,
            match (widest, render(p.take(i as int)).1) {
                (Some(w), Some(v)) => v == w + 2,
                (None, None) => true,
                _ => false,
            },
        decreases lines@.len() - i,
    {
        assert(p.take(i + 1).drop_last() =~= p.take(i as int));
        assert(p.take(i + 1).last() == lines@[i as int]@);
        let l = &lines[i];
        match &l.label {
            Some(name) => {
                if widest.is_some() {
                    out.push('\n');
                }
                push_name(&mut out, name);
                push_all(&mut out, vec![':', ' ']);
                push_instruction(&mut out, &l.instruction);
                out.push('\n');
                let w = name.as_str().unicode_len();
                match widest {
                    Some(m) => {
                        if w > m {
                            widest = Some(w);
                        }
                    },
                    None => {
                        widest = Some(w);
                    },
                }
            },
            None => {
                match widest {
                    Some(w) => {
                        let ghost before = out@;
                        push_spaces(&mut out, w);
                        push_spaces(&mut out, 2);
                        proof {
                            lemma_spaces_add(w as nat, 2);
                            assert(before + spaces(w as nat) + spaces(2) =~= before + spaces((w + 2) as nat));
                        }
                    },
                    None => {
                        assert(spaces(0) =~= Seq::<char>::empty());
                        assert(out@ + spaces(0) =~= out@);
                    },
                }
                push_instruction(&mut out, &l.instruction);
                out.push('\n');
            },
        }
        i = i + 1;
    }
    assert(p.take(i as int) =~= p);
    string_of(&out)
}

} // verus!
