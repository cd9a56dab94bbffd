use vstd::prelude::*;
use crate::lexer::{Token, TokenV, tokens_view};

verus! {

/// One instruction; registers and labels are named by strings.
#[derive(Debug, Clone, PartialEq, Eq)]
pub enum Instruction {
    Clr(String),
    Del(String),
    Add(String, char),
    Copy(String, String),
    Jmp(String),
    CondJmp(String, char, String),
    Continue,
}

pub enum InstructionV {
    Clr(Seq<char>),
    Del(Seq<char>),
    Add(Seq<char>, char),
    Copy(Seq<char>, Seq<char>),
    Jmp(Seq<char>),
    CondJmp(Seq<char>, char, Seq<char>),
    Continue,
}

impl View for Instruction {
    type V = InstructionV;

    open spec fn view(&self) -> InstructionV {
        match self {
            Instruction::Clr(r) => InstructionV::Clr(r@),
            Instruction::Del(r) => InstructionV::Del(r@),
            Instruction::Add(r, c) => InstructionV::Add(r@, *c),
            Instruction::Copy(d, s) => InstructionV::Copy(d@, s@),
            Instruction::Jmp(l) => InstructionV::Jmp(l@),
            Instruction::CondJmp(r, c, l) => InstructionV::CondJmp(r@, *c, l@),
            Instruction::Continue => InstructionV::Continue,
        }
    }
}

/// An instruction with the label, if any, that marks its position.
#[derive(Debug, Clone, PartialEq, Eq)]
pub struct Line {
    pub label: Option<String>,
    pub instruction: Instruction,
}

pub struct LineV {
    pub label: Option<Seq<char>>,
    pub instruction: InstructionV,
}

impl View for Line {
    type V = LineV;

    open spec fn view(&self) -> LineV {
        LineV {
            label: match self.label {
                Some(l) => Some(l@),
                None => None,
            },
            instruction: self.instruction@,
        }
    }
}

pub open spec fn lines_view(ls: Seq<Line>) -> Seq<LineV> {
    ls.map_values(|l: Line| l@)
}

/// The instruction that lacks an operand in a `MissingOperand` error.
#[derive(Debug, Clone, Copy, PartialEq, Eq)]
pub enum Operation {
    Clear,
    Delete,
    Append,
    Copy,
    Jump,
    ConditionalJump,
}

/// Why program text is not a program.
#[derive(Debug, Clone, PartialEq, Eq)]
pub enum ParseError {
    /// A label is the last token.
    LabelWithoutInstruction,
    /// A line starts with an identifier that is the last token.
    MissingOperator,
    /// The token stands where the grammar does not allow it.
    UnexpectedToken(Token),
    /// The instruction is not followed by the identifier it needs.
    MissingOperand(Operation),
}

pub enum ParseErrorV {
    LabelWithoutInstruction,
    MissingOperator,
    UnexpectedToken(TokenV),
    MissingOperand(Operation),
}

impl View for ParseError {
    type V = ParseErrorV;

    open spec fn view(&self) -> ParseErrorV {
        match self {
            ParseError::LabelWithoutInstruction => ParseErrorV::LabelWithoutInstruction,
            ParseError::MissingOperator => ParseErrorV::MissingOperator,
            ParseError::UnexpectedToken(t) => ParseErrorV::UnexpectedToken(t@),
            ParseError::MissingOperand(o) => ParseErrorV::MissingOperand(*o),
        }
    }
}

/// The identifier at `j`, if there is one; else the operand of `op` is missing.
pub open spec fn operand_at(t: Seq<TokenV>, j: int, op: Operation) -> Result<Seq<char>, ParseErrorV> {
    if 0 <= j < t.len() && t[j] is Ident {
        Ok(t[j]->Ident_0)
    } else {
        Err(ParseErrorV::MissingOperand(op))
    }
}

/// The instruction that starts at token `j`, and the position after it.
pub open spec fn instruction_at(t: Seq<TokenV>, j: int) -> Result<(InstructionV, int), ParseErrorV>
    recommends
        0 <= j < t.len(),
{
    match t[j] {
        TokenV::Ident(d) => {
            if j + 1 >= t.len() {
                Err(ParseErrorV::MissingOperator)
            } else {
                match t[j + 1] {
                    TokenV::CondJmp(c) => match operand_at(t, j + 2, Operation::ConditionalJump) {
                        Ok(l) => Ok((InstructionV::CondJmp(d, c, l), j + 3)),
                        Err(e) => Err(e),
                    },
                    TokenV::Copy => match operand_at(t, j + 2, Operation::Copy) {
                        Ok(s) => Ok((InstructionV::Copy(d, s), j + 3)),
                        Err(e) => Err(e),
                    },
                    other => Err(ParseErrorV::UnexpectedToken(other)),
                }
            }
        },
        TokenV::Clr => match operand_at(t, j + 1, Operation::Clear) {
            Ok(r) => Ok((InstructionV::Clr(r), j + 2)),
            Err(e) => Err(e),
        },
        TokenV::Del => match operand_at(t, j + 1, Operation::Delete) {
            Ok(r) => Ok((InstructionV::Del(r), j + 2)),
            Err(e) => Err(e),
        },
        TokenV::Add(c) => match operand_at(t, j + 1, Operation::Append) {
            Ok(r) => Ok((InstructionV::Add(r, c), j + 2)),
            Err(e) => Err(e),
        },
        TokenV::Jmp => match operand_at(t, j + 1, Operation::Jump) {
            Ok(l) => Ok((InstructionV::Jmp(l), j + 2)),
            Err(e) => Err(e),
        },
        TokenV::Continue => Ok((InstructionV::Continue, j + 1)),
        other => Err(ParseErrorV::UnexpectedToken(other)),
    }
}

/// The line that starts at token `i`, and the position after it.
pub open spec fn line_at(t: Seq<TokenV>, i: int) -> Result<(LineV, int), ParseErrorV>
    recommends
        0 <= i < t.len(),
{
    let (label, j) = match t[i] {
        TokenV::Label(l) => (Some(l), i + 1),
        _ => (None, i),
    };
    if j >= t.len() {
        Err(ParseErrorV::LabelWithoutInstruction)
    } else {
        match instruction_at(t, j) {
            Ok((ins, k)) => Ok((LineV { label, instruction: ins }, k)),
            Err(e) => Err(e),
        }
    }
}

/// The lines of the tokens from `i` on, or the first error met there.
pub open spec fn parse_from(t: Seq<TokenV>, i: int) -> Result<Seq<LineV>, ParseErrorV>
    decreases t.len() - i,
{
    if i < 0 || i >= t.len() {
        Ok(Seq::empty())
    } else {
        match line_at(t, i) {
            Err(e) => Err(e),
            Ok((l, k)) => if k <= i {
                Ok(Seq::empty())
            } else {
                match parse_from(t, k) {
                    Ok(rest) => Ok(seq![l] + rest),
                    Err(e) => Err(e),
                }
            },
        }
    }
}

/// The program that a token sequence denotes.
pub open spec fn parse_spec(t: Seq<TokenV>) -> Result<Seq<LineV>, ParseErrorV> {
    parse_from(t, 0)
}

proof fn lemma_line_advances(t: Seq<TokenV>, i: int)
    requires
        0 <= i < t.len(),
    ensures
        line_at(t, i) matches Ok((_, k)) ==> i < k <= t.len(),
{
}

fn operand(tokens: &Vec<Token>, j: usize, op: Operation) -> (r: Result<String, ParseError>)
    ensures
        match (r, operand_at(tokens_view(tokens@), j as int, op)) {
            (Ok(s), Ok(v)) => s@ == v,
            (Err(e), Err(v)) => e@ == v,
            _ => false,
        },
{
    if j < tokens.len() {
        match &tokens[j] {
            Token::Ident(s) => {
                return Ok(s.clone());
            },
            _ => {},
        }
    }
    Err(ParseError::MissingOperand(op))
}

fn instruction(tokens: &Vec<Token>, j: usize) -> (r: Result<(Instruction, usize), ParseError>)
    requires
        j < tokens@.len(),
    ensures
        match (r, instruction_at(tokens_view(tokens@), j as int)) {
            (Ok((ins, k)), Ok((iv, kv))) => ins@ == iv && k == kv,
            (Err(e), Err(v)) => e@ == v,
            _ => false,
        },
{
    let n = tokens.len();
    let ghost t = tokens_view(tokens@);
    assert(t[j as int] == tokens@[j as int]@);
    assert(j + 1 < tokens@.len() ==> t[j + 1] == tokens@[j + 1]@);
    match &tokens[j] {
        Token::Ident(d) => {
            if j + 1 >= n {
                return Err(ParseError::MissingOperator);
            }
            match &tokens[j + 1] {
                Token::CondJmp(c) => match operand(tokens, j + 2, Operation::ConditionalJump) {
                    Ok(l) => Ok((Instruction::CondJmp(d.clone(), *c, l), j + 3)),
                    Err(e) => Err(e),
                },
                Token::Copy => match operand(tokens, j + 2, Operation::Copy) {
                    Ok(s) => Ok((Instruction::Copy(d.clone(), s), j + 3)),
                    Err(e) => Err(e),
                },
                other => Err(ParseError::UnexpectedToken(other.duplicate())),
            }
        },
        Token::Clr => match operand(tokens, j + 1, Operation::Clear) {
            Ok(r) => Ok((Instruction::Clr(r), j + 2)),
            Err(e) => Err(e),
        },
        Token::Del => match operand(tokens, j + 1, Operation::Delete) {
            Ok(r) => Ok((Instruction::Del(r), j + 2)),
            Err(e) => Err(e),
        },
        Token::Add(c) => match operand(tokens, j + 1, Operation::Append) {
            Ok(r) => Ok((Instruction::Add(r, *c), j + 2)),
            Err(e) => Err(e),
        },
        Token::Jmp => match operand(tokens, j + 1, Operation::Jump) {
            Ok(l) => Ok((Instruction::Jmp(l), j + 2)),
            Err(e) => Err(e),
        },
        Token::Continue => Ok((Instruction::Continue, j + 1)),
        other => Err(ParseError::UnexpectedToken(other.duplicate())),
    }
}

fn line(tokens: &Vec<Token>, i: usize) -> (r: Result<(Line, usize), ParseError>)
    requires
        i < tokens@.len(),
    ensures
        match (r, line_at(tokens_view(tokens@), i as int)) {
            (Ok((l, k)), Ok((lv, kv))) => l@ == lv && k == kv,
            (Err(e), Err(v)) => e@ == v,
            _ => false,
        },
{
    let n = tokens.len();
    let ghost t = tokens_view(tokens@);
    assert(t[i as int] == tokens@[i as int]@);
    let (label, j) = match &tokens[i] {
        Token::Label(l) => (Some(l.clone()), i + 1),
        _ => (None, i),
    };
    if j >= n {
        return Err(ParseError::LabelWithoutInstruction);
    }
    match instruction(tokens, j) {
        Ok((ins, k)) => Ok((Line { label, instruction: ins }, k)),
        Err(e) => Err(e),
    }
}

/// Parses a token sequence into lines, left to right; fails at the first
/// malformed line.
pub fn parse(tokens: Vec<Token>) -> (r: Result<Vec<Line>, ParseError>)
    ensures
        match (r, parse_spec(tokens_view(tokens@))) {
            (Ok(ls), Ok(v)) => lines_view(ls@) == v,
            (Err(e), Err(v)) => e@ == v,
            _ => false,
        },
{
    let ghost t = tokens_view(tokens@);
    let mut res: Vec<Line> = Vec::new();
    let mut i: usize = 0;
    while i < tokens.len()
        invariant
            t == tokens_view(tokens@),
            i <= tokens@.len(),
            parse_spec(t) == match parse_from(t, i as int) {
                Ok(rest) => Ok(lines_view(res@) + rest),
                Err(e) => Err(e),
            },
        decreases tokens@.len() - i,
    {
        proof {
            lemma_line_advances(t, i as int);
        }
        match line(&tokens, i) {
            Ok((l, k)) => {
                let ghost before = res@;
                res.push(l);
                proof {
                    assert(lines_view(res@) =~= lines_view(before).push(l@));
                    match parse_from(t, k as int) {
                        Ok(rest) => {
                            assert(lines_view(before) + (seq![l@] + rest)
                                =~= lines_view(res@) + rest);
                        },
                        Err(_) => {},
                    }
                }
                i = k;
            },
            Err(e) => {
                return Err(e);
            },
        }
    }
    assert(lines_view(res@) + Seq::<LineV>::empty() =~= lines_view(res@));
    Ok(res)
}

} // verus!
