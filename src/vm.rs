use vstd::prelude::*;
use crate::parser::{Instruction, InstructionV, Line, LineV, lines_view};
use std::collections::VecDeque;
use crate::registers::Registers;

verus! {

/// Why a well-formed program stopped without halting.
#[derive(Debug, Clone, PartialEq, Eq)]
pub enum RuntimeError {
    /// `del` on a register that is absent or empty.
    EmptyRegister(String),
    /// A jump, taken, to a label that no line carries.
    UnknownLabel(String),
    /// The instruction pointer ran past the last line.
    ProgramOverrun,
    /// The step budget of a bounded run was used up.
    StepLimitReached,
}

pub enum RuntimeErrorV {
    EmptyRegister(Seq<char>),
    UnknownLabel(Seq<char>),
    ProgramOverrun,
    StepLimitReached,
}

impl View for RuntimeError {
    type V = RuntimeErrorV;

    open spec fn view(&self) -> RuntimeErrorV {
        match self {
            RuntimeError::EmptyRegister(r) => RuntimeErrorV::EmptyRegister(r@),
            RuntimeError::UnknownLabel(l) => RuntimeErrorV::UnknownLabel(l@),
            RuntimeError::ProgramOverrun => RuntimeErrorV::ProgramOverrun,
            RuntimeError::StepLimitReached => RuntimeErrorV::StepLimitReached,
        }
    }
}

/// A register bank as a map from name to queue contents, front first.
pub type Bank = Map<Seq<char>, Seq<char>>;

/// The machine after some steps: still running at an instruction, halted, or failed.
pub enum Outcome {
    Running(int, Bank),
    Halted(Bank),
    Failed(RuntimeErrorV),
}

/// The labelled positions of `p`, in program order.
pub open spec fn labels_of(p: Seq<LineV>) -> Seq<(Seq<char>, int)>
    decreases p.len(),
{
    if p.len() == 0 {
        Seq::empty()
    } else {
        let rest = labels_of(p.drop_last());
        match p.last().label {
            Some(l) => rest.push((l, p.len() - 1)),
            None => rest,
        }
    }
}

/// The position recorded for `l` in `e`; the last entry for a label wins.
pub open spec fn lookup(e: Seq<(Seq<char>, int)>, l: Seq<char>) -> Option<int>
    decreases e.len(),
{
    if e.len() == 0 {
        None
    } else if e.last().0 == l {
        Some(e.last().1)
    } else {
        lookup(e.drop_last(), l)
    }
}

/// Where a jump to `l` goes: the last line labelled `l`.
pub open spec fn jump_target(p: Seq<LineV>, l: Seq<char>) -> Option<int> {
    lookup(labels_of(p), l)
}

/// The queue under `r`, with an absent register read as empty.
pub open spec fn queue_of(b: Bank, r: Seq<char>) -> Seq<char> {
    if b.contains_key(r) {
        b[r]
    } else {
        Seq::empty()
    }
}

pub open spec fn jump(p: Seq<LineV>, l: Seq<char>, b: Bank) -> Outcome {
    match jump_target(p, l) {
        Some(k) => Outcome::Running(k, b),
        None => Outcome::Failed(RuntimeErrorV::UnknownLabel(l)),
    }
}

/// One step of the machine at instruction `ip` with bank `b`.
pub open spec fn step(p: Seq<LineV>, ip: int, b: Bank) -> Outcome {
    if ip < 0 || ip >= p.len() {
        Outcome::Failed(RuntimeErrorV::ProgramOverrun)
    } else {
        match p[ip].instruction {
            InstructionV::Clr(r) => Outcome::Running(ip + 1, b.remove(r)),
            InstructionV::Del(r) => if queue_of(b, r).len() > 0 {
                Outcome::Running(ip + 1, b.insert(r, b[r].drop_first()))
            } else {
                Outcome::Failed(RuntimeErrorV::EmptyRegister(r))
            },
            InstructionV::Add(r, c) => Outcome::Running(ip + 1, b.insert(r, queue_of(b, r).push(c))),
            InstructionV::Copy(d, s) => Outcome::Running(ip + 1, b.insert(d, queue_of(b, s))),
            InstructionV::Jmp(l) => jump(p, l, b),
            InstructionV::CondJmp(r, c, l) => if queue_of(b, r).len() > 0 && queue_of(b, r)[0] == c {
                jump(p, l, b)
            } else {
                Outcome::Running(ip + 1, b)
            },
            InstructionV::Continue => Outcome::Halted(b),
        }
    }
}

/// The outcome after `n` more steps from `o`; halting and failing are final.
pub open spec fn outcome(p: Seq<LineV>, o: Outcome, n: nat) -> Outcome
    decreases n,
{
    if n == 0 {
        o
    } else {
        match outcome(p, o, (n - 1) as nat) {
            Outcome::Running(ip, b) => step(p, ip, b),
            other => other,
        }
    }
}

/// The outcome of `p` from bank `b` after at most `n` steps.
pub open spec fn execute(p: Seq<LineV>, b: Bank, n: nat) -> Outcome {
    outcome(p, Outcome::Running(0, b), n)
}

/// Halting and failing are final: once reached, later counts give the same outcome.
pub proof fn lemma_outcome_final(p: Seq<LineV>, o: Outcome, n: nat, m: nat)
    requires
        n <= m,
        !(outcome(p, o, n) is Running),
    ensures
        outcome(p, o, m) == outcome(p, o, n),
    decreases m - n,
{
    if n < m {
        lemma_outcome_final(p, o, n, (m - 1) as nat);
    }
}

/// One step, then `n` more: running `n + 1` steps from an instruction is
/// running `n` steps from the outcome of the first.
pub proof fn lemma_outcome_shift(p: Seq<LineV>, ip: int, b: Bank, n: nat)
    ensures
        outcome(p, Outcome::Running(ip, b), n + 1) == outcome(p, step(p, ip, b), n),
    decreases n,
{
    let o = Outcome::Running(ip, b);
    if n > 0 {
        lemma_outcome_shift(p, ip, b, (n - 1) as nat);
    } else {
        assert(outcome(p, o, 0) == o);
        assert(outcome(p, o, 1) == step(p, ip, b));
    }
}

pub open spec fn has_halt(p: Seq<LineV>) -> bool {
    exists|i: int| 0 <= i < p.len() && p[i].instruction == InstructionV::Continue
}

/// A program without a `continue` instruction never halts: from any state, no
/// number of steps reaches `Halted`.
pub proof fn lemma_no_halt_never_halts(p: Seq<LineV>, o: Outcome, n: nat)
    requires
        !has_halt(p),
        !(o is Halted),
    ensures
        !(outcome(p, o, n) is Halted),
    decreases n,
{
    if n > 0 {
        lemma_no_halt_never_halts(p, o, (n - 1) as nat);
        if let Outcome::Running(ip, b) = outcome(p, o, (n - 1) as nat) {
            if 0 <= ip < p.len() {
                assert(p[ip].instruction != InstructionV::Continue);
            }
        }
    }
}

pub open spec fn is_straight_line(i: InstructionV) -> bool {
    i is Clr || i is Add || i is Copy
}

proof fn lemma_straight_line_prefix(p: Seq<LineV>, b: Bank, k: nat)
    requires
        forall|i: int| 0 <= i < p.len() ==> is_straight_line(#[trigger] p[i].instruction),
        k <= p.len(),
    ensures
        execute(p, b, k) is Running,
        execute(p, b, k)->Running_0 == k,
    decreases k,
{
    if k > 0 {
        lemma_straight_line_prefix(p, b, (k - 1) as nat);
        assert(is_straight_line(p[k - 1].instruction));
    }
}

/// A program of only `clr`, `add` and `<-` instructions, so with no `continue`,
/// fails with `ProgramOverrun` once every line has run.
pub proof fn lemma_straight_line_overruns(p: Seq<LineV>, b: Bank)
    requires
        forall|i: int| 0 <= i < p.len() ==> is_straight_line(#[trigger] p[i].instruction),
    ensures
        execute(p, b, p.len() + 1) == Outcome::Failed(RuntimeErrorV::ProgramOverrun),
{
    lemma_straight_line_prefix(p, b, p.len());
}

/// `del` on a register that is absent from the bank fails with `EmptyRegister`.
pub proof fn lemma_delete_absent_fails(p: Seq<LineV>, ip: int, b: Bank, r: Seq<char>)
    requires
        0 <= ip < p.len(),
        p[ip].instruction == InstructionV::Del(r),
        !b.contains_key(r),
    ensures
        step(p, ip, b) == Outcome::Failed(RuntimeErrorV::EmptyRegister(r)),
{
}

/// `add<c> r` then `del r` succeeds and leaves `r` as it was with `c` appended
/// and the front removed; on an absent or empty `r`, that is an empty queue.
pub proof fn lemma_append_then_delete(p: Seq<LineV>, ip: int, b: Bank, r: Seq<char>, c: char)
    requires
        0 <= ip,
        ip + 1 < p.len(),
        p[ip].instruction == InstructionV::Add(r, c),
        p[ip + 1].instruction == InstructionV::Del(r),
    ensures
        outcome(p, Outcome::Running(ip, b), 2) == Outcome::Running(
            ip + 2,
            b.insert(r, queue_of(b, r).push(c).drop_first()),
        ),
        queue_of(b, r).len() == 0 ==> outcome(p, Outcome::Running(ip, b), 2)->Running_1[r]
            == Seq::<char>::empty(),
{
    let b1 = b.insert(r, queue_of(b, r).push(c));
    assert(queue_of(b1, r) == queue_of(b, r).push(c));
    assert(b1.insert(r, b1[r].drop_first()) =~= b.insert(r, queue_of(b, r).push(c).drop_first()));
    lemma_outcome_shift(p, ip, b, 1);
    lemma_outcome_shift(p, ip + 1, b1, 0);
    assert(step(p, ip, b) == Outcome::Running(ip + 1, b1));
    assert(outcome(p, Outcome::Running(ip + 1, b1), 0) == Outcome::Running(ip + 1, b1));
    if queue_of(b, r).len() == 0 {
        assert(queue_of(b, r).push(c).drop_first() =~= Seq::<char>::empty());
    }
}

/// Copying an absent register makes the destination an empty queue, which is
/// present in the bank, unlike a register never touched.
pub proof fn lemma_copy_absent(p: Seq<LineV>, ip: int, b: Bank, d: Seq<char>, s: Seq<char>)
    requires
        0 <= ip < p.len(),
        p[ip].instruction == InstructionV::Copy(d, s),
        !b.contains_key(s),
    ensures
        step(p, ip, b) == Outcome::Running(ip + 1, b.insert(d, Seq::<char>::empty())),
        step(p, ip, b)->Running_1.contains_key(d),
        step(p, ip, b)->Running_1[d].len() == 0,
{
}

/// After `clr r` the register is absent, and every later step goes exactly as
/// from a bank in which `r` never existed.
pub proof fn lemma_clear_forgets(p: Seq<LineV>, ip: int, b: Bank, r: Seq<char>, n: nat)
    requires
        0 <= ip < p.len(),
        p[ip].instruction == InstructionV::Clr(r),
    ensures
        !step(p, ip, b)->Running_1.contains_key(r),
        outcome(p, Outcome::Running(ip, b), n + 1) == outcome(
            p,
            Outcome::Running(ip, b.remove(r)),
            n + 1,
        ),
{
    assert(b.remove(r).remove(r) =~= b.remove(r));
    lemma_outcome_shift(p, ip, b, n);
    lemma_outcome_shift(p, ip, b.remove(r), n);
}

/// The labels of a program and their positions, built once before a run.
pub struct JumpTable {
    entries: Vec<(String, usize)>,
}

pub open spec fn table_view(s: Seq<(String, usize)>) -> Seq<(Seq<char>, int)> {
    s.map_values(|e: (String, usize)| (e.0@, e.1 as int))
}

impl JumpTable {
    pub closed spec fn view(&self) -> Seq<(Seq<char>, int)> {
        table_view(self.entries@)
    }

    /// Records each labelled line of `program` with its position.
    pub fn build(program: &Vec<Line>) -> (r: JumpTable)
        ensures
            r.view() == labels_of(lines_view(program@)),
    {
        let ghost p = lines_view(program@);
        let mut entries: Vec<(String, usize)> = Vec::new();
        let mut i: usize = 0;
        while i < program.len()
            invariant
                p == lines_view(program@),
                i <= program@.len(),
                table_view(entries@) == labels_of(p.take(i as int)),
            decreases program@.len() - i,
        {
            assert(p.take(i + 1).drop_last() =~= p.take(i as int));
            assert(p.take(i + 1).last() == program@[i as int]@);
            match &program[i].label {
                Some(l) => {
                    let ghost before = entries@;
                    entries.push((l.clone(), i));
                    assert(table_view(entries@) =~= table_view(before).push((l@, i as int)));
                },
                None => {},
            }
            i = i + 1;
        }
        assert(p.take(i as int) =~= p);
        JumpTable { entries }
    }

    /// The position of the last line labelled `l`.
    pub fn find(&self, l: &String) -> (r: Option<usize>)
        ensures
            match (r, lookup(self.view(), l@)) {
                (Some(k), Some(v)) => k == v,
                (None, None) => true,
                _ => false,
            },
    {
        let ghost e = self.view();
        let mut k: usize = self.entries.len();
        assert(e.take(k as int) =~= e);
        while k > 0
            invariant
                e == self.view(),
                k <= self.entries@.len(),
                lookup(e, l@) == lookup(e.take(k as int), l@),
            decreases k,
        {
            assert(e.take(k as int).drop_last() =~= e.take(k - 1));
            assert(e.take(k as int).last() == e[k - 1]);
            if self.entries[k - 1].0 == *l {
                return Some(self.entries[k - 1].1);
            }
            k = k - 1;
        }
        None
    }
}

fn jump_to(table: &JumpTable, l: &String) -> (r: Result<usize, RuntimeError>)
    ensures
        match (r, lookup(table.view(), l@)) {
            (Ok(k), Some(v)) => k == v,
            (Err(e), None) => e@ == RuntimeErrorV::UnknownLabel(l@),
            _ => false,
        },
{
    match table.find(l) {
        Some(k) => Ok(k),
        None => Err(RuntimeError::UnknownLabel(l.clone())),
    }
}

/// Runs `program` from `registers` for at most `max_steps` steps. Running
/// past the last line is reported as `ProgramOverrun` even when the budget
/// is used up at that moment.
pub fn run_bounded(program: Vec<Line>, registers: Registers, max_steps: u64) -> (r: Result<Registers, RuntimeError>)
    requires
        registers.wf(),
    ensures
        match (r, execute(lines_view(program@), registers.view(), max_steps as nat)) {
            (Ok(b), Outcome::Halted(v)) => b.wf() && b.view() == v,
            (Err(e), Outcome::Failed(v)) => e@ == v,
            (Err(e), Outcome::Running(ip, _)) => e@ == if 0 <= ip < program@.len() {
                RuntimeErrorV::StepLimitReached
            } else {
                RuntimeErrorV::ProgramOverrun
            },
            _ => false,
        },
{
    let ghost p = lines_view(program@);
    let ghost init = registers.view();
    let ghost start = Outcome::Running(0, init);
    let table = JumpTable::build(&program);
    let mut regs = registers;
    let mut ip: usize = 0;
    let mut steps: u64 = 0;
    while steps < max_steps
        invariant
            p == lines_view(program@),
            table.view() == labels_of(p),
            start == Outcome::Running(0, init),
            init == registers.view(),
            regs.wf(),
            steps <= max_steps,
            outcome(p, start, steps as nat) == Outcome::Running(ip as int, regs.view()),
        decreases max_steps - steps,
    {
        let ghost b = regs.view();
        proof {
            assert(outcome(p, start, (steps + 1) as nat) == step(p, ip as int, b));
        }
        if ip >= program.len() {
            proof {
                lemma_outcome_final(p, start, (steps + 1) as nat, max_steps as nat);
                assert(step(p, ip as int, b) == Outcome::Failed(RuntimeErrorV::ProgramOverrun));
            }
            return Err(RuntimeError::ProgramOverrun);
        }
        assert(p[ip as int] == program@[ip as int]@);
        match &program[ip].instruction {
            Instruction::Clr(r) => {
                regs.remove(r);
                ip = ip + 1;
            },
            Instruction::Del(r) => {
                match regs.get(r) {
                    Some(q) => {
                        if q.len() == 0 {
                            proof {
                                lemma_outcome_final(p, start, (steps + 1) as nat, max_steps as nat);
                            }
                            return Err(RuntimeError::EmptyRegister(r.clone()));
                        }
                        let mut q = q;
                        q.pop_front();
                        assert(q@ =~= b[r@].drop_first());
                        regs.put(r.clone(), q);
                        ip = ip + 1;
                    },
                    None => {
                        proof {
                            lemma_outcome_final(p, start, (steps + 1) as nat, max_steps as nat);
                        }
                        return Err(RuntimeError::EmptyRegister(r.clone()));
                    },
                }
            },
            Instruction::Add(r, c) => {
                let mut q = match regs.get(r) {
                    Some(q) => q,
                    None => VecDeque::new(),
                };
                assert(q@ == crate::vm::queue_of(b, r@));
                q.push_back(*c);
                regs.put(r.clone(), q);
                ip = ip + 1;
            },
            Instruction::Copy(d, s) => {
                let q = match regs.get(s) {
                    Some(q) => q,
                    None => VecDeque::new(),
                };
                assert(q@ == crate::vm::queue_of(b, s@));
                regs.put(d.clone(), q);
                ip = ip + 1;
            },
            Instruction::Jmp(l) => {
                match jump_to(&table, l) {
                    Ok(k) => {
                        ip = k;
                    },
                    Err(e) => {
                        proof {
                            lemma_outcome_final(p, start, (steps + 1) as nat, max_steps as nat);
                        }
                        return Err(e);
                    },
                }
            },
            Instruction::CondJmp(r, c, l) => {
                let taken = match regs.get(r) {
                    Some(q) => q.len() > 0 && q[0] == *c,
                    None => false,
                };
                if taken {
                    match jump_to(&table, l) {
                        Ok(k) => {
                            ip = k;
                        },
                        Err(e) => {
                            proof {
                                lemma_outcome_final(p, start, (steps + 1) as nat, max_steps as nat);
                            }
                            return Err(e);
                        },
                    }
                } else {
                    ip = ip + 1;
                }
            },
            Instruction::Continue => {
                proof {
                    lemma_outcome_final(p, start, (steps + 1) as nat, max_steps as nat);
                    assert(p[ip as int].instruction == InstructionV::Continue);
                    assert(step(p, ip as int, b) == Outcome::Halted(b));
                }
                return Ok(regs);
            },
        }
        steps = steps + 1;
    }
    if ip >= program.len() {
        Err(RuntimeError::ProgramOverrun)
    } else {
        Err(RuntimeError::StepLimitReached)
    }
}

/// Runs `program` from `registers` until it halts or fails. Execution is
/// bounded only by a step budget of `u64::MAX`, which no real run reaches.
/// A program of only `clr`, `add` and `<-` lines fails with `ProgramOverrun`.
pub fn run(program: Vec<Line>, registers: Registers) -> (r: Result<Registers, RuntimeError>)
    requires
        registers.wf(),
    ensures
        match (r, execute(lines_view(program@), registers.view(), u64::MAX as nat)) {
            (Ok(b), Outcome::Halted(v)) => b.wf() && b.view() == v,
            (Err(e), Outcome::Failed(v)) => e@ == v,
            (Err(e), Outcome::Running(ip, _)) => e@ == if 0 <= ip < program@.len() {
                RuntimeErrorV::StepLimitReached
            } else {
                RuntimeErrorV::ProgramOverrun
            },
            _ => false,
        },
        (forall|i: int| 0 <= i < program@.len() ==> is_straight_line(#[trigger] program@[i]@.instruction))
            ==> r matches Err(RuntimeError::ProgramOverrun),
{
    let n = program.len();
    let ghost p = lines_view(program@);
    let ghost b = registers.view();
    let r = run_bounded(program, registers, u64::MAX);
    proof {
        if forall|i: int| 0 <= i < program@.len() ==> is_straight_line(#[trigger] program@[i]@.instruction) {
            assert forall|i: int| 0 <= i < p.len() implies is_straight_line(#[trigger] p[i].instruction) by {
                assert(p[i] == program@[i]@);
            }
            assert((n as int) <= (u64::MAX as int));
            if n < u64::MAX {
                lemma_straight_line_overruns(p, b);
                lemma_outcome_final(p, Outcome::Running(0, b), (p.len() + 1) as nat, u64::MAX as nat);
            } else {
                lemma_straight_line_prefix(p, b, p.len());
            }
        }
    }
    r
}

} // verus!
