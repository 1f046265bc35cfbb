use vstd::prelude::*;
use crate::ops::{Ops, partnered, well_formed};
use crate::channel::InputOutput;

verus! {

/// The number of cells on the tape.
pub const TAPE_LEN: usize = 30000;

/// How many operations `execute` carries out before it gives up.
pub const STEP_LIMIT: u64 = 0xffff_ffff_ffff_ffff;

/// Why a run ended without reaching `End`.
#[derive(Clone, Copy, Debug, PartialEq, Eq, Structural)]
pub enum Fault {
    /// A `Read` found that the channel had no character.
    NoInput,
    /// A move would have taken the data pointer off the tape.
    OutOfRange,
    /// The allowed number of operations was used up.
    StepLimit,
}

/// The virtual machine between two operations.
pub struct Machine {
    /// The cells.
    pub tape: Seq<i8>,
    /// The data pointer.
    pub pos: int,
    /// The instruction pointer.
    pub ip: int,
    /// The characters that the channel still holds.
    pub input: Seq<char>,
    /// The characters printed so far.
    pub output: Seq<char>,
}

/// The character that `Print` makes of a cell: the cell's bits as an unsigned
/// byte, and that byte as a code point.
pub open spec fn char_of_cell(v: i8) -> char {
    (v as u8) as char
}

/// The cell that `Read` makes of a character: the low eight bits of its code
/// point, as a signed byte.
pub open spec fn cell_of_char(c: char) -> i8 {
    ((c as u32) as u8) as i8
}

/// The machine before its first operation: every cell zero, both pointers at
/// the start, nothing printed yet, and `input` waiting in the channel.
pub open spec fn start(input: Seq<char>) -> Machine {
    Machine {
        tape: Seq::new(TAPE_LEN as nat, |i: int| 0i8),
        pos: 0,
        ip: 0,
        input,
        output: Seq::empty(),
    }
}

/// The machine `m` on a channel that had taken `had` before `m` printed
/// anything.
pub open spec fn after(had: Seq<char>, m: Machine) -> Machine {
    Machine { output: had + m.output, ..m }
}

/// Whether `target` is a cell of the tape.
pub open spec fn on_tape(target: int) -> bool {
    0 <= target < TAPE_LEN
}

/// The fault that `op` runs into on `m`, if any: a move or a search step off
/// the tape, or a read from a channel that holds nothing.
pub open spec fn fault_of(op: Ops, m: Machine) -> Option<Fault> {
    match op {
        Ops::Move(n) => if on_tape(m.pos + n) {
            None
        } else {
            Some(Fault::OutOfRange)
        },
        Ops::SearchZeroCell(n) => if m.tape[m.pos] == 0 || on_tape(m.pos + n) {
            None
        } else {
            Some(Fault::OutOfRange)
        },
        Ops::Read => if m.input.len() > 0 {
            None
        } else {
            Some(Fault::NoInput)
        },
        _ => None,
    }
}

/// The machine after `op`, where `op` runs into no fault. A search that does
/// not rest on a zero cell moves by its step and stays on the same operation.
pub open spec fn effect(op: Ops, m: Machine) -> Machine {
    let cell = m.tape[m.pos];
    match op {
        Ops::Move(n) => Machine { pos: m.pos + n, ip: m.ip + 1, ..m },
        Ops::Mod(n) => Machine { tape: m.tape.update(m.pos, cell.wrapping_add(n)), ip: m.ip + 1, ..m },
        Ops::LoopOpen(end) => Machine { ip: if cell == 0 { end + 1 } else { m.ip + 1 }, ..m },
        Ops::LoopClose(begin) => Machine { ip: if cell != 0 { begin + 1 } else { m.ip + 1 }, ..m },
        Ops::SetCell(v) => Machine { tape: m.tape.update(m.pos, v), ip: m.ip + 1, ..m },
        Ops::SearchZeroCell(n) => if cell == 0 {
            Machine { ip: m.ip + 1, ..m }
        } else {
            Machine { pos: m.pos + n, ..m }
        },
        Ops::Print => Machine { output: m.output.push(char_of_cell(cell)), ip: m.ip + 1, ..m },
        Ops::Read => Machine {
            tape: m.tape.update(m.pos, cell_of_char(m.input[0])),
            input: m.input.skip(1),
            ip: m.ip + 1,
            ..m
        },
        Ops::End => m,
    }
}

/// The fault that the operation at the instruction pointer runs into, if any.
pub open spec fn fault_at(ops: Seq<Ops>, m: Machine) -> Option<Fault> {
    fault_of(ops[m.ip], m)
}

/// The machine after the operation at the instruction pointer, where that
/// operation is not `End` and runs into no fault.
pub open spec fn next(ops: Seq<Ops>, m: Machine) -> Machine {
    effect(ops[m.ip], m)
}

/// Where a run from `m` ends, and how, when at most `fuel` operations may be
/// carried out: with `Ok` on `End`, with `StepLimit` on any other operation
/// when no fuel is left, and with the operation's fault where it has one.
#[verifier::opaque]
pub open spec fn run(ops: Seq<Ops>, m: Machine, fuel: nat) -> (Machine, Result<(), Fault>)
    decreases fuel,
{
    if ops[m.ip] == Ops::End {
        (m, Ok(()))
    } else if fuel == 0 {
        (m, Err(Fault::StepLimit))
    } else {
        match fault_at(ops, m) {
            Some(f) => (m, Err(f)),
            None => run(ops, next(ops, m), (fuel - 1) as nat),
        }
    }
}

/// Whether two machines differ in the instruction pointer at most.
pub open spec fn alike(a: Machine, b: Machine) -> bool {
    a.tape == b.tape && a.pos == b.pos && a.input == b.input && a.output == b.output
}

/// What `run` does with its first operation.
pub proof fn lemma_run_unfold(ops: Seq<Ops>, m: Machine, fuel: nat)
    ensures
        ops[m.ip] == Ops::End ==> run(ops, m, fuel) == (m, Ok::<(), Fault>(())),
        ops[m.ip] != Ops::End && fuel == 0 ==> run(ops, m, fuel) == (
            m,
            Err::<(), Fault>(Fault::StepLimit),
        ),
        ops[m.ip] != Ops::End && fuel > 0 ==> run(ops, m, fuel) == (match fault_at(ops, m) {
            Some(f) => (m, Err::<(), Fault>(f)),
            None => run(ops, next(ops, m), (fuel - 1) as nat),
        }),
{
    reveal_with_fuel(run, 2);
}

/// What the channel had taken before a run plays no part in the run: it
/// stays in front of what the run prints.
pub proof fn lemma_run_after(ops: Seq<Ops>, had: Seq<char>, m: Machine, fuel: nat)
    ensures
        run(ops, after(had, m), fuel) == (after(had, run(ops, m, fuel).0), run(ops, m, fuel).1),
    decreases fuel,
{
    lemma_run_unfold(ops, m, fuel);
    lemma_run_unfold(ops, after(had, m), fuel);
    if ops[m.ip] != Ops::End && fuel > 0 && fault_at(ops, m) is None {
        assert(next(ops, after(had, m)).output =~= after(had, next(ops, m)).output);
        lemma_run_after(ops, had, next(ops, m), (fuel - 1) as nat);
    }
}

/// Whether the machine can carry out an operation of `ops`: both pointers
/// are in range and the tape has its full length.
pub open spec fn ready(ops: Seq<Ops>, m: Machine) -> bool {
    &&& 0 <= m.ip < ops.len()
    &&& on_tape(m.pos)
    &&& m.tape.len() == TAPE_LEN
}

/// An operation of a well-formed program leaves the machine ready for the
/// next one.
pub proof fn lemma_next_ready(ops: Seq<Ops>, m: Machine)
    requires
        well_formed(ops),
        ready(ops, m),
        ops[m.ip] != Ops::End,
        fault_at(ops, m) is None,
    ensures
        ready(ops, next(ops, m)),
{
    let t = ops[m.ip];
    assert(m.ip < ops.len() - 1);
    assert(partnered(ops, m.ip));
    match t {
        Ops::LoopOpen(end) => {
            assert(ops[end as int] != Ops::End);
        },
        Ops::LoopClose(begin) => {
            assert(ops[begin as int] != Ops::End);
        },
        _ => {},
    }
}

/// The cell index `pos + n`, where it is on the tape.
pub fn shifted_pos(pos: usize, n: isize) -> (r: Option<usize>)
    requires
        pos < TAPE_LEN,
    ensures
        on_tape(pos + n) ==> r == Some((pos + n) as usize),
        !on_tape(pos + n) ==> r is None,
{
    if n >= 0 {
        if (n as usize) < TAPE_LEN - pos {
            Some(pos + (n as usize))
        } else {
            None
        }
    } else if n >= -(pos as isize) {
        Some(((pos as isize) + n) as usize)
    } else {
        None
    }
}

/// The character that a cell prints as.
pub fn cell_to_char(v: i8) -> (c: char)
    ensures
        c == char_of_cell(v),
{
    (#[verifier::truncate] (v as u8)) as char
}

/// The cell that a character is read into.
pub fn char_to_cell(c: char) -> (v: i8)
    ensures
        v == cell_of_char(c),
{
    #[verifier::truncate] ((#[verifier::truncate] ((c as u32) as u8)) as i8)
}

/// The tape and the two pointers of a machine at work.
pub struct Vm {
    pub memory: Vec<i8>,
    pub pos: usize,
    pub ip: usize,
}

impl Vm {
    /// The machine that this tape and these pointers make on a channel that
    /// holds `input` and has taken `output`.
    pub open spec fn on(&self, input: Seq<char>, output: Seq<char>) -> Machine {
        Machine { tape: self.memory@, pos: self.pos as int, ip: self.ip as int, input, output }
    }

    /// A zeroed tape with both pointers at the start.
    pub fn new() -> (vm: Vm)
        ensures
            forall|input: Seq<char>, output: Seq<char>|
                #[trigger] vm.on(input, output) == after(output, start(input)),
    {
        let vm = Vm { memory: vec![0i8; TAPE_LEN], pos: 0, ip: 0 };
        proof {
            assert(vm.memory@ =~= Seq::new(TAPE_LEN as nat, |i: int| 0i8));
            assert forall|input: Seq<char>, output: Seq<char>|
                #[trigger] vm.on(input, output) == after(output, start(input)) by {
                assert(output + Seq::<char>::empty() =~= output);
            }
        }
        vm
    }

    /// Carries out the operation at the instruction pointer, which is not
    /// `End`: returns its fault and changes nothing, or moves the machine and
    /// the channel on by that operation.
    pub fn step<C: InputOutput>(&mut self, ops: &[Ops], in_out: &mut C) -> (r: Option<Fault>)
        requires
            well_formed(ops@),
            ready(ops@, old(self).on(old(in_out).pending(), old(in_out).written())),
            ops@[old(self).ip as int] != Ops::End,
        ensures
            r == fault_at(ops@, old(self).on(old(in_out).pending(), old(in_out).written())),
            r is Some ==> final(self).on(final(in_out).pending(), final(in_out).written()) == old(
                self,
            ).on(old(in_out).pending(), old(in_out).written()),
            r is None ==> final(self).on(final(in_out).pending(), final(in_out).written()) == next(
                ops@,
                old(self).on(old(in_out).pending(), old(in_out).written()),
            ),
            ready(ops@, final(self).on(final(in_out).pending(), final(in_out).written())),
    {
        let ghost before = self.on(in_out.pending(), in_out.written());
        assert(partnered(ops@, self.ip as int));
        let pos = self.pos;
        let cell = self.memory[pos];
        let mut fault: Option<Fault> = None;
        match ops[self.ip] {
            Ops::Move(n) => {
                match shifted_pos(pos, n) {
                    Some(target) => {
                        self.pos = target;
                        self.ip += 1;
                    },
                    None => {
                        fault = Some(Fault::OutOfRange);
                    },
                }
            },
            Ops::Mod(n) => {
                self.memory.set(pos, cell.wrapping_add(n));
                self.ip += 1;
            },
            Ops::LoopOpen(end) => {
                if cell == 0 {
                    self.ip = end;
                }
                self.ip += 1;
            },
            Ops::LoopClose(begin) => {
                if cell != 0 {
                    self.ip = begin;
                }
                self.ip += 1;
            },
            Ops::SetCell(v) => {
                self.memory.set(pos, v);
                self.ip += 1;
            },
            Ops::SearchZeroCell(n) => {
                if cell == 0 {
                    self.ip += 1;
                } else {
                    match shifted_pos(pos, n) {
                        Some(target) => {
                            self.pos = target;
                        },
                        None => {
                            fault = Some(Fault::OutOfRange);
                        },
                    }
                }
            },
            Ops::Print => {
                in_out.write(cell_to_char(cell));
                self.ip += 1;
            },
            Ops::Read => {
                match in_out.read() {
                    Some(c) => {
                        self.memory.set(pos, char_to_cell(c));
                        self.ip += 1;
                    },
                    None => {
                        fault = Some(Fault::NoInput);
                    },
                }
            },
            Ops::End => {},
        }
        proof {
            if fault is None {
                lemma_next_ready(ops@, before);
            }
        }
        fault
    }
}

/// Runs `ops` on a fresh tape through `in_out`, for at most `limit`
/// operations: to `End`, to the first fault, or until `limit` operations have
/// been carried out and the next one is not `End`.
pub fn execute_bounded<C: InputOutput>(ops: &[Ops], in_out: &mut C, limit: u64) -> (r: Result<
    (),
    Fault,
>)
    requires
        well_formed(ops@),
    ensures
        r == run(ops@, start(old(in_out).pending()), limit as nat).1,
        final(in_out).pending() == run(ops@, start(old(in_out).pending()), limit as nat).0.input,
        final(in_out).written() == old(in_out).written() + run(
            ops@,
            start(old(in_out).pending()),
            limit as nat,
        ).0.output,
{
    let ghost first = after(in_out.written(), start(in_out.pending()));
    proof {
        lemma_run_after(ops@, in_out.written(), start(in_out.pending()), limit as nat);
    }
    let mut vm = Vm::new();
    let mut left: u64 = limit;
    let ghost mut m = vm.on(in_out.pending(), in_out.written());
    loop
        invariant
            well_formed(ops@),
            run(ops@, first, limit as nat) == (
                after(
                    old(in_out).written(),
                    run(ops@, start(old(in_out).pending()), limit as nat).0,
                ),
                run(ops@, start(old(in_out).pending()), limit as nat).1,
            ),
            m == vm.on(in_out.pending(), in_out.written()),
            ready(ops@, m),
            run(ops@, first, limit as nat) == run(ops@, m, left as nat),
        decreases left,
    {
        proof {
            lemma_run_unfold(ops@, m, left as nat);
        }
        if let Ops::End = ops[vm.ip] {
            return Ok(());
        }
        if left == 0 {
            return Err(Fault::StepLimit);
        }
        if let Some(fault) = vm.step(ops, in_out) {
            return Err(fault);
        }
        proof {
            m = vm.on(in_out.pending(), in_out.written());
        }
        left -= 1;
    }
}

/// Runs `ops` on a fresh tape through `in_out` until it halts or fails.
pub fn execute<C: InputOutput>(ops: &[Ops], in_out: &mut C) -> (r: Result<(), Fault>)
    requires
        well_formed(ops@),
    ensures
        r == run(ops@, start(old(in_out).pending()), STEP_LIMIT as nat).1,
        final(in_out).pending() == run(
            ops@,
            start(old(in_out).pending()),
            STEP_LIMIT as nat,
        ).0.input,
        final(in_out).written() == old(in_out).written() + run(
            ops@,
            start(old(in_out).pending()),
            STEP_LIMIT as nat,
        ).0.output,
{
    execute_bounded(ops, in_out, STEP_LIMIT)
}

} // verus!
