use vstd::prelude::*;
use crate::ops::{properly_nested, well_formed, Ops};
use crate::compiler::{
    balanced, bracket_depth, closes_unopened, compiled, is_outcome, lemma_linked_program,
    lemma_scan_brackets, naive, optimized, outcome,
};
use crate::machine::{
    alike, effect, fault_of, lemma_run_unfold, next, on_tape, run, start, Machine, TAPE_LEN,
};
use crate::simulation::{begins, lemma_setting, lemma_simulation, stalled};

verus! {

/// Compiling succeeds exactly when the brackets of the source are balanced. A
/// source in which some close comes before its open gets the message for
/// that; one in which every close has its open and an open is left gets the
/// message for that.
pub proof fn law_bracket_balance(src: Seq<char>)
    ensures
        outcome(src) is Ok <==> balanced(src),
        closes_unopened(src) <==> outcome(src) == Err::<Seq<Ops>, Seq<char>>("missing [ for ]"@),
        !closes_unopened(src) && bracket_depth(src) != 0 <==> outcome(src) == Err::<
            Seq<Ops>,
            Seq<char>,
        >("missing ] for ["@),
{
    reveal_strlit("missing [ for ]");
    reveal_strlit("missing ] for [");
    lemma_depth_of_closed(src);
    assert("missing [ for ]"@[8] != "missing ] for ["@[8]);
}

/// A source in which no close comes before its open has no negative depth.
pub proof fn lemma_depth_of_closed(src: Seq<char>)
    ensures
        !closes_unopened(src) ==> bracket_depth(src) >= 0,
{
}

/// Some prefix holds more closes than opens exactly when the depth is
/// negative after some number of characters.
pub proof fn law_closes_unopened_by_prefix(src: Seq<char>)
    ensures
        closes_unopened(src) <==> exists|k: int|
            0 <= k <= src.len() && #[trigger] bracket_depth(src.take(k)) < 0,
    decreases src.len(),
{
    if src.len() == 0 {
        assert forall|k: int| 0 <= k <= src.len() implies !(#[trigger] bracket_depth(src.take(k))
            < 0) by {
            assert(src.take(k) =~= src);
        }
    } else {
        let shorter = src.drop_last();
        law_closes_unopened_by_prefix(shorter);
        assert(src.take(src.len() as int) =~= src);
        if closes_unopened(src) {
            if closes_unopened(shorter) {
                let k = choose|k: int|
                    0 <= k <= shorter.len() && #[trigger] bracket_depth(shorter.take(k)) < 0;
                assert(src.take(k) =~= shorter.take(k));
            } else {
                assert(bracket_depth(src.take(src.len() as int)) < 0);
            }
        } else {
            assert forall|k: int| 0 <= k <= src.len() implies !(#[trigger] bracket_depth(
                src.take(k),
            ) < 0) by {
                if k < src.len() {
                    assert(src.take(k) =~= shorter.take(k));
                }
            }
        }
    }
}

/// In the program of a source with balanced brackets, every open holds the
/// index of a close and every close that of an open, each of the two holds
/// the index of the other, and the close is the one that ends the loop of
/// the open. The program ends with `End`, which stands nowhere else.
pub proof fn law_jump_correctness(src: Seq<char>)
    requires
        balanced(src),
        src.len() <= usize::MAX,
    ensures
        outcome(src) == Ok::<Seq<Ops>, Seq<char>>(compiled(src)),
        well_formed(compiled(src)),
        properly_nested(compiled(src)),
{
    lemma_scan_brackets(src);
    lemma_linked_program(optimized(src));
}

/// Compiling is a function of the source text: two results for the same text
/// are the same operations in the same order, or the same message.
pub proof fn law_compile_twice(
    src: Seq<char>,
    first: Result<Vec<Ops>, String>,
    second: Result<Vec<Ops>, String>,
)
    requires
        is_outcome(src, first),
        is_outcome(src, second),
    ensures
        first is Ok <==> second is Ok,
        first is Ok ==> first->Ok_0@ == second->Ok_0@,
        first is Err ==> first->Err_0@ == second->Err_0@,
{
}

/// Two cell changes in a row leave the machine as one change by their
/// wrapped sum does, one operation further on.
pub proof fn law_merged_mods(m: Machine, a: i8, b: i8)
    requires
        on_tape(m.pos),
        m.tape.len() == TAPE_LEN,
    ensures
        effect(Ops::Mod(b), effect(Ops::Mod(a), m)) == (Machine {
            ip: m.ip + 2,
            ..effect(Ops::Mod(a.wrapping_add(b)), m)
        }),
{
    let two = effect(Ops::Mod(b), effect(Ops::Mod(a), m));
    let one = effect(Ops::Mod(a.wrapping_add(b)), m);
    assert(two.tape =~= one.tape);
}

/// Two moves in a row, the first of which stays on the tape, fail or go on
/// as one move by their sum does, and leave the machine as it does, one
/// operation further on.
pub proof fn law_merged_moves(m: Machine, a: isize, b: isize)
    requires
        on_tape(m.pos),
        on_tape(m.pos + a),
        isize::MIN <= a + b <= isize::MAX,
    ensures
        fault_of(Ops::Move(b), effect(Ops::Move(a), m)) == fault_of(
            Ops::Move((a + b) as isize),
            m,
        ),
        effect(Ops::Move(b), effect(Ops::Move(a), m)) == (Machine {
            ip: m.ip + 2,
            ..effect(Ops::Move((a + b) as isize), m)
        }),
{
}

/// A cell change behind a "set" leaves the machine as the "set" to the
/// wrapped sum does, one operation further on.
pub proof fn law_set_then_mod(m: Machine, z: i8, b: i8)
    requires
        on_tape(m.pos),
        m.tape.len() == TAPE_LEN,
    ensures
        effect(Ops::Mod(b), effect(Ops::SetCell(z), m)) == (Machine {
            ip: m.ip + 2,
            ..effect(Ops::SetCell(z.wrapping_add(b)), m)
        }),
{
    let two = effect(Ops::Mod(b), effect(Ops::SetCell(z), m));
    let one = effect(Ops::SetCell(z.wrapping_add(b)), m);
    assert(two.tape =~= one.tape);
}

/// Whether a linked loop around the single operation `body` starts at `i`.
pub open spec fn loop_around(ops: Seq<Ops>, i: int, body: Ops) -> bool {
    &&& 0 <= i
    &&& i + 2 < ops.len() <= usize::MAX
    &&& ops[i] == Ops::LoopOpen((i + 2) as usize)
    &&& ops[i + 1] == body
    &&& ops[i + 2] == Ops::LoopClose(i as usize)
}

/// How many decrements take the cell to zero: its value as an unsigned byte.
pub open spec fn decrements(c: i8) -> nat {
    if c >= 0 {
        c as nat
    } else {
        (c + 256) as nat
    }
}

/// The machine with the current cell zero and the instruction pointer at `ip`.
pub open spec fn cleared(m: Machine, ip: int) -> Machine {
    Machine { tape: m.tape.update(m.pos, 0i8), ip, ..m }
}

/// Inside a loop around a single decrement, on a cell that is not zero, a run
/// goes on as from behind the loop with the cell zero, two operations for
/// each decrement later.
pub proof fn lemma_clear_loop_body(ops: Seq<Ops>, m: Machine, fuel: nat)
    requires
        loop_around(ops, m.ip - 1, Ops::Mod(-1i8)),
        on_tape(m.pos),
        m.tape.len() == TAPE_LEN,
        m.tape[m.pos] != 0,
        fuel >= 2 * decrements(m.tape[m.pos]),
    ensures
        run(ops, m, fuel) == run(
            ops,
            cleared(m, m.ip + 2),
            (fuel - 2 * decrements(m.tape[m.pos])) as nat,
        ),
    decreases decrements(m.tape[m.pos]),
{
    let c = m.tape[m.pos];
    lemma_run_unfold(ops, m, fuel);
    let m1 = next(ops, m);
    lemma_run_unfold(ops, m1, (fuel - 1) as nat);
    let m2 = next(ops, m1);
    if c == 1 {
        assert(m2.tape =~= m.tape.update(m.pos, 0i8));
    } else {
        lemma_clear_loop_body(ops, m2, (fuel - 2) as nat);
        assert(cleared(m2, m2.ip + 2).tape =~= cleared(m, m.ip + 2).tape);
    }
}

/// A loop around a single decrement does what `SetCell(0)` does: from its
/// open, a run goes on as from behind the loop with the current cell zero and
/// nothing else changed, after one operation and two more for each decrement.
pub proof fn law_clear_loop(ops: Seq<Ops>, m: Machine, fuel: nat)
    requires
        loop_around(ops, m.ip, Ops::Mod(-1i8)),
        on_tape(m.pos),
        m.tape.len() == TAPE_LEN,
        fuel >= 1 + 2 * decrements(m.tape[m.pos]),
    ensures
        run(ops, m, fuel) == run(
            ops,
            cleared(m, m.ip + 3),
            (fuel - 1 - 2 * decrements(m.tape[m.pos])) as nat,
        ),
        cleared(m, m.ip + 3) == (Machine { ip: m.ip + 3, ..effect(Ops::SetCell(0), m) }),
{
    lemma_run_unfold(ops, m, fuel);
    if m.tape[m.pos] == 0 {
        assert(cleared(m, m.ip + 3).tape =~= m.tape);
    } else {
        lemma_clear_loop_body(ops, next(ops, m), (fuel - 1) as nat);
    }
}

/// A loop around a single move does what `SearchZeroCell` does, turn by turn.
/// At its open or its close, on a zero cell, the next operation is the one
/// behind the loop, as a search on a zero cell goes on to the next operation.
/// On any other cell the next operation is the move: it fails off the tape
/// where the search does, and else leads to the close of the loop with the
/// data pointer where the search puts it.
pub proof fn law_search_loop(ops: Seq<Ops>, i: int, n: isize, m: Machine)
    requires
        loop_around(ops, i, Ops::Move(n)),
        m.ip == i || m.ip == i + 2,
        on_tape(m.pos),
        m.tape.len() == TAPE_LEN,
    ensures
        fault_at_none(ops, m),
        m.tape[m.pos] == 0 ==> next(ops, m) == (Machine { ip: i + 3, ..m }) && effect(
            Ops::SearchZeroCell(n),
            m,
        ) == (Machine { ip: m.ip + 1, ..m }),
        m.tape[m.pos] != 0 ==> next(ops, m) == (Machine { ip: i + 1, ..m }) && fault_of(
            Ops::Move(n),
            next(ops, m),
        ) == fault_of(Ops::SearchZeroCell(n), m),
        m.tape[m.pos] != 0 && on_tape(m.pos + n) ==> next(ops, next(ops, m)) == (Machine {
            ip: i + 2,
            ..effect(Ops::SearchZeroCell(n), m)
        }),
{
}

/// Whether the operation at the instruction pointer runs into no fault.
pub open spec fn fault_at_none(ops: Seq<Ops>, m: Machine) -> bool {
    fault_of(ops[m.ip], m) is None
}

/// The optimised program of a source prints what the program without any
/// rewrite prints, in the same order, and maybe more behind it. Unless that
/// program moves the data pointer off the tape or runs out of fuel, the
/// optimised program ends as it ends, and has then printed what it has
/// printed, has read what it has read, and has left the tape and the data
/// pointer as it has.
pub proof fn law_optimizer_transparency(src: Seq<char>, input: Seq<char>, fuel: nat)
    requires
        balanced(src),
        src.len() < usize::MAX,
    ensures
        begins(
            run(compiled(src), start(input), fuel).0.output,
            run(naive(src), start(input), fuel).0.output,
        ),
        !stalled(run(naive(src), start(input), fuel).1) ==> {
            &&& run(compiled(src), start(input), fuel).1 == run(naive(src), start(input), fuel).1
            &&& run(compiled(src), start(input), fuel).0.output == run(
                naive(src),
                start(input),
                fuel,
            ).0.output
            &&& alike(
                run(compiled(src), start(input), fuel).0,
                run(naive(src), start(input), fuel).0,
            )
        },
{
    lemma_setting(src);
    lemma_simulation(src, start(input), start(input), 0, fuel);
}

} // verus!
