use vstd::prelude::*;
use crate::ops::{
    encloses, lemma_nesting_push, nested_at, nesting, nesting_step, partnered, properly_nested,
    well_formed, Ops,
};
use crate::compiler::{
    balanced, compiled, fresh, lemma_linked_program, lemma_scan_brackets, naive, optimized,
    same_shape, tokens, unlinked,
};
use crate::machine::{
    alike, fault_at, lemma_run_unfold, next, on_tape, run, Fault, Machine, TAPE_LEN,
};
use crate::laws::decrements;
use crate::groups::{
    all_mods, all_moves, clear_form, cut_end, cut_ok, cuts, law_operations_stand_for_commands,
    mod_sum, move_sum, parted, stands_for,
};
use crate::partners::{
    cut_at, lemma_encloses_once, lemma_encloses_shape, lemma_nesting_flat, lemma_partner_transfer,
    lemma_tokens_brackets,
};

verus! {

/// Whether a run ended because the data pointer left the tape or the fuel
/// was used up.
pub open spec fn stalled(r: Result<(), Fault>) -> bool {
    r == Err::<(), Fault>(Fault::OutOfRange) || r == Err::<(), Fault>(Fault::StepLimit)
}

/// Whether the run from `m` stalls before it has printed anything.
pub open spec fn stuck(p: Seq<Ops>, m: Machine, f: nat) -> bool {
    stalled(run(p, m, f).1) && run(p, m, f).0.output == m.output
}

/// Whether `a` is the beginning of `b`.
pub open spec fn begins(b: Seq<char>, a: Seq<char>) -> bool {
    a.len() <= b.len() && forall|i: int| 0 <= i < a.len() ==> a[i] == b[i]
}

/// A run keeps what was printed before it.
pub proof fn lemma_output_grows(p: Seq<Ops>, m: Machine, f: nat)
    ensures
        begins(run(p, m, f).0.output, m.output),
    decreases f,
{
    lemma_run_unfold(p, m, f);
    if p[m.ip] != Ops::End && f > 0 && fault_at(p, m) is None {
        lemma_output_grows(p, next(p, m), (f - 1) as nat);
    }
}

/// With more fuel a run prints what it prints with less, and maybe more.
pub proof fn lemma_fuel_grows(p: Seq<Ops>, m: Machine, f: nat, g: nat)
    requires
        f <= g,
    ensures
        begins(run(p, m, g).0.output, run(p, m, f).0.output),
    decreases f,
{
    lemma_run_unfold(p, m, f);
    lemma_run_unfold(p, m, g);
    if p[m.ip] != Ops::End && fault_at(p, m) is None {
        if f > 0 {
            lemma_fuel_grows(p, next(p, m), (f - 1) as nat, (g - 1) as nat);
        } else {
            lemma_output_grows(p, m, g);
        }
    }
}

/// The machine with `s` added to the current cell, wrapping, at `ip`.
pub open spec fn modded(m: Machine, s: i8, ip: int) -> Machine {
    Machine { tape: m.tape.update(m.pos, m.tape[m.pos].wrapping_add(s)), ip, ..m }
}

/// The machine with the data pointer moved by `s`, at `ip`.
pub open spec fn moved(m: Machine, s: int, ip: int) -> Machine {
    Machine { pos: m.pos + s, ip, ..m }
}

/// The machine with `v` in the current cell, at `ip`.
pub open spec fn with_cell(m: Machine, v: i8, ip: int) -> Machine {
    Machine { tape: m.tape.update(m.pos, v), ip, ..m }
}

/// A run that ends without running out of fuel ends the same with more fuel.
pub proof fn lemma_run_more(p: Seq<Ops>, m: Machine, f: nat, g: nat)
    requires
        f <= g,
        run(p, m, f).1 != Err::<(), Fault>(Fault::StepLimit),
    ensures
        run(p, m, g) == run(p, m, f),
    decreases f,
{
    lemma_run_unfold(p, m, f);
    lemma_run_unfold(p, m, g);
    if p[m.ip] != Ops::End && f > 0 && fault_at(p, m) is None {
        lemma_run_more(p, next(p, m), (f - 1) as nat, (g - 1) as nat);
    }
}

/// A run through cell changes goes on behind them with their wrapped sum
/// added to the current cell, one operation later for each, unless the fuel
/// runs out.
pub proof fn lemma_run_mods(p: Seq<Ops>, m: Machine, a: int, b: int, f: nat)
    requires
        0 <= a <= b < p.len(),
        m.ip == a,
        on_tape(m.pos),
        m.tape.len() == TAPE_LEN,
        all_mods(p.subrange(a, b)),
    ensures
        stuck(p, m, f) || (f >= b - a && run(p, m, f) == run(
            p,
            modded(m, mod_sum(p.subrange(a, b)), b),
            (f - (b - a)) as nat,
        )),
    decreases b - a,
{
    let sub = p.subrange(a, b);
    if a == b {
        assert(modded(m, mod_sum(sub), b).tape =~= m.tape);
    } else {
        let shorter = p.subrange(a, b - 1);
        assert(sub.drop_last() =~= shorter);
        assert(sub[b - 1 - a] == p[b - 1]);
        assert forall|i: int| 0 <= i < shorter.len() implies (#[trigger] shorter[i]) is Mod by {
            assert(shorter[i] == sub[i]);
        }
        lemma_run_mods(p, m, a, b - 1, f);
        if !stuck(p, m, f) {
            let m1 = modded(m, mod_sum(shorter), b - 1);
            let f1 = (f - (b - 1 - a)) as nat;
            lemma_run_unfold(p, m1, f1);
            if f1 > 0 {
                assert(next(p, m1).tape =~= modded(m, mod_sum(sub), b).tape);
            }
        }
    }
}

/// A run through moves goes on behind them with the data pointer moved by
/// their sum, one operation later for each, unless the data pointer leaves
/// the tape on the way or the fuel runs out.
pub proof fn lemma_run_moves(p: Seq<Ops>, m: Machine, a: int, b: int, f: nat)
    requires
        0 <= a <= b < p.len(),
        m.ip == a,
        on_tape(m.pos),
        m.tape.len() == TAPE_LEN,
        all_moves(p.subrange(a, b)),
    ensures
        stuck(p, m, f) || (f >= b - a && on_tape(m.pos + move_sum(p.subrange(a, b)))
            && run(p, m, f) == run(
            p,
            moved(m, move_sum(p.subrange(a, b)), b),
            (f - (b - a)) as nat,
        )),
    decreases b - a,
{
    let sub = p.subrange(a, b);
    if a == b {
    } else {
        let shorter = p.subrange(a, b - 1);
        assert(sub.drop_last() =~= shorter);
        assert(sub[b - 1 - a] == p[b - 1]);
        assert forall|i: int| 0 <= i < shorter.len() implies (#[trigger] shorter[i]) is Move by {
            assert(shorter[i] == sub[i]);
        }
        lemma_run_moves(p, m, a, b - 1, f);
        if !stuck(p, m, f) {
            let m1 = moved(m, move_sum(shorter), b - 1);
            let f1 = (f - (b - 1 - a)) as nat;
            lemma_run_unfold(p, m1, f1);
        }
    }
}

/// Inside a loop around cell changes that sum to -1, on a cell that is not
/// zero, a run goes on behind the loop with the cell zero, some operations
/// later, unless the fuel runs out.
pub proof fn lemma_run_clear_turns(p: Seq<Ops>, m: Machine, a: int, mid: int, f: nat) -> (k: nat)
    requires
        0 <= a < a + 1 < mid < p.len() - 1,
        p.len() <= usize::MAX,
        m.ip == a + 1,
        on_tape(m.pos),
        m.tape.len() == TAPE_LEN,
        m.tape[m.pos] != 0,
        p[mid] == Ops::LoopClose(a as usize),
        all_mods(p.subrange(a + 1, mid)),
        mod_sum(p.subrange(a + 1, mid)) == -1i8,
    ensures
        stuck(p, m, f) || (1 <= k <= f && run(p, m, f) == run(
            p,
            with_cell(m, 0i8, mid + 1),
            (f - k) as nat,
        )),
    decreases decrements(m.tape[m.pos]),
{
    lemma_run_mods(p, m, a + 1, mid, f);
    if stuck(p, m, f) {
        0
    } else {
        let m1 = modded(m, -1i8, mid);
        let f1 = (f - (mid - a - 1)) as nat;
        lemma_run_unfold(p, m1, f1);
        if f1 == 0 {
            0
        } else {
            let m2 = next(p, m1);
            if m1.tape[m1.pos] == 0 {
                assert(m2.tape =~= with_cell(m, 0i8, mid + 1).tape);
                (mid - a) as nat
            } else {
                let k2 = lemma_run_clear_turns(p, m2, a, mid, (f1 - 1) as nat);
                assert(with_cell(m2, 0i8, mid + 1).tape =~= with_cell(m, 0i8, mid + 1).tape);
                (k2 + (mid - a)) as nat
            }
        }
    }
}

/// A loop around cell changes that sum to -1, with cell changes behind it
/// that sum to `v`: a run from its open goes on behind them with `v` in
/// the current cell, some operations later, unless the fuel runs out.
pub proof fn lemma_run_clear(p: Seq<Ops>, m: Machine, a: int, mid: int, b: int, f: nat) -> (k: nat)
    requires
        0 <= a < a + 1 < mid < b < p.len(),
        p.len() <= usize::MAX,
        m.ip == a,
        on_tape(m.pos),
        m.tape.len() == TAPE_LEN,
        p[a] == Ops::LoopOpen(mid as usize),
        p[mid] == Ops::LoopClose(a as usize),
        all_mods(p.subrange(a + 1, mid)),
        mod_sum(p.subrange(a + 1, mid)) == -1i8,
        all_mods(p.subrange(mid + 1, b)),
    ensures
        stuck(p, m, f) || (1 <= k <= f && run(p, m, f) == run(
            p,
            with_cell(m, mod_sum(p.subrange(mid + 1, b)), b),
            (f - k) as nat,
        )),
{
    lemma_run_unfold(p, m, f);
    if f == 0 {
        0
    } else {
        let m1 = next(p, m);
        let f1 = (f - 1) as nat;
        let zero = with_cell(m, 0i8, mid + 1);
        let k1: nat = if m.tape[m.pos] == 0 {
            assert(zero.tape =~= m.tape);
            0
        } else {
            lemma_run_clear_turns(p, m1, a, mid, f1)
        };
        if stuck(p, m, f) {
            0
        } else {
            let f2 = (f1 - k1) as nat;
            lemma_run_mods(p, zero, mid + 1, b, f2);
            assert(modded(zero, mod_sum(p.subrange(mid + 1, b)), b).tape =~= with_cell(
                m,
                mod_sum(p.subrange(mid + 1, b)),
                b,
            ).tape);
            (1 + k1 + (b - mid - 1)) as nat
        }
    }
}

/// Whether both programs of `src` can be run side by side: its brackets are
/// balanced and its program fits in memory.
pub open spec fn setting(src: Seq<char>) -> bool {
    balanced(src) && src.len() < usize::MAX
}

/// What the two programs of a source are: each its operations, linked, with
/// `End` behind them, and the commands of the one parted into groups for the
/// operations of the other.
pub proof fn lemma_setting(src: Seq<char>)
    requires
        setting(src),
    ensures
        parted(tokens(src), optimized(src), cuts(src)),
        naive(src).len() <= usize::MAX,
        compiled(src).len() <= usize::MAX,
        well_formed(naive(src)),
        properly_nested(naive(src)),
        same_shape(naive(src), tokens(src)),
        well_formed(compiled(src)),
        properly_nested(compiled(src)),
        same_shape(compiled(src), optimized(src)),
        unlinked(optimized(src)),
        unlinked(tokens(src)),
{
    lemma_tokens_brackets(src);
    lemma_scan_brackets(src);
    lemma_linked_program(tokens(src));
    lemma_linked_program(optimized(src));
    law_operations_stand_for_commands(src);
}

/// A loop of the commands with no bracket inside is linked open to close.
pub proof fn lemma_inner_partner(src: Seq<char>, lo: int, m: int)
    requires
        setting(src),
        0 <= lo < m < tokens(src).len(),
        tokens(src)[lo] is LoopOpen,
        tokens(src)[m] is LoopClose,
        forall|j: int| lo < j < m ==> nesting_step(#[trigger] tokens(src)[j]) == 0,
    ensures
        naive(src)[lo] == Ops::LoopOpen(m as usize),
        naive(src)[m] == Ops::LoopClose(lo as usize),
{
    lemma_setting(src);
    let t = tokens(src);
    let p = naive(src);
    assert(t.take(lo + 1) =~= t.take(lo).push(t[lo]));
    lemma_nesting_push(t.take(lo), t[lo]);
    assert(t.take(m + 1) =~= t.take(m).push(t[m]));
    lemma_nesting_push(t.take(m), t[m]);
    assert forall|k: int| lo < k <= m implies #[trigger] nesting(t.take(k)) > nesting(
        t.take(lo),
    ) by {
        lemma_nesting_flat(t, lo + 1, k);
    }
    lemma_nesting_flat(t, lo + 1, m);
    assert(encloses(t, lo, m));
    assert(nesting_step(p[lo]) == 1);
    assert(nested_at(p, lo));
    assert(partnered(p, lo));
    let x = p[lo]->LoopOpen_0 as int;
    assert(p[t.len() as int] == Ops::End);
    lemma_encloses_shape(p, t, lo, x);
    lemma_encloses_once(t, lo, m, x);
}

/// An open among the operations of the optimiser and its close stand for an
/// open among the commands and its close.
pub proof fn lemma_open_partner(src: Seq<char>, q: int)
    requires
        setting(src),
        0 <= q < optimized(src).len(),
        compiled(src)[q] is LoopOpen,
    ensures
        q < compiled(src)[q]->LoopOpen_0 < optimized(src).len(),
        cut_end(cuts(src), tokens(src).len() as int, q) == cuts(src)[q] + 1,
        cut_end(
            cuts(src),
            tokens(src).len() as int,
            compiled(src)[q]->LoopOpen_0 as int,
        ) == cuts(src)[compiled(src)[q]->LoopOpen_0 as int] + 1,
        naive(src)[cuts(src)[q]] == Ops::LoopOpen(
            cuts(src)[compiled(src)[q]->LoopOpen_0 as int] as usize,
        ),
        naive(src)[cuts(src)[compiled(src)[q]->LoopOpen_0 as int]] == Ops::LoopClose(
            cuts(src)[q] as usize,
        ),
{
    lemma_setting(src);
    let t = tokens(src);
    let v = optimized(src);
    let c = cuts(src);
    let p = naive(src);
    let o = compiled(src);
    let n = t.len() as int;
    let tq = o[q]->LoopOpen_0 as int;
    assert(nested_at(o, q));
    assert(partnered(o, q));
    assert(o[v.len() as int] == Ops::End);
    lemma_encloses_shape(o, v, q, tq);
    assert(nesting_step(o[q]) == nesting_step(v[q]));
    assert(nesting_step(o[tq]) == nesting_step(v[tq]));
    lemma_partner_transfer(t, v, c, q, tq);
    assert(cut_ok(c, n, q));
    assert(cut_ok(c, n, tq));
    let lo = c[q];
    assert(stands_for(t.subrange(lo, lo + 1), v[q]));
    assert(t.subrange(lo, lo + 1)[0] == t[lo]);
    assert(nesting_step(p[lo]) == nesting_step(t[lo]));
    assert(nested_at(p, lo));
    assert(partnered(p, lo));
    let x = p[lo]->LoopOpen_0 as int;
    assert(p[n] == Ops::End);
    lemma_encloses_shape(p, t, lo, x);
    lemma_encloses_once(t, lo, c[tq], x);
}

/// Whether the machine `mn` on the program without rewrites and the machine
/// `mo` on the optimised program stand at the same place: `mo` before the
/// operation at `q` and `mn` before its commands, or, in a search, at the
/// close of its loop; with the same tape, data pointer and channel.
pub open spec fn at_cut(src: Seq<char>, mn: Machine, mo: Machine, q: int) -> bool {
    let n = tokens(src).len() as int;
    let v = optimized(src);
    &&& 0 <= q <= v.len()
    &&& mo.ip == q
    &&& alike(mn, mo)
    &&& on_tape(mn.pos)
    &&& mn.tape.len() == TAPE_LEN
    &&& (mn.ip == cut_at(cuts(src), n, q) || (q < v.len() && v[q] is SearchZeroCell && mn.ip
        == cut_end(cuts(src), n, q) - 1))
}

/// One operation of the optimised program and the commands that it stands
/// for.
pub struct Hop {
    /// Whether both runs end with this operation.
    pub done: bool,
    /// The machine on the program without rewrites, behind the commands.
    pub mn: Machine,
    /// The machine on the optimised program, behind the operation.
    pub mo: Machine,
    /// The place of the next operation.
    pub q: int,
    /// The fuel left for the program without rewrites.
    pub left: nat,
}

/// Whether `h` is what one operation of the optimised program and its
/// commands lead to: both runs end alike, or both go on from the same place,
/// the optimised program one operation later.
pub open spec fn hops(src: Seq<char>, mn: Machine, mo: Machine, q: int, f: nat, h: Hop) -> bool {
    let p = naive(src);
    let o = compiled(src);
    &&& h.done ==> run(o, mo, f).1 == run(p, mn, f).1 && alike(run(o, mo, f).0, run(p, mn, f).0)
    &&& !h.done ==> {
        &&& h.left < f
        &&& run(p, mn, f) == run(p, h.mn, h.left)
        &&& o[q] != Ops::End
        &&& fault_at(o, mo) is None
        &&& h.mo == next(o, mo)
        &&& at_cut(src, h.mn, h.mo, h.q)
    }
}

/// A merged move and its moves.
pub proof fn lemma_hop_move(src: Seq<char>, mn: Machine, mo: Machine, q: int, f: nat) -> (h: Hop)
    requires
        setting(src),
        at_cut(src, mn, mo, q),
        q < optimized(src).len(),
        optimized(src)[q] is Move,
    ensures
        hops(src, mn, mo, q, f, h) || stuck(naive(src), mn, f),
{
    lemma_setting(src);
    let t = tokens(src);
    let v = optimized(src);
    let c = cuts(src);
    let p = naive(src);
    let o = compiled(src);
    let n = t.len() as int;
    let lo = c[q];
    let hi = cut_end(c, n, q);
    assert(cut_ok(c, n, q));
    let g = t.subrange(lo, hi);
    assert(stands_for(g, v[q]));
    assert(nesting_step(o[q]) == nesting_step(v[q]));
    assert forall|k: int| lo <= k < hi implies p[k] == t[k] by {
        assert(g[k - lo] == t[k]);
        assert(nesting_step(p[k]) == nesting_step(t[k]));
    }
    assert(p.subrange(lo, hi) =~= g);
    lemma_run_moves(p, mn, lo, hi, f);
    let s = move_sum(g);
    Hop { done: false, mn: moved(mn, s, hi), mo: next(o, mo), q: q + 1, left: (f - (hi - lo)) as nat }
}

/// A merged cell change and its cell changes.
pub proof fn lemma_hop_mod(src: Seq<char>, mn: Machine, mo: Machine, q: int, f: nat) -> (h: Hop)
    requires
        setting(src),
        at_cut(src, mn, mo, q),
        q < optimized(src).len(),
        optimized(src)[q] is Mod,
    ensures
        hops(src, mn, mo, q, f, h) || stuck(naive(src), mn, f),
{
    lemma_setting(src);
    let t = tokens(src);
    let v = optimized(src);
    let c = cuts(src);
    let p = naive(src);
    let o = compiled(src);
    let n = t.len() as int;
    let lo = c[q];
    let hi = cut_end(c, n, q);
    assert(cut_ok(c, n, q));
    let g = t.subrange(lo, hi);
    assert(stands_for(g, v[q]));
    assert(nesting_step(o[q]) == nesting_step(v[q]));
    assert forall|k: int| lo <= k < hi implies p[k] == t[k] by {
        assert(g[k - lo] == t[k]);
        assert(nesting_step(p[k]) == nesting_step(t[k]));
    }
    assert(p.subrange(lo, hi) =~= g);
    lemma_run_mods(p, mn, lo, hi, f);
    let s = mod_sum(g);
    assert(next(o, mo).tape =~= modded(mn, s, hi).tape);
    Hop { done: false, mn: modded(mn, s, hi), mo: next(o, mo), q: q + 1, left: (f - (hi - lo)) as nat }
}

/// A "set" and its loop with the cell changes behind it.
pub proof fn lemma_hop_clear(src: Seq<char>, mn: Machine, mo: Machine, q: int, f: nat) -> (h: Hop)
    requires
        setting(src),
        at_cut(src, mn, mo, q),
        q < optimized(src).len(),
        optimized(src)[q] is SetCell,
    ensures
        hops(src, mn, mo, q, f, h) || stuck(naive(src), mn, f),
{
    lemma_setting(src);
    let t = tokens(src);
    let v = optimized(src);
    let c = cuts(src);
    let p = naive(src);
    let o = compiled(src);
    let n = t.len() as int;
    let lo = c[q];
    let hi = cut_end(c, n, q);
    assert(cut_ok(c, n, q));
    let g = t.subrange(lo, hi);
    assert(stands_for(g, v[q]));
    assert(nesting_step(o[q]) == nesting_step(v[q]));
    let val = v[q]->SetCell_0;
    let at = choose|at: int| #[trigger] clear_form(g, at, val);
    let mid = lo + at;
    assert(g[0] == t[lo]);
    assert(g[at] == t[mid]);
    assert forall|k: int| lo < k < hi && k != mid implies p[k] == t[k] && (#[trigger] t[k]) is Mod by {
        if k < mid {
            assert(g.subrange(1, at)[k - lo - 1] == t[k]);
        } else {
            assert(g.subrange(at + 1, g.len() as int)[k - mid - 1] == t[k]);
        }
        assert(nesting_step(p[k]) == nesting_step(t[k]));
    }
    lemma_inner_partner(src, lo, mid);
    assert(p.subrange(lo + 1, mid) =~= g.subrange(1, at));
    assert(p.subrange(mid + 1, hi) =~= g.subrange(at + 1, g.len() as int));
    let k = lemma_run_clear(p, mn, lo, mid, hi, f);
    assert(next(o, mo).tape =~= with_cell(mn, val, hi).tape);
    Hop { done: false, mn: with_cell(mn, val, hi), mo: next(o, mo), q: q + 1, left: (f - k) as nat }
}

/// A search and one turn of its loop.
pub proof fn lemma_hop_search(src: Seq<char>, mn: Machine, mo: Machine, q: int, f: nat) -> (h: Hop)
    requires
        setting(src),
        at_cut(src, mn, mo, q),
        q < optimized(src).len(),
        optimized(src)[q] is SearchZeroCell,
    ensures
        hops(src, mn, mo, q, f, h) || stuck(naive(src), mn, f),
{
    lemma_setting(src);
    let t = tokens(src);
    let v = optimized(src);
    let c = cuts(src);
    let p = naive(src);
    let o = compiled(src);
    let n = t.len() as int;
    let lo = c[q];
    let hi = cut_end(c, n, q);
    assert(cut_ok(c, n, q));
    let g = t.subrange(lo, hi);
    assert(stands_for(g, v[q]));
    assert(nesting_step(o[q]) == nesting_step(v[q]));
    let s = v[q]->SearchZeroCell_0;
    assert(g[0] == t[lo]);
    assert(g[g.len() - 1] == t[hi - 1]);
    assert forall|k: int| lo < k < hi - 1 implies p[k] == t[k] && (#[trigger] t[k]) is Move by {
        assert(g.subrange(1, g.len() - 1)[k - lo - 1] == t[k]);
        assert(nesting_step(p[k]) == nesting_step(t[k]));
    }
    lemma_inner_partner(src, lo, hi - 1);
    assert(p.subrange(lo + 1, hi - 1) =~= g.subrange(1, g.len() - 1));
    lemma_run_unfold(p, mn, f);
    let m1 = next(p, mn);
    if mn.tape[mn.pos] == 0 {
        Hop { done: false, mn: m1, mo: next(o, mo), q: q + 1, left: (f - 1) as nat }
    } else {
        lemma_run_moves(p, m1, lo + 1, hi - 1, (f - 1) as nat);
        Hop {
            done: false,
            mn: moved(m1, s as int, hi - 1),
            mo: next(o, mo),
            q,
            left: (f - 1 - (hi - lo - 2)) as nat,
        }
    }
}

/// A print or a read, which stands for itself.
pub proof fn lemma_hop_plain(src: Seq<char>, mn: Machine, mo: Machine, q: int, f: nat) -> (h: Hop)
    requires
        setting(src),
        at_cut(src, mn, mo, q),
        q < optimized(src).len(),
        optimized(src)[q] is Print || optimized(src)[q] is Read,
    ensures
        hops(src, mn, mo, q, f, h) || stuck(naive(src), mn, f),
{
    lemma_setting(src);
    let t = tokens(src);
    let v = optimized(src);
    let c = cuts(src);
    let p = naive(src);
    let o = compiled(src);
    let n = t.len() as int;
    let lo = c[q];
    assert(cut_ok(c, n, q));
    let g = t.subrange(lo, cut_end(c, n, q));
    assert(stands_for(g, v[q]));
    assert(g[0] == t[lo]);
    assert(nesting_step(o[q]) == nesting_step(v[q]));
    assert(nesting_step(p[lo]) == nesting_step(t[lo]));
    lemma_run_unfold(p, mn, f);
    lemma_run_unfold(o, mo, f);
    if fault_at(p, mn) is Some {
        Hop { done: true, mn, mo, q, left: f }
    } else {
        assert(next(o, mo).tape =~= next(p, mn).tape);
        Hop { done: false, mn: next(p, mn), mo: next(o, mo), q: q + 1, left: (f - 1) as nat }
    }
}

/// A bracket that is left a bracket, which stands for itself.
pub proof fn lemma_hop_bracket(src: Seq<char>, mn: Machine, mo: Machine, q: int, f: nat) -> (h: Hop)
    requires
        setting(src),
        at_cut(src, mn, mo, q),
        q < optimized(src).len(),
        optimized(src)[q] is LoopOpen || optimized(src)[q] is LoopClose,
    ensures
        hops(src, mn, mo, q, f, h) || stuck(naive(src), mn, f),
{
    lemma_setting(src);
    let v = optimized(src);
    let c = cuts(src);
    let p = naive(src);
    let o = compiled(src);
    let n = tokens(src).len() as int;
    assert(cut_ok(c, n, q));
    assert(nesting_step(o[q]) == nesting_step(v[q]));
    assert(partnered(o, q));
    lemma_run_unfold(p, mn, f);
    assert(mn.ip == c[q]);
    assert(mn.tape[mn.pos] == mo.tape[mo.pos]);
    if v[q] is LoopOpen {
        lemma_open_partner(src, q);
        let tq = o[q]->LoopOpen_0 as int;
        assert(cut_ok(c, n, tq));
        assert(p[mn.ip] == Ops::LoopOpen(c[tq] as usize));
        assert(cut_at(c, n, tq + 1) == c[tq] + 1);
        assert(cut_at(c, n, q + 1) == c[q] + 1);
        if mn.tape[mn.pos] == 0 {
            Hop { done: false, mn: next(p, mn), mo: next(o, mo), q: tq + 1, left: (f - 1) as nat }
        } else {
            Hop { done: false, mn: next(p, mn), mo: next(o, mo), q: q + 1, left: (f - 1) as nat }
        }
    } else {
        let tq = o[q]->LoopClose_0 as int;
        lemma_open_partner(src, tq);
        assert(cut_ok(c, n, tq));
        assert(p[mn.ip] == Ops::LoopClose(c[tq] as usize));
        assert(cut_at(c, n, tq + 1) == c[tq] + 1);
        assert(cut_at(c, n, q + 1) == c[q] + 1);
        if mn.tape[mn.pos] != 0 {
            Hop { done: false, mn: next(p, mn), mo: next(o, mo), q: tq + 1, left: (f - 1) as nat }
        } else {
            Hop { done: false, mn: next(p, mn), mo: next(o, mo), q: q + 1, left: (f - 1) as nat }
        }
    }
}

/// From the same place the optimised program of a source prints what the
/// one without rewrites prints, and maybe more; and the two end alike, unless
/// the one without rewrites moves the data pointer off the tape or runs out
/// of fuel.
pub proof fn lemma_simulation(src: Seq<char>, mn: Machine, mo: Machine, q: int, f: nat)
    requires
        setting(src),
        at_cut(src, mn, mo, q),
    ensures
        begins(run(compiled(src), mo, f).0.output, run(naive(src), mn, f).0.output),
        !stalled(run(naive(src), mn, f).1) ==> run(compiled(src), mo, f).1 == run(
            naive(src),
            mn,
            f,
        ).1 && alike(run(compiled(src), mo, f).0, run(naive(src), mn, f).0),
    decreases f,
{
    lemma_setting(src);
    let v = optimized(src);
    let p = naive(src);
    let o = compiled(src);
    lemma_run_unfold(o, mo, f);
    if q == v.len() {
        lemma_run_unfold(p, mn, f);
        assert(p[tokens(src).len() as int] == Ops::End);
        assert(o[q] == Ops::End);
    } else {
        assert(fresh(v[q]));
        let h = match v[q] {
            Ops::Move(_) => lemma_hop_move(src, mn, mo, q, f),
            Ops::Mod(_) => lemma_hop_mod(src, mn, mo, q, f),
            Ops::SetCell(_) => lemma_hop_clear(src, mn, mo, q, f),
            Ops::SearchZeroCell(_) => lemma_hop_search(src, mn, mo, q, f),
            Ops::Print => lemma_hop_plain(src, mn, mo, q, f),
            Ops::Read => lemma_hop_plain(src, mn, mo, q, f),
            _ => lemma_hop_bracket(src, mn, mo, q, f),
        };
        if !hops(src, mn, mo, q, f, h) {
            lemma_output_grows(o, mo, f);
        } else if !h.done {
            lemma_simulation(src, h.mn, h.mo, h.q, h.left);
            lemma_fuel_grows(o, h.mo, h.left, (f - 1) as nat);
            if !stalled(run(p, mn, f).1) {
                lemma_run_more(o, h.mo, h.left, (f - 1) as nat);
            }
        }
    }
}

} // verus!
