use vstd::prelude::*;
use vstd::std_specs::iter::IteratorSpec;
use vstd::string::*;
use crate::ops::{Ops, partnered, encloses, nested_at, properly_nested, lemma_same_nesting, nesting, nesting_step, underflows, well_formed, lemma_nesting_push, lemma_underflows_prefix};

verus! {

/// The operation that a source character stands for; `None` for a character
/// that is not one of the eight commands.
pub open spec fn token(c: char) -> Option<Ops> {
    if c == '<' {
        Some(Ops::Move(-1isize))
    } else if c == '>' {
        Some(Ops::Move(1))
    } else if c == '-' {
        Some(Ops::Mod(-1i8))
    } else if c == '+' {
        Some(Ops::Mod(1))
    } else if c == '.' {
        Some(Ops::Print)
    } else if c == ',' {
        Some(Ops::Read)
    } else if c == '[' {
        Some(Ops::LoopOpen(0))
    } else if c == ']' {
        Some(Ops::LoopClose(0))
    } else {
        None
    }
}

/// The state of the peephole optimiser: what it has given out for good, and
/// the last two operations, which a later one may still rewrite.
pub struct Window {
    pub emitted: Seq<Ops>,
    pub prepre: Option<Ops>,
    pub pre: Option<Ops>,
}

/// The window after `cur` is taken in without any rewrite: the older pending
/// operation is given out and `cur` becomes the newest.
pub open spec fn shifted(w: Window, cur: Ops) -> Window {
    Window {
        emitted: match w.prepre {
            Some(o) => w.emitted.push(o),
            None => w.emitted,
        },
        prepre: w.pre,
        pre: Some(cur),
    }
}

/// The window after `cur` is taken in. Two moves in a row become one, unless
/// their sum does not fit; two cell changes become one, wrapping; a loop around
/// a single decrement becomes "set to zero"; a cell change after a "set"
/// becomes part of it, wrapping, so that "set to zero" and the changes behind
/// it become "set to their sum"; a loop around a single move becomes a search
/// for a zero cell. Anything else shifts the window.
pub open spec fn absorb(w: Window, cur: Ops) -> Window {
    match (w.pre, cur) {
        (Some(Ops::Move(a)), Ops::Move(b)) => if isize::MIN <= a + b <= isize::MAX {
            Window { pre: Some(Ops::Move((a + b) as isize)), ..w }
        } else {
            shifted(w, cur)
        },
        (Some(Ops::Mod(a)), Ops::Mod(b)) => Window { pre: Some(Ops::Mod(a.wrapping_add(b))), ..w },
        (Some(Ops::Mod(a)), Ops::LoopClose(_)) => if a == -1 && w.prepre matches Some(
            Ops::LoopOpen(_),
        ) {
            Window { prepre: None, pre: Some(Ops::SetCell(0)), ..w }
        } else {
            shifted(w, cur)
        },
        (Some(Ops::Move(n)), Ops::LoopClose(_)) => if w.prepre matches Some(Ops::LoopOpen(_)) {
            Window { prepre: None, pre: Some(Ops::SearchZeroCell(n)), ..w }
        } else {
            shifted(w, cur)
        },
        (Some(Ops::SetCell(z)), Ops::Mod(b)) => Window {
            pre: Some(Ops::SetCell(z.wrapping_add(b))),
            ..w
        },
        _ => shifted(w, cur),
    }
}

/// The window after the whole of `src` has gone through the optimiser.
pub open spec fn scan(src: Seq<char>) -> Window
    decreases src.len(),
{
    if src.len() == 0 {
        Window { emitted: Seq::empty(), prepre: None, pre: None }
    } else {
        let w = scan(src.drop_last());
        match token(src.last()) {
            Some(op) => absorb(w, op),
            None => w,
        }
    }
}

/// Everything in the window, in order.
pub open spec fn flushed(w: Window) -> Seq<Ops> {
    let older = match w.prepre {
        Some(o) => w.emitted.push(o),
        None => w.emitted,
    };
    match w.pre {
        Some(o) => older.push(o),
        None => older,
    }
}

/// The optimised operations of `src`, with their jumps not yet linked.
pub open spec fn optimized(src: Seq<char>) -> Seq<Ops> {
    flushed(scan(src))
}

/// The state of the jump linker: the operations as linked so far, and the
/// indices of the opens that still wait for their close, innermost last.
pub struct Linker {
    pub ops: Seq<Ops>,
    pub stack: Seq<usize>,
}

/// The linker after it has looked at index `i`. An open is put on the stack. A
/// close takes the innermost open off it and the two get each other's index; a
/// close that finds the stack empty changes nothing.
pub open spec fn link_at(l: Linker, i: int) -> Linker {
    match l.ops[i] {
        Ops::LoopOpen(_) => Linker { stack: l.stack.push(i as usize), ..l },
        Ops::LoopClose(_) => if l.stack.len() > 0 {
            let start = l.stack.last();
            Linker {
                ops: l.ops.update(start as int, Ops::LoopOpen(i as usize)).update(
                    i,
                    Ops::LoopClose(start),
                ),
                stack: l.stack.drop_last(),
            }
        } else {
            l
        },
        _ => l,
    }
}

/// The linker after it has looked at the first `n` operations of `ops`.
pub open spec fn link_scan(ops: Seq<Ops>, n: nat) -> Linker
    decreases n,
{
    if n == 0 {
        Linker { ops, stack: Seq::empty() }
    } else {
        link_at(link_scan(ops, (n - 1) as nat), n - 1)
    }
}

/// The program that `src` compiles to, where its brackets are balanced: the
/// optimised operations with every loop linked, and `End` behind them.
pub open spec fn compiled(src: Seq<char>) -> Seq<Ops> {
    let o = optimized(src);
    link_scan(o, o.len()).ops.push(Ops::End)
}

/// The operations of the commands in `src`, one for each, in order.
pub open spec fn tokens(src: Seq<char>) -> Seq<Ops>
    decreases src.len(),
{
    if src.len() == 0 {
        Seq::empty()
    } else {
        match token(src.last()) {
            Some(op) => tokens(src.drop_last()).push(op),
            None => tokens(src.drop_last()),
        }
    }
}

/// The program of `src` without any rewrite: one operation for each command,
/// with every loop linked, and `End` behind them.
pub open spec fn naive(src: Seq<char>) -> Seq<Ops> {
    let t = tokens(src);
    link_scan(t, t.len()).ops.push(Ops::End)
}

/// The loop depth after the whole of `src`: the opens minus the closes.
pub open spec fn bracket_depth(src: Seq<char>) -> int
    decreases src.len(),
{
    if src.len() == 0 {
        0
    } else {
        bracket_depth(src.drop_last()) + (if src.last() == '[' {
            1int
        } else if src.last() == ']' {
            -1int
        } else {
            0int
        })
    }
}

/// Whether some prefix of `src` holds more closes than opens.
pub open spec fn closes_unopened(src: Seq<char>) -> bool
    decreases src.len(),
{
    src.len() > 0 && (closes_unopened(src.drop_last()) || bracket_depth(src) < 0)
}

/// Whether the brackets of `src` are properly nested and all closed.
pub open spec fn balanced(src: Seq<char>) -> bool {
    !closes_unopened(src) && bracket_depth(src) == 0
}

/// What compiling `src` gives: the message for a close without an open, if
/// some prefix holds one; else the message for an open without a close, if one
/// is left; else the compiled program.
pub open spec fn outcome(src: Seq<char>) -> Result<Seq<Ops>, Seq<char>> {
    if closes_unopened(src) {
        Err("missing [ for ]"@)
    } else if bracket_depth(src) > 0 {
        Err("missing ] for ["@)
    } else {
        Ok(compiled(src))
    }
}

/// Whether `r` is what compiling `src` gives.
pub open spec fn is_outcome(src: Seq<char>, r: Result<Vec<Ops>, String>) -> bool {
    match r {
        Ok(ops) => outcome(src) == Ok::<Seq<Ops>, Seq<char>>(ops@),
        Err(msg) => outcome(src) == Err::<Seq<Ops>, Seq<char>>(msg@),
    }
}

/// Whether `op` can come out of the optimiser: it is not `End`, and a bracket
/// still holds the index 0 that its token gave it.
pub open spec fn fresh(op: Ops) -> bool {
    match op {
        Ops::LoopOpen(t) => t == 0,
        Ops::LoopClose(t) => t == 0,
        Ops::End => false,
        _ => true,
    }
}

/// Whether every operation in `ops` is fresh.
pub open spec fn unlinked(ops: Seq<Ops>) -> bool {
    forall|i: int| 0 <= i < ops.len() ==> fresh(#[trigger] ops[i])
}

/// Taking in one operation moves the window's nesting as the operation itself
/// would, and puts no linked bracket into it.
pub proof fn lemma_absorb_brackets(w: Window, cur: Ops)
    requires
        unlinked(flushed(w)),
        fresh(cur),
    ensures
        nesting(flushed(absorb(w, cur))) == nesting(flushed(w)) + nesting_step(cur),
        underflows(flushed(absorb(w, cur))) == (underflows(flushed(w)) || nesting(
            flushed(absorb(w, cur)),
        ) < 0),
        unlinked(flushed(absorb(w, cur))),
        flushed(absorb(w, cur)).len() <= flushed(w).len() + 1,
{
    let e = w.emitted;
    let f = flushed(w);
    let g = flushed(absorb(w, cur));
    if absorb(w, cur) == shifted(w, cur) {
        assert(g =~= f.push(cur));
        lemma_nesting_push(f, cur);
        assert forall|i: int| 0 <= i < f.len() implies #[trigger] g[i] == f[i] by {}
    } else {
        let last = w.pre->0;
        let new = absorb(w, cur).pre->0;
        assert(nesting_step(new) == 0);
        if absorb(w, cur).prepre == w.prepre {
            // the newest pending operation was replaced
            let older = f.drop_last();
            assert(f =~= older.push(last));
            assert(g =~= older.push(new));
            lemma_nesting_push(older, last);
            lemma_nesting_push(older, new);
            assert forall|i: int| 0 <= i < older.len() implies #[trigger] g[i] == f[i] by {}
        } else {
            // a whole loop was replaced
            let open = w.prepre->0;
            assert(f =~= e.push(open).push(last));
            assert(g =~= e.push(new));
            lemma_nesting_push(e, open);
            lemma_nesting_push(e.push(open), last);
            lemma_nesting_push(e, new);
            assert forall|i: int| 0 <= i < e.len() implies #[trigger] g[i] == f[i] by {}
        }
    }
}

/// The optimiser keeps the bracket structure of the source: the same depth at
/// the end, and a close without an open in the one exactly when in the other.
/// It gives no more operations than the source has characters, none of them
/// `End`, and every bracket with the index 0.
pub proof fn lemma_scan_brackets(src: Seq<char>)
    ensures
        nesting(optimized(src)) == bracket_depth(src),
        underflows(optimized(src)) == closes_unopened(src),
        unlinked(optimized(src)),
        optimized(src).len() <= src.len(),
    decreases src.len(),
{
    if src.len() > 0 {
        lemma_scan_brackets(src.drop_last());
        match token(src.last()) {
            Some(op) => lemma_absorb_brackets(scan(src.drop_last()), op),
            None => {},
        }
    }
}

/// The depth before the open that stands at place `s` on the stack.
pub open spec fn depth_of(s: int) -> int {
    s
}

/// Whether `k` is one of the indices on `stack`.
pub open spec fn on_stack(stack: Seq<usize>, k: int) -> bool {
    exists|s: int| 0 <= s < stack.len() && #[trigger] stack[s] == k
}

/// Whether the bracket at `k`, if there is one, has its partner among the
/// first `n` operations, unless it is an open that still holds 0.
pub open spec fn paired_at(ops: Seq<Ops>, k: int, n: int) -> bool {
    match ops[k] {
        Ops::LoopOpen(t) => t == 0 || (k < t < n && ops[t as int] == Ops::LoopClose(k as usize)),
        Ops::LoopClose(t) => t < k && ops[t as int] == Ops::LoopOpen(k as usize),
        _ => true,
    }
}

/// Whether the open at `k` of the linked `ops`, if it holds an index, holds
/// that of the close that ends its loop in `unlinked`.
pub open spec fn closed_at(ops: Seq<Ops>, unlinked: Seq<Ops>, k: int) -> bool {
    match ops[k] {
        Ops::LoopOpen(t) => t == 0 || encloses(unlinked, k, t as int),
        _ => true,
    }
}

/// The operation for one source character, if it is a command.
pub fn read_token(c: char) -> (r: Option<Ops>)
    ensures
        r == token(c),
{
    if c == '<' {
        Some(Ops::Move(-1))
    } else if c == '>' {
        Some(Ops::Move(1))
    } else if c == '-' {
        Some(Ops::Mod(-1))
    } else if c == '+' {
        Some(Ops::Mod(1))
    } else if c == '.' {
        Some(Ops::Print)
    } else if c == ',' {
        Some(Ops::Read)
    } else if c == '[' {
        Some(Ops::LoopOpen(0))
    } else if c == ']' {
        Some(Ops::LoopClose(0))
    } else {
        None
    }
}

/// The peephole optimiser at work.
pub struct Peephole {
    emitted: Vec<Ops>,
    prepre: Option<Ops>,
    pre: Option<Ops>,
}

impl View for Peephole {
    type V = Window;

    closed spec fn view(&self) -> Window {
        Window { emitted: self.emitted@, prepre: self.prepre, pre: self.pre }
    }
}

impl Peephole {
    /// An optimiser that has seen nothing.
    pub fn new() -> (p: Peephole)
        ensures
            p@ == scan(Seq::empty()),
    {
        Peephole { emitted: Vec::new(), prepre: None, pre: None }
    }

    fn shift(&mut self, cur: Ops)
        ensures
            final(self)@ == shifted(old(self)@, cur),
    {
        if let Some(o) = self.prepre {
            self.emitted.push(o);
        }
        self.prepre = self.pre;
        self.pre = Some(cur);
    }

    /// Takes in the next operation of the source.
    pub fn take_in(&mut self, cur: Ops)
        ensures
            final(self)@ == absorb(old(self)@, cur),
    {
        match (self.pre, cur) {
            (Some(Ops::Move(a)), Ops::Move(b)) => {
                match a.checked_add(b) {
                    Some(sum) => {
                        self.pre = Some(Ops::Move(sum));
                    },
                    None => {
                        self.shift(cur);
                    },
                }
            },
            (Some(Ops::Mod(a)), Ops::Mod(b)) => {
                self.pre = Some(Ops::Mod(a.wrapping_add(b)));
            },
            (Some(Ops::Mod(a)), Ops::LoopClose(_)) => {
                let after_open = match self.prepre {
                    Some(Ops::LoopOpen(_)) => true,
                    _ => false,
                };
                if a == -1 && after_open {
                    self.prepre = None;
                    self.pre = Some(Ops::SetCell(0));
                } else {
                    self.shift(cur);
                }
            },
            (Some(Ops::Move(n)), Ops::LoopClose(_)) => {
                let after_open = match self.prepre {
                    Some(Ops::LoopOpen(_)) => true,
                    _ => false,
                };
                if after_open {
                    self.prepre = None;
                    self.pre = Some(Ops::SearchZeroCell(n));
                } else {
                    self.shift(cur);
                }
            },
            (Some(Ops::SetCell(z)), Ops::Mod(b)) => {
                self.pre = Some(Ops::SetCell(z.wrapping_add(b)));
            },
            _ => {
                self.shift(cur);
            },
        }
    }

    /// Gives out everything, the pending operations last.
    pub fn finish(self) -> (ops: Vec<Ops>)
        ensures
            ops@ == flushed(self@),
    {
        let mut ops = self.emitted;
        if let Some(o) = self.prepre {
            ops.push(o);
        }
        if let Some(o) = self.pre {
            ops.push(o);
        }
        ops
    }
}

/// Filters the commands out of `source` and folds them into the optimised
/// operations, whose brackets are not linked yet.
pub fn optimize(source: &str) -> (ops: Vec<Ops>)
    ensures
        ops@ == optimized(source@),
{
    broadcast use vstd::string::group_string_axioms;

    let mut window = Peephole::new();
    let mut chars = source.chars();
    let ghost mut seen: Seq<char> = Seq::empty();
    loop
        invariant
            chars.obeys_prophetic_iter_laws(),
            chars.decrease() is Some,
            seen + chars.remaining() == source@,
            window@ == scan(seen),
        ensures
            seen == source@,
            window@ == scan(seen),
        decreases chars.decrease()->0,
    {
        let ghost before = chars;
        let next = chars.next();
        proof {
            vstd::string::next_postcondition(&before, &chars, next);
        }
        match next {
            None => {
                assert(seen + Seq::<char>::empty() =~= seen);
                break ;
            },
            Some(c) => {
                proof {
                    let longer = seen.push(c);
                    assert(longer.drop_last() =~= seen);
                    assert(longer + chars.remaining() =~= seen + before.remaining());
                    seen = longer;
                }
                if let Some(cur) = read_token(c) {
                    window.take_in(cur);
                }
            },
        }
    }
    window.finish()
}

/// What holds of the linker after it has looked at the first `i` operations
/// of the unlinked `o`, none of which closes a loop that was never opened.
/// The stack holds the opens that still wait, in order, each with 0 for an
/// index and at the depth of its place on the stack; every other bracket
/// among the first `i` has its partner, which ends its loop; nothing else has
/// changed.
pub open spec fn linking(o: Seq<Ops>, l: Linker, i: int) -> bool {
    let v = l.ops;
    let stack = l.stack;
    &&& v.len() == o.len()
    &&& stack.len() == nesting(o.take(i))
    &&& forall|a: int, b: int| 0 <= a < b < stack.len() ==> stack[a] < stack[b]
    &&& forall|s: int|
        0 <= s < stack.len() ==> (#[trigger] stack[s]) < i && v[stack[s] as int] == Ops::LoopOpen(0)
    &&& forall|k: int| 0 <= k < v.len() ==> nesting_step(#[trigger] v[k]) == nesting_step(o[k])
    &&& forall|k: int| 0 <= k < v.len() ==> #[trigger] v[k] != Ops::End
    &&& forall|k: int| 0 <= k < v.len() && nesting_step(o[k]) == 0 ==> #[trigger] v[k] == o[k]
    &&& forall|k: int| i <= k < v.len() ==> #[trigger] v[k] == o[k]
    &&& forall|k: int| 0 <= k < i ==> #[trigger] paired_at(v, k, i)
    &&& forall|k: int| 0 <= k < i ==> #[trigger] closed_at(v, o, k)
    &&& forall|s: int| 0 <= s < stack.len() ==> nesting(o.take(#[trigger] stack[s] as int)) == s
    &&& forall|s: int, k: int|
        0 <= s < stack.len() && stack[s] < k <= i ==> #[trigger] nesting(o.take(k))
            > #[trigger] depth_of(s)
    &&& forall|k: int| 0 <= k < i && #[trigger] v[k] == Ops::LoopOpen(0) ==> on_stack(stack, k)
}

/// The linker keeps `linking` from one operation to the next.
pub proof fn lemma_link_at(o: Seq<Ops>, l: Linker, i: int)
    requires
        unlinked(o),
        0 <= i < o.len() <= usize::MAX,
        linking(o, l, i),
        !underflows(o.take(i + 1)),
    ensures
        linking(o, link_at(l, i), i + 1),
{
    assert(o.take(i + 1) =~= o.take(i).push(o[i]));
    lemma_nesting_push(o.take(i), o[i]);
    let before = l.ops;
    let waiting = l.stack;
    let after = link_at(l, i);
    let v = after.ops;
    let stack = after.stack;
    assert(before[i] == o[i]);
    assert(fresh(o[i]));
    match before[i] {
        Ops::LoopOpen(_) => {
            assert(v[i] == Ops::LoopOpen(0));
            assert(stack[waiting.len() as int] == i);
            assert forall|k: int| 0 <= k < i + 1 implies #[trigger] closed_at(v, o, k) by {
                if k < i {
                    assert(closed_at(before, o, k));
                }
            }
            assert forall|s: int, k: int|
                0 <= s < stack.len() && stack[s] < k <= i + 1 implies #[trigger] nesting(
                o.take(k),
            ) > #[trigger] depth_of(s) by {
                if s < waiting.len() && k <= i {
                    assert(waiting[s] == stack[s]);
                }
            }
            assert forall|k: int| 0 <= k < i + 1 implies #[trigger] paired_at(v, k, i + 1) by {
                if k < i {
                    assert(paired_at(before, k, i));
                }
            }
            assert forall|k: int| 0 <= k < i + 1 && #[trigger] v[k] == Ops::LoopOpen(
                0,
            ) implies on_stack(stack, k) by {
                if k < i {
                    let s = choose|s: int| 0 <= s < waiting.len() && waiting[s] == k;
                    assert(stack[s] == k);
                }
            }
        },
        Ops::LoopClose(_) => {
            assert(waiting.len() > 0);
            let top = waiting.len() - 1;
            let start = waiting[top];
            assert(stack =~= waiting.drop_last());
            assert(before[start as int] == Ops::LoopOpen(0));
            assert forall|s: int| 0 <= s < stack.len() implies (#[trigger] stack[s]) < i + 1
                && v[stack[s] as int] == Ops::LoopOpen(0) by {
                assert(waiting[s] < start);
            }
            assert(nesting(o.take(waiting[top] as int)) == top);
            assert forall|j: int| start < j <= i implies #[trigger] nesting(o.take(j)) > nesting(
                o.take(start as int),
            ) by {
                assert(nesting(o.take(j)) > depth_of(top));
            }
            assert(encloses(o, start as int, i));
            assert forall|k: int| 0 <= k < i + 1 implies #[trigger] closed_at(v, o, k) by {
                if k < i && k != start {
                    assert(closed_at(before, o, k));
                }
            }
            assert forall|s: int, k: int|
                0 <= s < stack.len() && stack[s] < k <= i + 1 implies #[trigger] nesting(
                o.take(k),
            ) > #[trigger] depth_of(s) by {
                assert(waiting[s] == stack[s]);
                if k <= i {
                    assert(nesting(o.take(k)) > depth_of(s));
                }
            }
            assert forall|k: int| 0 <= k < i + 1 implies #[trigger] paired_at(v, k, i + 1) by {
                if k < i && k != start {
                    assert(paired_at(before, k, i));
                }
            }
            assert forall|k: int| 0 <= k < i + 1 && #[trigger] v[k] == Ops::LoopOpen(
                0,
            ) implies on_stack(stack, k) by {
                assert(before[k] == Ops::LoopOpen(0));
                let s = choose|s: int| 0 <= s < waiting.len() && waiting[s] == k;
                assert(stack[s] == k);
            }
        },
        _ => {
            assert forall|k: int| 0 <= k < i + 1 implies #[trigger] closed_at(v, o, k) by {
                if k < i {
                    assert(closed_at(before, o, k));
                }
            }
            assert forall|k: int| 0 <= k < i + 1 implies #[trigger] paired_at(v, k, i + 1) by {
                if k < i {
                    assert(paired_at(before, k, i));
                }
            }
        },
    }
}

/// Whether `linked` holds, place by place, the operations of `o` with nothing
/// changed but the indices in the brackets.
pub open spec fn same_shape(linked: Seq<Ops>, o: Seq<Ops>) -> bool {
    &&& linked.len() == o.len() + 1
    &&& forall|k: int|
        0 <= k < o.len() ==> nesting_step(#[trigger] linked[k]) == nesting_step(o[k]) && (
        nesting_step(o[k]) == 0 ==> linked[k] == o[k])
}

/// `linking` holds of the linker at every place up to which no close comes
/// without its open.
pub proof fn lemma_link_scan(o: Seq<Ops>, i: nat)
    requires
        unlinked(o),
        i <= o.len() <= usize::MAX,
        !underflows(o.take(i as int)),
    ensures
        linking(o, link_scan(o, i), i as int),
    decreases i,
{
    if i == 0 {
        assert(o.take(0) =~= Seq::<Ops>::empty());
    } else {
        assert(o.take(i - 1) =~= o.take(i as int).drop_last());
        lemma_link_scan(o, (i - 1) as nat);
        lemma_link_at(o, link_scan(o, (i - 1) as nat), i - 1);
    }
}

/// Linking a sequence whose brackets are balanced gives, with `End` behind
/// it, a program in which every bracket holds the index of its partner and
/// every open that of the close that ends its loop.
pub proof fn lemma_linked_program(o: Seq<Ops>)
    requires
        unlinked(o),
        o.len() <= usize::MAX,
        !underflows(o),
        nesting(o) == 0,
    ensures
        well_formed(link_scan(o, o.len()).ops.push(Ops::End)),
        properly_nested(link_scan(o, o.len()).ops.push(Ops::End)),
        same_shape(link_scan(o, o.len()).ops.push(Ops::End), o),
{
    let n = o.len() as int;
    assert(o.take(n) =~= o);
    lemma_link_scan(o, o.len());
    let l = link_scan(o, o.len());
    let w = l.ops;
    let v = w.push(Ops::End);
    assert forall|k: int| 0 <= k < v.len() implies #[trigger] nested_at(v, k) by {
        if k < n {
            assert(v[k] == w[k]);
            assert(closed_at(w, o, k));
            assert(paired_at(w, k, n));
            assert(w[k] == Ops::LoopOpen(0) ==> on_stack(l.stack, k));
            if let Ops::LoopOpen(t) = w[k] {
                assert(encloses(o, k, t as int));
                lemma_same_nesting(v, o, k);
                lemma_same_nesting(v, o, t + 1);
                assert forall|j: int| k < j <= t implies #[trigger] nesting(v.take(j)) > nesting(
                    v.take(k),
                ) by {
                    lemma_same_nesting(v, o, j);
                    assert(nesting(o.take(j)) > nesting(o.take(k)));
                }
            }
        }
    }
    assert forall|k: int| 0 <= k < v.len() implies #[trigger] partnered(v, k) by {
        if k < n {
            assert(v[k] == w[k]);
            assert(paired_at(w, k, n));
            assert(w[k] == Ops::LoopOpen(0) ==> on_stack(l.stack, k));
        }
    }
    assert forall|k: int| 0 <= k < v.len() - 1 implies #[trigger] v[k] != Ops::End by {
        assert(v[k] == w[k]);
    }
    assert forall|k: int| 0 <= k < o.len() implies nesting_step(#[trigger] v[k]) == nesting_step(
        o[k],
    ) && (nesting_step(o[k]) == 0 ==> v[k] == o[k]) by {
        assert(v[k] == w[k]);
    }
}

/// Gives every loop bracket of `ops` the index of its partner and puts `End`
/// behind the last operation, or says which bracket has no partner.
pub fn link(ops: Vec<Ops>) -> (r: Result<Vec<Ops>, String>)
    requires
        unlinked(ops@),
    ensures
        underflows(ops@) ==> r is Err && r->Err_0@ == "missing [ for ]"@,
        !underflows(ops@) && nesting(ops@) > 0 ==> r is Err && r->Err_0@ == "missing ] for ["@,
        !underflows(ops@) && nesting(ops@) == 0 ==> r is Ok && r->Ok_0@ == link_scan(
            ops@,
            ops@.len(),
        ).ops.push(Ops::End) && well_formed(r->Ok_0@) && properly_nested(r->Ok_0@),
{
    let ghost o = ops@;
    let mut v = ops;
    let n = v.len();
    let mut stack: Vec<usize> = Vec::new();
    let mut i: usize = 0;
    proof {
        assert(o.take(0) =~= Seq::<Ops>::empty());
    }
    while i < n
        invariant
            0 <= i <= n,
            n == o.len(),
            o == ops@,
            unlinked(o),
            (Linker { ops: v@, stack: stack@ }) == link_scan(o, i as nat),
            !underflows(o.take(i as int)),
        decreases n - i,
    {
        proof {
            lemma_link_scan(o, i as nat);
            assert(o.take(i + 1) =~= o.take(i as int).push(o[i as int]));
            lemma_nesting_push(o.take(i as int), o[i as int]);
        }
        let ghost waiting = stack@;
        match v[i] {
            Ops::LoopOpen(_) => {
                stack.push(i);
            },
            Ops::LoopClose(_) => {
                match stack.pop() {
                    Some(start) => {
                        assert(waiting[waiting.len() - 1] == start);
                        v.set(start, Ops::LoopOpen(i));
                        v.set(i, Ops::LoopClose(start));
                        assert(stack@ =~= waiting.drop_last());
                    },
                    None => {
                        proof {
                            lemma_underflows_prefix(o, i + 1);
                        }
                        return Err(String::from_str("missing [ for ]"));
                    },
                }
            },
            _ => {},
        }
        i += 1;
    }
    proof {
        assert(o.take(n as int) =~= o);
        lemma_link_scan(o, n as nat);
    }
    if stack.is_empty() {
        v.push(Ops::End);
        proof {
            lemma_linked_program(o);
        }
        Ok(v)
    } else {
        Err(String::from_str("missing ] for ["))
    }
}

/// Compiles `source`: the optimised operations of its commands, with every loop
/// linked and `End` behind them, if its brackets are balanced; else the message
/// that names the bracket without a partner.
pub fn compile(source: &str) -> (r: Result<Vec<Ops>, String>)
    ensures
        is_outcome(source@, r),
        r is Ok <==> balanced(source@),
        r is Ok ==> well_formed(r->Ok_0@) && properly_nested(r->Ok_0@),
{
    let ops = optimize(source);
    proof {
        lemma_scan_brackets(source@);
        lemma_nesting_push(ops@, Ops::End);
    }
    link(ops)
}

} // verus!
