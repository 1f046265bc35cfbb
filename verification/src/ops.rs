use vstd::prelude::*;

verus! {

/// One instruction of the virtual machine.
#[derive(Clone, Copy, Debug, PartialEq, Eq, Structural)]
pub enum Ops {
    /// Shift the data pointer by the given number of cells.
    Move(isize),
    /// Add the given delta to the current cell, wrapping at eight bits.
    Mod(i8),
    /// Jump to the matching close, held by index, when the current cell is zero.
    LoopOpen(usize),
    /// Jump to the matching open, held by index, when the current cell is not zero.
    LoopClose(usize),
    /// Store the given value in the current cell.
    SetCell(i8),
    /// Shift the data pointer by the given step until it rests on a zero cell.
    SearchZeroCell(isize),
    /// Hand the current cell to the channel as a character.
    Print,
    /// Fetch a character from the channel into the current cell.
    Read,
    /// Stop.
    End,
}

/// How an operation changes the nesting depth of loops: an open adds one, a
/// close takes one away, anything else leaves it.
pub open spec fn nesting_step(op: Ops) -> int {
    match op {
        Ops::LoopOpen(_) => 1,
        Ops::LoopClose(_) => -1,
        _ => 0,
    }
}

/// The nesting depth after the whole of `ops`.
pub open spec fn nesting(ops: Seq<Ops>) -> int
    decreases ops.len(),
{
    if ops.len() == 0 {
        0
    } else {
        nesting(ops.drop_last()) + nesting_step(ops.last())
    }
}

/// Whether some prefix of `ops` closes a loop that was never opened.
pub open spec fn underflows(ops: Seq<Ops>) -> bool
    decreases ops.len(),
{
    ops.len() > 0 && (underflows(ops.drop_last()) || nesting(ops) < 0)
}

/// Whether the operation at `i`, if it is a loop bracket, holds the index of
/// its partner: an open that of a later close, a close that of an earlier
/// open, and the partner holds `i` in turn.
pub open spec fn partnered(ops: Seq<Ops>, i: int) -> bool {
    match ops[i] {
        Ops::LoopOpen(t) => i < t < ops.len() && ops[t as int] == Ops::LoopClose(i as usize),
        Ops::LoopClose(t) => t < i && ops[t as int] == Ops::LoopOpen(i as usize),
        _ => true,
    }
}

/// Whether the close at `t` is the one that ends the loop opened at `i`: it
/// is the first place behind the open where the depth is back to what it was
/// before the open.
pub open spec fn encloses(ops: Seq<Ops>, i: int, t: int) -> bool {
    &&& 0 <= i < t < ops.len()
    &&& nesting(ops.take(t + 1)) == nesting(ops.take(i))
    &&& forall|k: int| i < k <= t ==> #[trigger] nesting(ops.take(k)) > nesting(ops.take(i))
}

/// Whether the operation at `i`, if it is an open, holds the index of the
/// close that ends its loop.
pub open spec fn nested_at(ops: Seq<Ops>, i: int) -> bool {
    match ops[i] {
        Ops::LoopOpen(t) => encloses(ops, i, t as int),
        _ => true,
    }
}

/// Whether every open of `ops` holds the index of the close that ends its
/// loop.
pub open spec fn properly_nested(ops: Seq<Ops>) -> bool {
    forall|i: int| 0 <= i < ops.len() ==> #[trigger] nested_at(ops, i)
}

/// A program as the virtual machine expects it: it ends with `End`, which
/// stands nowhere else, and every loop bracket holds the index of its partner,
/// which holds its index in turn.
pub open spec fn well_formed(ops: Seq<Ops>) -> bool {
    &&& ops.len() > 0
    &&& ops.last() == Ops::End
    &&& forall|i: int| 0 <= i < ops.len() - 1 ==> #[trigger] ops[i] != Ops::End
    &&& forall|i: int| 0 <= i < ops.len() ==> #[trigger] partnered(ops, i)
}

/// Whether `ops` is a program as the virtual machine expects it.
pub fn is_well_formed(ops: &[Ops]) -> (b: bool)
    ensures
        b == well_formed(ops@),
{
    let n = ops.len();
    if n == 0 {
        return false;
    }
    if ops[n - 1] != Ops::End {
        return false;
    }
    let mut i: usize = 0;
    while i < n
        invariant
            0 <= i <= n,
            n == ops@.len(),
            ops@.last() == Ops::End,
            forall|k: int| 0 <= k < i && k < n - 1 ==> #[trigger] ops@[k] != Ops::End,
            forall|k: int| 0 <= k < i ==> #[trigger] partnered(ops@, k),
        decreases n - i,
    {
        let ok = match ops[i] {
            Ops::End => i == n - 1,
            Ops::LoopOpen(t) => i < t && t < n && ops[t] == Ops::LoopClose(i),
            Ops::LoopClose(t) => t < i && ops[t] == Ops::LoopOpen(i),
            _ => true,
        };
        if !ok {
            assert(!partnered(ops@, i as int) || (i < n - 1 && ops@[i as int] == Ops::End));
            return false;
        }
        i += 1;
    }
    true
}

/// What one more operation does to the nesting: the depth moves by its step,
/// and a close without an open is there if it was there before or the depth
/// is now negative. Without such a close the depth is not negative.
pub proof fn lemma_nesting_push(ops: Seq<Ops>, op: Ops)
    ensures
        nesting(ops.push(op)) == nesting(ops) + nesting_step(op),
        underflows(ops.push(op)) == (underflows(ops) || nesting(ops.push(op)) < 0),
        !underflows(ops) ==> nesting(ops) >= 0,
{
    assert(ops.push(op).drop_last() =~= ops);
}

/// Two sequences whose operations are brackets of the same kind at the same
/// places have the same depth at every place.
pub proof fn lemma_same_nesting(a: Seq<Ops>, b: Seq<Ops>, n: int)
    requires
        0 <= n <= a.len(),
        n <= b.len(),
        forall|k: int| 0 <= k < n ==> nesting_step(#[trigger] a[k]) == nesting_step(b[k]),
    ensures
        nesting(a.take(n)) == nesting(b.take(n)),
    decreases n,
{
    if n > 0 {
        lemma_same_nesting(a, b, n - 1);
        assert(a.take(n).drop_last() =~= a.take(n - 1));
        assert(b.take(n).drop_last() =~= b.take(n - 1));
    }
}

/// A prefix that underflows makes the whole sequence underflow.
pub proof fn lemma_underflows_prefix(ops: Seq<Ops>, n: int)
    requires
        0 <= n <= ops.len(),
        underflows(ops.take(n)),
    ensures
        underflows(ops),
    decreases ops.len() - n,
{
    if n < ops.len() {
        assert(ops.take(n + 1).drop_last() =~= ops.take(n));
        lemma_underflows_prefix(ops, n + 1);
    } else {
        assert(ops.take(n) =~= ops);
    }
}

} // verus!
