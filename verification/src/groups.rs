use vstd::prelude::*;
use crate::ops::Ops;
use crate::compiler::{
    absorb, flushed, fresh, lemma_scan_brackets, optimized, scan, shifted, token, tokens,
};

verus! {

/// The sum of the steps of a sequence of moves.
pub open spec fn move_sum(g: Seq<Ops>) -> int
    decreases g.len(),
{
    if g.len() == 0 {
        0
    } else {
        move_sum(g.drop_last()) + (match g.last() {
            Ops::Move(n) => n as int,
            _ => 0,
        })
    }
}

/// The wrapped sum of the deltas of a sequence of cell changes.
pub open spec fn mod_sum(g: Seq<Ops>) -> i8
    decreases g.len(),
{
    if g.len() == 0 {
        0i8
    } else {
        mod_sum(g.drop_last()).wrapping_add(
            match g.last() {
                Ops::Mod(n) => n,
                _ => 0i8,
            },
        )
    }
}

/// Whether `g` holds moves only.
pub open spec fn all_moves(g: Seq<Ops>) -> bool {
    forall|i: int| 0 <= i < g.len() ==> (#[trigger] g[i]) is Move
}

/// Whether `g` holds cell changes only.
pub open spec fn all_mods(g: Seq<Ops>) -> bool {
    forall|i: int| 0 <= i < g.len() ==> (#[trigger] g[i]) is Mod
}

/// Whether `g` is a loop around cell changes that sum to -1, its close at
/// `mid`, with cell changes behind it that sum to `v`.
pub open spec fn clear_form(g: Seq<Ops>, mid: int, v: i8) -> bool {
    &&& 1 < mid < g.len()
    &&& g[0] == Ops::LoopOpen(0)
    &&& all_mods(g.subrange(1, mid))
    &&& mod_sum(g.subrange(1, mid)) == -1i8
    &&& g[mid] == Ops::LoopClose(0)
    &&& all_mods(g.subrange(mid + 1, g.len() as int))
    &&& mod_sum(g.subrange(mid + 1, g.len() as int)) == v
}

/// Whether `g` is a loop around cell changes that sum to -1 with cell changes
/// behind it that sum to `v`.
pub open spec fn clears(g: Seq<Ops>, v: i8) -> bool {
    exists|mid: int| #[trigger] clear_form(g, mid, v)
}

/// Whether the commands `g` are what the optimiser makes the one operation
/// `op` of.
pub open spec fn stands_for(g: Seq<Ops>, op: Ops) -> bool {
    match op {
        Ops::Move(n) => g.len() > 0 && all_moves(g) && move_sum(g) == n,
        Ops::Mod(n) => g.len() > 0 && all_mods(g) && mod_sum(g) == n,
        Ops::SetCell(v) => clears(g, v),
        Ops::SearchZeroCell(n) => {
            &&& g.len() > 2
            &&& g[0] == Ops::LoopOpen(0)
            &&& g.last() == Ops::LoopClose(0)
            &&& all_moves(g.subrange(1, g.len() - 1))
            &&& move_sum(g.subrange(1, g.len() - 1)) == n
        },
        _ => g.len() == 1 && g[0] == op,
    }
}

/// Where in the commands of `src` each operation of the optimiser begins.
pub open spec fn cuts(src: Seq<char>) -> Seq<int>
    decreases src.len(),
{
    if src.len() == 0 {
        Seq::empty()
    } else {
        let prev = src.drop_last();
        let w = scan(prev);
        match token(src.last()) {
            None => cuts(prev),
            Some(cur) => if absorb(w, cur) == shifted(w, cur) {
                cuts(prev).push(tokens(prev).len() as int)
            } else if absorb(w, cur).prepre == w.prepre {
                cuts(prev)
            } else {
                cuts(prev).drop_last()
            },
        }
    }
}

/// Where the commands of the operation at `q` end: where the next operation
/// begins, or behind the last command.
pub open spec fn cut_end(c: Seq<int>, total: int, q: int) -> int {
    if q + 1 < c.len() {
        c[q + 1]
    } else {
        total
    }
}

/// Whether the commands of the operation at `q` are at least one, and
/// among the first `total`.
pub open spec fn cut_ok(c: Seq<int>, total: int, q: int) -> bool {
    0 <= c[q] < cut_end(c, total, q) <= total
}

/// Whether the cuts `c` part the commands `t` into one group for each
/// operation of `v`, in order, each group being what its operation was made
/// of.
pub open spec fn parted(t: Seq<Ops>, v: Seq<Ops>, c: Seq<int>) -> bool {
    &&& c.len() == v.len()
    &&& v.len() > 0 ==> c[0] == 0
    &&& v.len() == 0 ==> t.len() == 0
    &&& forall|q: int| 0 <= q < c.len() ==> #[trigger] cut_ok(c, t.len() as int, q)
    &&& forall|q: int|
        0 <= q < c.len() ==> stands_for(
            t.subrange(c[q], cut_end(c, t.len() as int, q)),
            #[trigger] v[q],
        )
}

/// A command alone is what the optimiser makes the same operation of.
pub proof fn lemma_group_single(cur: Ops)
    requires
        fresh(cur),
        !(cur is SetCell),
        !(cur is SearchZeroCell),
    ensures
        stands_for(seq![cur], cur),
{
    let g = seq![cur];
    assert(g.drop_last() =~= Seq::<Ops>::empty());
    assert(move_sum(g.drop_last()) == 0);
    assert(mod_sum(g.drop_last()) == 0i8);
}

/// A command that the optimiser merges into its newest operation joins the
/// commands of that operation.
pub proof fn lemma_group_merge(old_group: Seq<Ops>, last: Ops, cur: Ops)
    requires
        stands_for(old_group, last),
    ensures
        last is Move && cur is Move && isize::MIN <= last->Move_0 + cur->Move_0 <= isize::MAX
            ==> stands_for(
            old_group.push(cur),
            Ops::Move((last->Move_0 + cur->Move_0) as isize),
        ),
        last is Mod && cur is Mod ==> stands_for(
            old_group.push(cur),
            Ops::Mod(last->Mod_0.wrapping_add(cur->Mod_0)),
        ),
        last is SetCell && cur is Mod ==> stands_for(
            old_group.push(cur),
            Ops::SetCell(last->SetCell_0.wrapping_add(cur->Mod_0)),
        ),
{
    let group = old_group.push(cur);
    assert(group.drop_last() =~= old_group);
    if last is SetCell && cur is Mod {
        let z = last->SetCell_0;
        let mid = choose|mid: int| #[trigger] clear_form(old_group, mid, z);
        let tail0 = old_group.subrange(mid + 1, old_group.len() as int);
        let tail = group.subrange(mid + 1, group.len() as int);
        assert(tail =~= tail0.push(cur));
        assert(tail.drop_last() =~= tail0);
        assert(group.subrange(1, mid) =~= old_group.subrange(1, mid));
        let v = z.wrapping_add(cur->Mod_0);
        assert(clear_form(group, mid, v));
        assert(clears(group, v));
        assert(stands_for(group, Ops::SetCell(v)));
    }
}

/// An open, the commands of one decrement or of one move, and a close are
/// what the optimiser makes "set to zero" or a search of.
pub proof fn lemma_group_loop(body_group: Seq<Ops>, body: Ops)
    requires
        stands_for(body_group, body),
    ensures
        body == Ops::Mod(-1i8) ==> stands_for(
            seq![Ops::LoopOpen(0)] + body_group + seq![Ops::LoopClose(0)],
            Ops::SetCell(0i8),
        ),
        body is Move ==> stands_for(
            seq![Ops::LoopOpen(0)] + body_group + seq![Ops::LoopClose(0)],
            Ops::SearchZeroCell(body->Move_0),
        ),
{
    let group = seq![Ops::LoopOpen(0)] + body_group + seq![Ops::LoopClose(0)];
    let at = body_group.len() as int + 1;
    assert(group.subrange(1, at) =~= body_group);
    assert(group.subrange(1, group.len() - 1) =~= body_group);
    assert(group.subrange(at + 1, group.len() as int) =~= Seq::<Ops>::empty());
    if body == Ops::Mod(-1i8) {
        assert(mod_sum(group.subrange(at + 1, group.len() as int)) == 0i8);
        assert(clear_form(group, at, 0i8));
        assert(clears(group, 0i8));
        assert(stands_for(group, Ops::SetCell(0i8)));
    }
}

/// One more command behind the commands leaves the groups before `k` as they
/// are.
pub proof fn lemma_groups_stay(
    t0: Seq<Ops>,
    cur: Ops,
    f: Seq<Ops>,
    c0: Seq<int>,
    g: Seq<Ops>,
    c: Seq<int>,
    k: int,
)
    requires
        parted(t0, f, c0),
        0 <= k <= c0.len(),
        k < c.len() == g.len(),
        forall|q: int| 0 <= q < k ==> g[q] == f[q] && c[q] == c0[q],
        c[k] == (if k < c0.len() {
            c0[k]
        } else {
            t0.len() as int
        }),
    ensures
        forall|q: int| 0 <= q < k ==> #[trigger] cut_ok(c, t0.len() as int + 1, q),
        forall|q: int|
            0 <= q < k ==> stands_for(
                t0.push(cur).subrange(c[q], cut_end(c, t0.len() as int + 1, q)),
                #[trigger] g[q],
            ),
{
    let t = t0.push(cur);
    let n0 = t0.len() as int;
    assert forall|q: int| 0 <= q < k implies #[trigger] cut_ok(c, n0 + 1, q) by {
        assert(cut_ok(c0, n0, q));
    }
    assert forall|q: int| 0 <= q < k implies stands_for(
        t.subrange(c[q], cut_end(c, n0 + 1, q)),
        #[trigger] g[q],
    ) by {
        assert(cut_ok(c0, n0, q));
        assert(cut_end(c, n0 + 1, q) == cut_end(c0, n0, q));
        assert(t.subrange(c[q], cut_end(c, n0 + 1, q)) =~= t0.subrange(
            c0[q],
            cut_end(c0, n0, q),
        ));
        assert(stands_for(t0.subrange(c0[q], cut_end(c0, n0, q)), f[q]));
    }
}

/// The optimiser parts the commands of the source into groups, one for each
/// of its operations: a move stands for moves with its sum, a cell change for
/// cell changes with its wrapped sum, a "set" for a loop around cell changes
/// that sum to -1 and the cell changes behind it, a search for a loop around
/// moves, and any other operation for itself.
pub proof fn law_operations_stand_for_commands(src: Seq<char>)
    ensures
        parted(tokens(src), optimized(src), cuts(src)),
    decreases src.len(),
{
    if src.len() > 0 {
        let prev = src.drop_last();
        law_operations_stand_for_commands(prev);
        match token(src.last()) {
            None => {},
            Some(cur) => {
                let w = scan(prev);
                let t0 = tokens(prev);
                let t = tokens(src);
                let f = flushed(w);
                let g = flushed(absorb(w, cur));
                let c0 = cuts(prev);
                let c = cuts(src);
                let n0 = t0.len() as int;
                assert(t == t0.push(cur));
                if absorb(w, cur) == shifted(w, cur) {
                    assert(g =~= f.push(cur));
                    lemma_groups_stay(t0, cur, f, c0, g, c, c0.len() as int);
                    lemma_group_single(cur);
                    assert(t.subrange(n0, n0 + 1) =~= seq![cur]);
                } else if absorb(w, cur).prepre == w.prepre {
                    let last = w.pre->0;
                    let older = f.drop_last();
                    assert(f =~= older.push(last));
                    assert(g =~= older.push(absorb(w, cur).pre->0));
                    let top = c0.len() - 1;
                    assert(cut_ok(c0, n0, top));
                    lemma_groups_stay(t0, cur, f, c0, g, c, top);
                    let old_group = t0.subrange(c0[top], n0);
                    assert(stands_for(old_group, f[top]));
                    lemma_group_merge(old_group, last, cur);
                    assert(t.subrange(c0[top], n0 + 1) =~= old_group.push(cur));
                } else {
                    let open = w.prepre->0;
                    let body = w.pre->0;
                    let e = w.emitted;
                    assert(f =~= e.push(open).push(body));
                    assert(g =~= e.push(absorb(w, cur).pre->0));
                    let top = c0.len() - 1;
                    assert(cut_ok(c0, n0, top));
                    assert(cut_ok(c0, n0, top - 1));
                    lemma_groups_stay(t0, cur, f, c0, g, c, top - 1);
                    let lo = c0[top - 1];
                    let mid = c0[top];
                    assert(stands_for(t0.subrange(lo, mid), f[top - 1]));
                    assert(stands_for(t0.subrange(mid, n0), f[top]));
                    let body_group = t0.subrange(mid, n0);
                    lemma_group_loop(body_group, body);
                    lemma_scan_brackets(prev);
                    assert(fresh(f[top - 1]));
                    assert(fresh(cur));
                    assert(t0.subrange(lo, mid).len() == 1);
                    assert(t0.subrange(lo, mid)[0] == t0[lo]);
                    assert(t.subrange(lo, n0 + 1) =~= seq![Ops::LoopOpen(0)] + body_group
                        + seq![Ops::LoopClose(0)]);
                }
            },
        }
    }
}

} // verus!
