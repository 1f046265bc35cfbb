use vstd::prelude::*;
use crate::ops::{encloses, lemma_nesting_push, lemma_same_nesting, nesting, nesting_step, underflows, Ops};
use crate::compiler::{
    bracket_depth, closes_unopened, fresh, same_shape, token, tokens, unlinked,
};
use crate::groups::{clear_form, cut_end, cut_ok, parted, stands_for};

verus! {

/// The commands of a source have its bracket structure: the same depth at
/// the end, and a close without an open in the one exactly when in the other.
pub proof fn lemma_tokens_brackets(src: Seq<char>)
    ensures
        nesting(tokens(src)) == bracket_depth(src),
        underflows(tokens(src)) == closes_unopened(src),
        unlinked(tokens(src)),
        tokens(src).len() <= src.len(),
    decreases src.len(),
{
    if src.len() > 0 {
        let prev = src.drop_last();
        lemma_tokens_brackets(prev);
        match token(src.last()) {
            Some(op) => {
                lemma_nesting_push(tokens(prev), op);
                assert forall|i: int| 0 <= i < tokens(src).len() implies fresh(
                    #[trigger] tokens(src)[i],
                ) by {
                    if i < tokens(prev).len() {
                        assert(tokens(src)[i] == tokens(prev)[i]);
                    }
                }
            },
            None => {},
        }
    }
}

/// The depth behind `b` operations is the depth behind the first `a` and the
/// depth of those between.
pub proof fn lemma_nesting_split(t: Seq<Ops>, a: int, b: int)
    requires
        0 <= a <= b <= t.len(),
    ensures
        nesting(t.take(b)) == nesting(t.take(a)) + nesting(t.subrange(a, b)),
    decreases b - a,
{
    if a == b {
        assert(t.subrange(a, b) =~= Seq::<Ops>::empty());
    } else {
        lemma_nesting_split(t, a, b - 1);
        assert(t.take(b).drop_last() =~= t.take(b - 1));
        assert(t.subrange(a, b).drop_last() =~= t.subrange(a, b - 1));
    }
}

/// Operations that are no brackets leave the depth as it is.
pub proof fn lemma_nesting_flat(g: Seq<Ops>, a: int, b: int)
    requires
        0 <= a <= b <= g.len(),
        forall|j: int| a <= j < b ==> nesting_step(#[trigger] g[j]) == 0,
    ensures
        nesting(g.take(b)) == nesting(g.take(a)),
    decreases b - a,
{
    if a < b {
        lemma_nesting_flat(g, a, b - 1);
        assert(g.take(b).drop_last() =~= g.take(b - 1));
    }
}

/// The commands of one operation change the depth as the operation does, and
/// the depth inside them is never below the depth before them.
pub proof fn lemma_group_depth(g: Seq<Ops>, op: Ops, i: int)
    requires
        stands_for(g, op),
        0 <= i <= g.len(),
    ensures
        nesting(g) == nesting_step(op),
        i < g.len() ==> nesting(g.take(i)) >= 0,
{
    let n = g.len() as int;
    assert(g.take(n) =~= g);
    assert(g.take(0) =~= Seq::<Ops>::empty());
    assert(nesting(g.take(0)) == 0);
    if n > 0 {
        assert(g.take(1) =~= g.take(0).push(g[0]));
        lemma_nesting_push(g.take(0), g[0]);
    }
    match op {
        Ops::Move(_) => {
            assert forall|j: int| 0 <= j < n implies nesting_step(#[trigger] g[j]) == 0 by {
                assert(g[j] is Move);
            }
            lemma_nesting_flat(g, 0, i);
            lemma_nesting_flat(g, 0, n);
            assert(nesting(g) == 0);
        },
        Ops::Mod(_) => {
            assert forall|j: int| 0 <= j < n implies nesting_step(#[trigger] g[j]) == 0 by {
                assert(g[j] is Mod);
            }
            lemma_nesting_flat(g, 0, i);
            lemma_nesting_flat(g, 0, n);
            assert(nesting(g) == 0);
        },
        Ops::SetCell(v) => {
            let mid = choose|mid: int| #[trigger] clear_form(g, mid, v);
            assert forall|j: int| 1 <= j < mid implies nesting_step(#[trigger] g[j]) == 0 by {
                assert(g.subrange(1, mid)[j - 1] == g[j]);
            }
            assert forall|j: int| mid + 1 <= j < n implies nesting_step(#[trigger] g[j]) == 0 by {
                assert(g.subrange(mid + 1, n)[j - mid - 1] == g[j]);
            }
            assert(g.take(mid + 1) =~= g.take(mid).push(g[mid]));
            lemma_nesting_push(g.take(mid), g[mid]);
            lemma_nesting_flat(g, 1, mid);
            lemma_nesting_flat(g, mid + 1, n);
            if 1 <= i <= mid {
                lemma_nesting_flat(g, 1, i);
            } else if i > mid {
                lemma_nesting_flat(g, mid + 1, i);
            }
            assert(nesting(g.take(1)) == 1);
            assert(nesting(g.take(mid)) == 1);
            assert(nesting(g.take(mid + 1)) == 0);
            assert(nesting(g) == 0);
        },
        Ops::SearchZeroCell(_) => {
            assert forall|j: int| 1 <= j < n - 1 implies nesting_step(#[trigger] g[j]) == 0 by {
                assert(g.subrange(1, n - 1)[j - 1] == g[j]);
            }
            assert(g.take(n) =~= g.take(n - 1).push(g[n - 1]));
            lemma_nesting_push(g.take(n - 1), g[n - 1]);
            lemma_nesting_flat(g, 1, n - 1);
            if 1 <= i < n {
                lemma_nesting_flat(g, 1, i);
            }
            assert(nesting(g.take(1)) == 1);
            assert(nesting(g.take(n - 1)) == 1);
            assert(nesting(g) == 0);
        },
        _ => {
            assert(g.drop_last() =~= Seq::<Ops>::empty());
            assert(g.last() == op);
            assert(nesting(g) == nesting(g.drop_last()) + nesting_step(g.last()));
        },
    }
}

/// Where the operation at `q` begins, or the end of the commands where `q` is
/// behind the last operation.
pub open spec fn cut_at(c: Seq<int>, total: int, q: int) -> int {
    if q < c.len() {
        c[q]
    } else {
        total
    }
}

/// The depth before an operation of the optimiser is the depth before its
/// commands.
pub proof fn lemma_cut_depth(t: Seq<Ops>, v: Seq<Ops>, c: Seq<int>, q: int)
    requires
        parted(t, v, c),
        0 <= q <= v.len(),
    ensures
        0 <= cut_at(c, t.len() as int, q) <= t.len(),
        nesting(t.take(cut_at(c, t.len() as int, q))) == nesting(v.take(q)),
    decreases q,
{
    let n = t.len() as int;
    if q == 0 {
        assert(v.take(0) =~= Seq::<Ops>::empty());
        assert(t.take(0) =~= Seq::<Ops>::empty());
    } else {
        lemma_cut_depth(t, v, c, q - 1);
        let lo = c[q - 1];
        let hi = cut_end(c, n, q - 1);
        assert(cut_ok(c, n, q - 1));
        assert(hi == cut_at(c, n, q));
        lemma_nesting_split(t, lo, hi);
        assert(stands_for(t.subrange(lo, hi), v[q - 1]));
        lemma_group_depth(t.subrange(lo, hi), v[q - 1], 0);
        assert(v.take(q) =~= v.take(q - 1).push(v[q - 1]));
        lemma_nesting_push(v.take(q - 1), v[q - 1]);
    }
}

/// The cuts go up.
pub proof fn lemma_cuts_rise(t: Seq<Ops>, v: Seq<Ops>, c: Seq<int>, a: int, b: int)
    requires
        parted(t, v, c),
        0 <= a <= b <= v.len(),
    ensures
        cut_at(c, t.len() as int, a) <= cut_at(c, t.len() as int, b),
    decreases b - a,
{
    if a < b {
        lemma_cuts_rise(t, v, c, a, b - 1);
        assert(cut_ok(c, t.len() as int, b - 1));
    }
}

/// The operation whose commands hold the command at `k`.
pub proof fn find_group(t: Seq<Ops>, v: Seq<Ops>, c: Seq<int>, k: int, from: int) -> (j: int)
    requires
        parted(t, v, c),
        0 <= k < t.len(),
        0 <= from < c.len(),
        k < cut_end(c, t.len() as int, from),
    ensures
        0 <= j <= from,
        c[j] <= k < cut_end(c, t.len() as int, j),
    decreases from,
{
    if c[from] <= k {
        from
    } else {
        find_group(t, v, c, k, from - 1)
    }
}

/// A close that ends the loop of an open among the operations of the
/// optimiser ends it among the commands too.
pub proof fn lemma_partner_transfer(t: Seq<Ops>, v: Seq<Ops>, c: Seq<int>, q: int, p: int)
    requires
        parted(t, v, c),
        encloses(v, q, p),
        v[q] is LoopOpen,
        v[p] is LoopClose,
    ensures
        encloses(t, c[q], c[p]),
        cut_end(c, t.len() as int, q) == c[q] + 1,
        cut_end(c, t.len() as int, p) == c[p] + 1,
{
    let n = t.len() as int;
    assert(cut_ok(c, n, q));
    assert(cut_ok(c, n, p));
    assert(stands_for(t.subrange(c[q], cut_end(c, n, q)), v[q]));
    assert(stands_for(t.subrange(c[p], cut_end(c, n, p)), v[p]));
    lemma_cut_depth(t, v, c, q);
    lemma_cut_depth(t, v, c, p + 1);
    lemma_cuts_rise(t, v, c, q + 1, p);
    assert forall|k: int| c[q] < k <= c[p] implies #[trigger] nesting(t.take(k)) > nesting(
        t.take(c[q]),
    ) by {
        let j = find_group(t, v, c, k, p);
        if j <= q {
            lemma_cuts_rise(t, v, c, j + 1, q + 1);
        }
        assert(q < j <= p);
        assert(cut_ok(c, n, j));
        lemma_cut_depth(t, v, c, j);
        lemma_nesting_split(t, c[j], k);
        let g = t.subrange(c[j], cut_end(c, n, j));
        assert(stands_for(g, v[j]));
        lemma_group_depth(g, v[j], k - c[j]);
        assert(g.take(k - c[j]) =~= t.subrange(c[j], k));
        assert(nesting(v.take(j)) > nesting(v.take(q)));
    }
}

/// Two sequences with brackets of the same kind at the same places have
/// their loops end at the same places.
pub proof fn lemma_encloses_shape(a: Seq<Ops>, b: Seq<Ops>, i: int, p: int)
    requires
        same_shape(a, b),
        p < b.len(),
        encloses(a, i, p),
    ensures
        encloses(b, i, p),
        encloses(b, i, p) ==> encloses(a, i, p),
{
    lemma_same_nesting(a, b, i);
    lemma_same_nesting(a, b, p + 1);
    assert forall|k: int| i < k <= p implies #[trigger] nesting(b.take(k)) > nesting(b.take(i)) by {
        lemma_same_nesting(a, b, k);
        assert(nesting(a.take(k)) > nesting(a.take(i)));
    }
}

/// A loop ends at one place only.
pub proof fn lemma_encloses_once(t: Seq<Ops>, i: int, p: int, r: int)
    requires
        encloses(t, i, p),
        encloses(t, i, r),
    ensures
        p == r,
{
    if p < r {
        assert(nesting(t.take(p + 1)) > nesting(t.take(i)));
    } else if r < p {
        assert(nesting(t.take(r + 1)) > nesting(t.take(i)));
    }
}

} // verus!
