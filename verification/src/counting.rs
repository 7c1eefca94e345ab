//! Counting the entries of a sequence, or of a grid of rows, that satisfy
//! a predicate. The board's bookkeeping (how many cells carry a color, how
//! many of them are painted) is stated with these counts.

use vstd::prelude::*;

verus! {

/// How many entries of `s` satisfy `p`.
pub open spec fn count_matching<T>(s: Seq<T>, p: spec_fn(T) -> bool) -> int
    decreases s.len(),
{
    if s.len() == 0 {
        0
    } else {
        count_matching(s.drop_last(), p) + if p(s.last()) {
            1int
        } else {
            0int
        }
    }
}

/// How many entries of the rows of `g` satisfy `p`.
pub open spec fn count_matching_grid<T>(g: Seq<Vec<T>>, p: spec_fn(T) -> bool) -> int
    decreases g.len(),
{
    if g.len() == 0 {
        0
    } else {
        count_matching_grid(g.drop_last(), p) + count_matching(g.last()@, p)
    }
}

pub proof fn lemma_count_matching_bounds<T>(s: Seq<T>, p: spec_fn(T) -> bool)
    ensures
        0 <= count_matching(s, p) <= s.len(),
    decreases s.len(),
{
    if s.len() > 0 {
        lemma_count_matching_bounds(s.drop_last(), p);
    }
}

pub proof fn lemma_count_matching_push<T>(s: Seq<T>, p: spec_fn(T) -> bool, x: T)
    ensures
        count_matching(s.push(x), p) == count_matching(s, p) + if p(x) {
            1int
        } else {
            0int
        },
{
    assert(s.push(x).drop_last() =~= s);
    assert(s.push(x).last() == x);
}

/// A count is zero when no entry satisfies the predicate.
pub proof fn lemma_count_matching_zero<T>(s: Seq<T>, p: spec_fn(T) -> bool)
    requires
        forall|i: int| 0 <= i < s.len() ==> !p(#[trigger] s[i]),
    ensures
        count_matching(s, p) == 0,
    decreases s.len(),
{
    if s.len() > 0 {
        assert(!p(s[s.len() - 1]));
        assert forall|i: int| 0 <= i < s.drop_last().len() implies !p(
            #[trigger] s.drop_last()[i],
        ) by {
            assert(s.drop_last()[i] == s[i]);
        }
        lemma_count_matching_zero(s.drop_last(), p);
    }
}

/// A positive count names a witness.
pub proof fn lemma_count_matching_pos<T>(s: Seq<T>, p: spec_fn(T) -> bool)
    requires
        count_matching(s, p) > 0,
    ensures
        exists|i: int| 0 <= i < s.len() && p(#[trigger] s[i]),
    decreases s.len(),
{
    if s.len() > 0 {
        if p(s.last()) {
            assert(p(s[s.len() - 1]));
        } else {
            lemma_count_matching_pos(s.drop_last(), p);
            let i = choose|i: int| 0 <= i < s.drop_last().len() && p(#[trigger] s.drop_last()[i]);
            assert(s.drop_last()[i] == s[i]);
            assert(p(s[i]));
        }
    }
}

/// An entry satisfying the predicate makes the count positive.
pub proof fn lemma_count_matching_at<T>(s: Seq<T>, p: spec_fn(T) -> bool, i: int)
    requires
        0 <= i < s.len(),
        p(s[i]),
    ensures
        count_matching(s, p) >= 1,
    decreases s.len(),
{
    if i == s.len() - 1 {
        lemma_count_matching_bounds(s.drop_last(), p);
    } else {
        assert(s.drop_last()[i] == s[i]);
        lemma_count_matching_at(s.drop_last(), p, i);
    }
}

/// The position of the first entry equal to `x`, or the length when
/// there is none.
pub open spec fn first_occurrence<T>(s: Seq<T>, x: T) -> int
    decreases s.len(),
{
    if s.len() == 0 {
        0
    } else if s[0] == x {
        0
    } else {
        1 + first_occurrence(s.drop_first(), x)
    }
}

pub proof fn lemma_first_occurrence<T>(s: Seq<T>, x: T)
    ensures
        0 <= first_occurrence(s, x) <= s.len(),
        first_occurrence(s, x) < s.len() ==> s[first_occurrence(s, x)] == x,
        forall|k: int| 0 <= k < first_occurrence(s, x) ==> s[k] != x,
    decreases s.len(),
{
    if s.len() > 0 && s[0] != x {
        lemma_first_occurrence(s.drop_first(), x);
        let f = first_occurrence(s, x);
        assert(f == 1 + first_occurrence(s.drop_first(), x));
        if f < s.len() {
            assert(s.drop_first()[f - 1] == s[f]);
        }
        assert forall|k: int| 0 <= k < f implies s[k] != x by {
            if k > 0 {
                assert(s.drop_first()[k - 1] == s[k]);
            }
        }
    }
}

/// Counts agree on sequences whose entries satisfy the predicates at the
/// same positions.
pub proof fn lemma_count_matching_pointwise<A, B>(
    s: Seq<A>,
    t: Seq<B>,
    p: spec_fn(A) -> bool,
    q: spec_fn(B) -> bool,
)
    requires
        s.len() == t.len(),
        forall|i: int| 0 <= i < s.len() ==> (p(#[trigger] s[i]) <==> q(#[trigger] t[i])),
    ensures
        count_matching(s, p) == count_matching(t, q),
    decreases s.len(),
{
    if s.len() > 0 {
        assert forall|i: int|
            0 <= i < s.drop_last().len() implies (p(#[trigger] s.drop_last()[i]) <==> q(
            #[trigger] t.drop_last()[i],
        )) by {
            assert(s.drop_last()[i] == s[i]);
            assert(t.drop_last()[i] == t[i]);
        }
        lemma_count_matching_pointwise(s.drop_last(), t.drop_last(), p, q);
        assert(p(s[s.len() - 1]) <==> q(t[t.len() - 1]));
    }
}

/// How a count moves when one entry is replaced.
pub proof fn lemma_count_matching_update<T>(s: Seq<T>, i: int, x: T, p: spec_fn(T) -> bool)
    requires
        0 <= i < s.len(),
    ensures
        count_matching(s.update(i, x), p) == count_matching(s, p) - (if p(s[i]) {
            1int
        } else {
            0int
        }) + (if p(x) {
            1int
        } else {
            0int
        }),
    decreases s.len(),
{
    if i == s.len() - 1 {
        assert(s.update(i, x).drop_last() =~= s.drop_last());
        assert(s.update(i, x).last() == x);
    } else {
        assert(s.update(i, x).drop_last() =~= s.drop_last().update(i, x));
        assert(s.update(i, x).last() == s.last());
        assert(s.drop_last()[i] == s[i]);
        lemma_count_matching_update(s.drop_last(), i, x, p);
    }
}

/// A weaker predicate never counts fewer entries.
pub proof fn lemma_count_matching_le<T>(s: Seq<T>, p: spec_fn(T) -> bool, q: spec_fn(T) -> bool)
    requires
        forall|i: int| 0 <= i < s.len() && p(#[trigger] s[i]) ==> q(s[i]),
    ensures
        count_matching(s, p) <= count_matching(s, q),
    decreases s.len(),
{
    if s.len() > 0 {
        assert forall|i: int|
            0 <= i < s.drop_last().len() && p(#[trigger] s.drop_last()[i]) implies q(
            s.drop_last()[i],
        ) by {
            assert(s.drop_last()[i] == s[i]);
        }
        lemma_count_matching_le(s.drop_last(), p, q);
        assert(p(s[s.len() - 1]) ==> q(s[s.len() - 1]));
    }
}

/// Strictly fewer, when some entry satisfies only the weaker predicate.
pub proof fn lemma_count_matching_lt<T>(
    s: Seq<T>,
    p: spec_fn(T) -> bool,
    q: spec_fn(T) -> bool,
    w: int,
)
    requires
        forall|i: int| 0 <= i < s.len() && p(#[trigger] s[i]) ==> q(s[i]),
        0 <= w < s.len(),
        q(s[w]),
        !p(s[w]),
    ensures
        count_matching(s, p) < count_matching(s, q),
    decreases s.len(),
{
    assert forall|i: int|
        0 <= i < s.drop_last().len() && p(#[trigger] s.drop_last()[i]) implies q(
        s.drop_last()[i],
    ) by {
        assert(s.drop_last()[i] == s[i]);
    }
    if w == s.len() - 1 {
        lemma_count_matching_le(s.drop_last(), p, q);
        assert(q(s.last()) && !p(s.last()));
    } else {
        assert(s.drop_last()[w] == s[w]);
        lemma_count_matching_lt(s.drop_last(), p, q, w);
        assert(p(s[s.len() - 1]) ==> q(s[s.len() - 1]));
    }
}

pub proof fn lemma_count_grid_push<T>(g: Seq<Vec<T>>, row: Vec<T>, p: spec_fn(T) -> bool)
    ensures
        count_matching_grid(g.push(row), p) == count_matching_grid(g, p) + count_matching(
            row@,
            p,
        ),
{
    assert(g.push(row).drop_last() =~= g);
    assert(g.push(row).last() == row);
}

/// How a grid count moves when one row is replaced.
pub proof fn lemma_count_grid_update<T>(g: Seq<Vec<T>>, i: int, row: Vec<T>, p: spec_fn(T) -> bool)
    requires
        0 <= i < g.len(),
    ensures
        count_matching_grid(g.update(i, row), p) == count_matching_grid(g, p) - count_matching(
            g[i]@,
            p,
        ) + count_matching(row@, p),
    decreases g.len(),
{
    if i == g.len() - 1 {
        assert(g.update(i, row).drop_last() =~= g.drop_last());
        assert(g.update(i, row).last() == row);
    } else {
        assert(g.update(i, row).drop_last() =~= g.drop_last().update(i, row));
        assert(g.update(i, row).last() == g.last());
        assert(g.drop_last()[i] == g[i]);
        lemma_count_grid_update(g.drop_last(), i, row, p);
    }
}

/// Grid counts agree on grids whose entries satisfy the predicates at the
/// same positions.
pub proof fn lemma_count_grid_pointwise<A, B>(
    g: Seq<Vec<A>>,
    h: Seq<Vec<B>>,
    p: spec_fn(A) -> bool,
    q: spec_fn(B) -> bool,
)
    requires
        g.len() == h.len(),
        forall|r: int| 0 <= r < g.len() ==> (#[trigger] g[r])@.len() == (#[trigger] h[r])@.len(),
        forall|r: int, c: int|
            0 <= r < g.len() && 0 <= c < g[r]@.len() ==> (p(#[trigger] g[r]@[c]) <==> q(
                #[trigger] h[r]@[c],
            )),
    ensures
        count_matching_grid(g, p) == count_matching_grid(h, q),
    decreases g.len(),
{
    if g.len() > 0 {
        let r = g.len() - 1;
        assert forall|i: int|
            0 <= i < g.drop_last().len() implies (#[trigger] g.drop_last()[i])@.len() == (
        #[trigger] h.drop_last()[i])@.len() by {
            assert(g.drop_last()[i] == g[i]);
            assert(h.drop_last()[i] == h[i]);
        }
        assert forall|i: int, c: int|
            0 <= i < g.drop_last().len() && 0 <= c < g.drop_last()[i]@.len() implies (p(
            #[trigger] g.drop_last()[i]@[c],
        ) <==> q(#[trigger] h.drop_last()[i]@[c])) by {
            assert(g.drop_last()[i] == g[i]);
            assert(h.drop_last()[i] == h[i]);
        }
        lemma_count_grid_pointwise(g.drop_last(), h.drop_last(), p, q);
        assert(g.last() == g[r] && h.last() == h[r]);
        lemma_count_matching_pointwise(g[r]@, h[r]@, p, q);
    }
}

/// A grid count is zero when no entry satisfies the predicate.
pub proof fn lemma_count_grid_zero<T>(g: Seq<Vec<T>>, p: spec_fn(T) -> bool)
    requires
        forall|r: int, c: int| 0 <= r < g.len() && 0 <= c < g[r]@.len() ==> !p(
            #[trigger] g[r]@[c],
        ),
    ensures
        count_matching_grid(g, p) == 0,
    decreases g.len(),
{
    if g.len() > 0 {
        let r = g.len() - 1;
        assert forall|i: int, c: int|
            0 <= i < g.drop_last().len() && 0 <= c < g.drop_last()[i]@.len() implies !p(
            #[trigger] g.drop_last()[i]@[c],
        ) by {
            assert(g.drop_last()[i] == g[i]);
        }
        lemma_count_grid_zero(g.drop_last(), p);
        assert forall|c: int| 0 <= c < g.last()@.len() implies !p(#[trigger] g.last()@[c]) by {
            assert(g.last() == g[r]);
        }
        lemma_count_matching_zero(g.last()@, p);
    }
}

pub proof fn lemma_count_grid_le<T>(g: Seq<Vec<T>>, p: spec_fn(T) -> bool, q: spec_fn(T) -> bool)
    requires
        forall|r: int, c: int| 0 <= r < g.len() && 0 <= c < g[r]@.len() && p(
            #[trigger] g[r]@[c],
        ) ==> q(g[r]@[c]),
    ensures
        count_matching_grid(g, p) <= count_matching_grid(g, q),
    decreases g.len(),
{
    if g.len() > 0 {
        let r = g.len() - 1;
        assert forall|i: int, c: int|
            0 <= i < g.drop_last().len() && 0 <= c < g.drop_last()[i]@.len() && p(
            #[trigger] g.drop_last()[i]@[c],
        ) implies q(g.drop_last()[i]@[c]) by {
            assert(g.drop_last()[i] == g[i]);
        }
        lemma_count_grid_le(g.drop_last(), p, q);
        assert forall|c: int|
            0 <= c < g.last()@.len() && p(#[trigger] g.last()@[c]) implies q(g.last()@[c]) by {
            assert(g.last() == g[r]);
        }
        lemma_count_matching_le(g.last()@, p, q);
    }
}

/// Strictly fewer over a grid, when the cell at `(wr, wc)` satisfies only
/// the weaker predicate.
pub proof fn lemma_count_grid_lt<T>(
    g: Seq<Vec<T>>,
    p: spec_fn(T) -> bool,
    q: spec_fn(T) -> bool,
    wr: int,
    wc: int,
)
    requires
        forall|r: int, c: int| 0 <= r < g.len() && 0 <= c < g[r]@.len() && p(
            #[trigger] g[r]@[c],
        ) ==> q(g[r]@[c]),
        0 <= wr < g.len(),
        0 <= wc < g[wr]@.len(),
        q(g[wr]@[wc]),
        !p(g[wr]@[wc]),
    ensures
        count_matching_grid(g, p) < count_matching_grid(g, q),
    decreases g.len(),
{
    let r = g.len() - 1;
    assert forall|i: int, c: int|
        0 <= i < g.drop_last().len() && 0 <= c < g.drop_last()[i]@.len() && p(
        #[trigger] g.drop_last()[i]@[c],
    ) implies q(g.drop_last()[i]@[c]) by {
        assert(g.drop_last()[i] == g[i]);
    }
    assert forall|c: int|
        0 <= c < g.last()@.len() && p(#[trigger] g.last()@[c]) implies q(g.last()@[c]) by {
        assert(g.last() == g[r]);
    }
    if wr == r {
        lemma_count_grid_le(g.drop_last(), p, q);
        assert(g.last() == g[wr]);
        lemma_count_matching_lt(g.last()@, p, q, wc);
    } else {
        assert(g.drop_last()[wr] == g[wr]);
        lemma_count_grid_lt(g.drop_last(), p, q, wr, wc);
        lemma_count_matching_le(g.last()@, p, q);
    }
}

} // verus!
