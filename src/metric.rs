//! Facts about the edit distance and the alignment strings that
//! `align::edit_dist` returns.

use vstd::prelude::*;
use crate::align::{lev, lev_table, lev_prefix, trace, rle, render, cigar_of, decimal, mismatch, lemma_lev_bound};

verus! {

/// How many times `c` occurs in `ops`.
pub open spec fn count_op(ops: Seq<char>, c: char) -> nat
    decreases ops.len(),
{
    if ops.len() == 0 {
        0
    } else {
        count_op(ops.drop_last(), c) + if ops.last() == c { 1nat } else { 0nat }
    }
}

/// The sum of the counts of the runs of operation `c`.
pub open spec fn run_total(runs: Seq<(char, nat)>, c: char) -> nat
    decreases runs.len(),
{
    if runs.len() == 0 {
        0
    } else {
        run_total(runs.drop_last(), c) + if runs.last().0 == c { runs.last().1 } else { 0nat }
    }
}

/// The distance is the same in both directions.
pub proof fn lemma_symmetric(a: Seq<u8>, b: Seq<u8>)
    ensures
        lev(a, b) == lev(b, a),
    decreases a.len() + b.len(),
{
    if a.len() > 0 && b.len() > 0 {
        lemma_symmetric(a.drop_last(), b.drop_last());
        lemma_symmetric(a.drop_last(), b);
        lemma_symmetric(a, b.drop_last());
    }
}

/// A sequence is at distance zero from itself.
pub proof fn lemma_self_distance(s: Seq<u8>)
    ensures
        lev(s, s) == 0,
    decreases s.len(),
{
    if s.len() > 0 {
        lemma_self_distance(s.drop_last());
    }
}

proof fn lemma_diagonal_trace(s: Seq<u8>, i: nat)
    requires
        i <= s.len(),
    ensures
        trace(lev_table(s, s), i, i) =~= Seq::new(i, |k: int| 'M'),
    decreases i,
{
    if i > 0 {
        lemma_diagonal_trace(s, (i - 1) as nat);
        lemma_self_distance(s.take(i - 1));
        assert(lev_prefix(s, s, i - 1, i - 1) == 0);
    }
}

proof fn lemma_rle_uniform(i: nat)
    requires
        i >= 1,
    ensures
        rle(Seq::new(i, |k: int| 'M')) =~= seq![('M', i)],
    decreases i,
{
    let ops = Seq::new(i, |k: int| 'M');
    if i == 1 {
        assert(ops.drop_last() =~= Seq::<char>::empty());
        assert(rle(ops.drop_last()) =~= Seq::<(char, nat)>::empty());
    } else {
        assert(ops.drop_last() =~= Seq::new((i - 1) as nat, |k: int| 'M'));
        lemma_rle_uniform((i - 1) as nat);
    }
}

/// Aligning a sequence with itself costs nothing and matches every symbol:
/// the alignment string is its length followed by `M`, or empty when the
/// sequence is.
pub proof fn lemma_identity(s: Seq<u8>)
    ensures
        lev(s, s) == 0,
        cigar_of(trace(lev_table(s, s), s.len(), s.len())) == if s.len() == 0 {
            Seq::<char>::empty()
        } else {
            decimal(s.len()).push('M')
        },
{
    lemma_self_distance(s);
    lemma_diagonal_trace(s, s.len());
    if s.len() == 0 {
        assert(trace(lev_table(s, s), 0, 0) =~= Seq::<char>::empty());
    } else {
        lemma_rle_uniform(s.len());
        let runs = seq![('M', s.len())];
        assert(runs.drop_last() =~= Seq::<(char, nat)>::empty());
        assert(render(runs.drop_last()) =~= Seq::<char>::empty());
        assert(runs.last() == ('M', s.len()));
        assert(render(runs) =~= decimal(s.len()).push('M'));
    }
}

/// The distance is at least the difference of the lengths.
pub proof fn lemma_length_gap(a: Seq<u8>, b: Seq<u8>)
    ensures
        lev(a, b) >= a.len() - b.len(),
        lev(a, b) >= b.len() - a.len(),
    decreases a.len() + b.len(),
{
    if a.len() > 0 && b.len() > 0 {
        lemma_length_gap(a.drop_last(), b.drop_last());
        lemma_length_gap(a.drop_last(), b);
        lemma_length_gap(a, b.drop_last());
    }
}

/// Going from `a` to `c` through `b` never beats going directly.
pub proof fn lemma_triangle(a: Seq<u8>, b: Seq<u8>, c: Seq<u8>)
    ensures
        lev(a, c) <= lev(a, b) + lev(b, c),
    decreases a.len() + b.len() + c.len(),
{
    if a.len() == 0 {
        lemma_length_gap(b, c);
    } else if b.len() == 0 {
        lemma_lev_bound(a, c);
    } else if c.len() == 0 {
        lemma_length_gap(a, b);
    } else {
        let a1 = a.drop_last();
        let b1 = b.drop_last();
        let c1 = c.drop_last();
        lemma_triangle(a1, b, c);
        lemma_triangle(a, b, c1);
        lemma_triangle(a1, b1, c1);
        lemma_triangle(a1, b1, c);
        lemma_triangle(a, b1, c1);
        lemma_triangle(a, b1, c);
        assert(mismatch(a.last(), c.last()) <= mismatch(a.last(), b.last()) + mismatch(
            b.last(),
            c.last(),
        ));
    }
}

proof fn lemma_rle_totals(ops: Seq<char>, c: char)
    ensures
        run_total(rle(ops), c) == count_op(ops, c),
    decreases ops.len(),
{
    if ops.len() > 0 {
        lemma_rle_totals(ops.drop_last(), c);
        let r = rle(ops.drop_last());
        if r.len() > 0 && r.last().0 == ops.last() {
            let r2 = r.update(r.len() - 1, (ops.last(), r.last().1 + 1));
            assert(r2.drop_last() =~= r.drop_last());
        } else {
            assert(r.push((ops.last(), 1)).drop_last() =~= r);
        }
    }
}

proof fn lemma_trace_counts(t: spec_fn(int, int) -> int, i: nat, j: nat)
    ensures
        2 * count_op(trace(t, i, j), 'M') + count_op(trace(t, i, j), 'I') + count_op(
            trace(t, i, j),
            'D',
        ) == i + j,
    decreases i + j,
{
    if i == 0 && j == 0 {
    } else if i == 0 {
        lemma_trace_counts(t, 0, (j - 1) as nat);
        assert(trace(t, i, j).drop_last() =~= trace(t, 0, (j - 1) as nat));
    } else if j == 0 {
        lemma_trace_counts(t, (i - 1) as nat, 0);
        assert(trace(t, i, j).drop_last() =~= trace(t, (i - 1) as nat, 0));
    } else {
        lemma_trace_counts(t, (i - 1) as nat, (j - 1) as nat);
        lemma_trace_counts(t, (i - 1) as nat, j);
        lemma_trace_counts(t, i, (j - 1) as nat);
        let d = t(i - 1, j - 1);
        let u = t(i - 1, j as int);
        let l = t(i as int, j - 1);
        if d <= u && d <= l {
            assert(trace(t, i, j).drop_last() =~= trace(t, (i - 1) as nat, (j - 1) as nat));
        } else if u <= l {
            assert(trace(t, i, j).drop_last() =~= trace(t, (i - 1) as nat, j));
        } else {
            assert(trace(t, i, j).drop_last() =~= trace(t, i, (j - 1) as nat));
        }
    }
}

/// Each `M` of the alignment string consumes a symbol of both sequences and
/// each `I` or `D` one symbol of either: twice the `M` counts plus the `I`
/// and `D` counts add up to the two lengths together.
pub proof fn lemma_cigar_counts(a: Seq<u8>, b: Seq<u8>)
    ensures
        ({
            let runs = rle(trace(lev_table(a, b), a.len(), b.len()));
            2 * run_total(runs, 'M') + run_total(runs, 'I') + run_total(runs, 'D') == a.len()
                + b.len()
        }),
{
    let ops = trace(lev_table(a, b), a.len(), b.len());
    lemma_rle_totals(ops, 'M');
    lemma_rle_totals(ops, 'I');
    lemma_rle_totals(ops, 'D');
    lemma_trace_counts(lev_table(a, b), a.len(), b.len());
}

} // verus!
