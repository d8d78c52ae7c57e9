//! Properties of the table model that hold across whole call sequences.

use vstd::prelude::*;
use crate::bias::ALPHABET;
use crate::bias::BiasView;
use crate::bias::Record;
use crate::bias::accum_view;
use crate::bias::apply_records;
use crate::bias::lemma_prefix_weight_mono;
use crate::bias::prefix_weight;
use crate::bias::sampled_from;
use crate::bias::sum_amounts;

verus! {

/// Weight conservation: folding any sequence of accumulation records into a
/// table raises the total by exactly the sum of the recorded amounts.
pub proof fn lemma_weight_conservation(t: BiasView, rs: Seq<Record>)
    ensures
        apply_records(t, rs).total == t.total + sum_amounts(rs),
    decreases rs.len(),
{
    if rs.len() > 0 {
        lemma_weight_conservation(accum_view(t, rs[0].0, rs[0].1), rs.drop_first());
    }
}

/// Folding one more record equals one accumulation step after the fold.
pub proof fn lemma_apply_records_push(t: BiasView, rs: Seq<Record>, x: Record)
    ensures
        apply_records(t, rs.push(x)) == accum_view(apply_records(t, rs), x.0, x.1),
    decreases rs.len(),
{
    assert(apply_records(t, rs.push(x)) == apply_records(
        accum_view(t, rs.push(x)[0].0, rs.push(x)[0].1),
        rs.push(x).drop_first(),
    ));
    if rs.len() == 0 {
        assert(rs.push(x)[0] == x);
        assert(rs.push(x).drop_first() =~= Seq::<Record>::empty());
    } else {
        lemma_apply_records_push(accum_view(t, rs[0].0, rs[0].1), rs.drop_first(), x);
        assert(rs.push(x)[0] == rs[0]);
        assert(rs.push(x).drop_first() =~= rs.drop_first().push(x));
    }
}

/// Appending one record adds exactly its amount to the sum.
pub proof fn lemma_sum_amounts_push(rs: Seq<Record>, x: Record)
    ensures
        sum_amounts(rs.push(x)) == sum_amounts(rs) + x.1,
    decreases rs.len(),
{
    assert(sum_amounts(rs.push(x)) == rs.push(x)[0].1 + sum_amounts(rs.push(x).drop_first()));
    if rs.len() == 0 {
        assert(rs.push(x)[0] == x);
        assert(rs.push(x).drop_first() =~= Seq::<Record>::empty());
    } else {
        lemma_sum_amounts_push(rs.drop_first(), x);
        assert(rs.push(x)[0] == rs[0]);
        assert(rs.push(x).drop_first() =~= rs.drop_first().push(x));
    }
}

/// A prefix of a record sequence never sums to more than the whole.
pub proof fn lemma_sum_amounts_take_le(rs: Seq<Record>, k: int)
    requires
        0 <= k <= rs.len(),
    ensures
        sum_amounts(rs.take(k)) <= sum_amounts(rs),
    decreases rs.len(),
{
    if k == 0 {
        assert(rs.take(0) =~= Seq::<Record>::empty());
    } else {
        lemma_sum_amounts_take_le(rs.drop_first(), k - 1);
        assert(rs.take(k).drop_first() =~= rs.drop_first().take(k - 1));
        assert(sum_amounts(rs.take(k)) == rs[0].1 + sum_amounts(rs.drop_first().take(k - 1)));
    }
}

/// Single-symbol determinism: if `c` is the only symbol that can carry weight
/// in `t`, then any sequence sampled from `t` consists of copies of `c`
/// alone, whatever the random draws were.
pub proof fn lemma_single_symbol(t: BiasView, out: Seq<u8>, c: u8)
    requires
        t.weights.len() == ALPHABET,
        forall|j: int| 0 <= j < t.weights.len() && j != c ==> t.weights[j] == 0,
        sampled_from(out, t),
    ensures
        forall|i: int| 0 <= i < out.len() ==> out[i] == c,
{
    assert forall|i: int| 0 <= i < out.len() implies out[i] == c by {
        assert(t.weights[out[i] as int] > 0);
    }
}

/// `i` is the symbol whose cumulative-weight interval contains the draw `r`.
pub open spec fn selects(w: Seq<nat>, i: int, r: int) -> bool {
    0 <= i < w.len() && prefix_weight(w, i) <= r < prefix_weight(w, i + 1)
}

proof fn lemma_draw_exists(w: Seq<nat>, r: int, m: int)
    requires
        0 <= r,
        0 <= m <= w.len(),
        r < prefix_weight(w, m),
    ensures
        exists|i: int| selects(w, i, r),
    decreases m,
{
    if m > 0 {
        if prefix_weight(w, m - 1) <= r {
            assert(selects(w, m - 1, r));
        } else {
            lemma_draw_exists(w, r, m - 1);
        }
    }
}

/// The cumulative-weight intervals partition the draw space: every draw below
/// the total lands in exactly one symbol's interval, and symbol `i`'s
/// interval `[prefix_weight(w, i), prefix_weight(w, i + 1))` holds exactly
/// `w[i]` of the draw values — so a uniform draw selects each symbol with
/// probability `w[i] / total`.
pub proof fn lemma_draw_partition(w: Seq<nat>, r: int)
    requires
        0 <= r < prefix_weight(w, w.len() as int),
    ensures
        exists|i: int| selects(w, i, r),
        forall|i: int, j: int| selects(w, i, r) && selects(w, j, r) ==> i == j,
{
    lemma_draw_exists(w, r, w.len() as int);
    assert forall|i: int, j: int| selects(w, i, r) && selects(w, j, r) implies i == j by {
        if i < j {
            lemma_prefix_weight_mono(w, i + 1, j);
        }
        if j < i {
            lemma_prefix_weight_mono(w, j + 1, i);
        }
    }
}

} // verus!
