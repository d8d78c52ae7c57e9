//! The bias table: a dense frequency map over the 256 byte values, and the
//! weighted sampler that draws from it by cumulative-weight inversion.

use vstd::prelude::*;
use rand::Rng;

verus! {

/// Number of byte values, and so the fixed size of the weight table.
pub const ALPHABET: usize = 256;

/// Mathematical model of a bias table: one weight per byte value, the sum of
/// all weights, and whether any accumulation has been recorded.
#[verifier::ext_equal]
pub struct BiasView {
    pub weights: Seq<nat>,
    pub total: nat,
    pub has_any: bool,
}

/// Sum of the first `i` weights.
pub open spec fn prefix_weight(w: Seq<nat>, i: int) -> nat
    decreases i,
{
    if i <= 0 {
        0
    } else {
        prefix_weight(w, i - 1) + w[i - 1]
    }
}

/// The model of a freshly created table: all weights zero, nothing recorded.
pub open spec fn empty_view() -> BiasView {
    BiasView { weights: Seq::new(ALPHABET as nat, |i: int| 0nat), total: 0, has_any: false }
}

/// The model of one accumulation step: `amount` is added to `symbol`'s weight
/// and to the total, and the table is marked as holding data.
pub open spec fn accum_view(t: BiasView, symbol: u8, amount: nat) -> BiasView {
    BiasView {
        weights: t.weights.update(symbol as int, t.weights[symbol as int] + amount),
        total: t.total + amount,
        has_any: true,
    }
}

/// One parsed input record: a symbol and the amount to add to its weight.
pub type Record = (u8, nat);

/// Sum of the amounts of a record sequence.
pub open spec fn sum_amounts(rs: Seq<Record>) -> nat
    decreases rs.len(),
{
    if rs.len() == 0 {
        0
    } else {
        rs[0].1 + sum_amounts(rs.drop_first())
    }
}

/// A table after folding a sequence of accumulation records into it.
pub open spec fn apply_records(t: BiasView, rs: Seq<Record>) -> BiasView
    decreases rs.len(),
{
    if rs.len() == 0 {
        t
    } else {
        apply_records(accum_view(t, rs[0].0, rs[0].1), rs.drop_first())
    }
}

/// Every byte of `out` has a nonzero weight in `t`.
pub open spec fn sampled_from(out: Seq<u8>, t: BiasView) -> bool {
    forall|i: int| 0 <= i < out.len() ==> t.weights[#[trigger] out[i] as int] > 0
}

/// Errors raised while building a table from input.
#[derive(Debug, Clone, Copy, PartialEq, Eq, Structural)]
pub enum BiasError {
    /// Accumulating one more amount would overflow the running total.
    Overflow,
    /// An input line does not match `symbol<delim>weight`; holds the
    /// 0-indexed number of the offending line.
    Format { line: usize },
}

/// A frequency table over byte values, with O(1) access to the total weight.
pub struct BiasTable {
    weights: Vec<usize>,
    total: usize,
    has_any: bool,
}

impl View for BiasTable {
    type V = BiasView;

    closed spec fn view(&self) -> BiasView {
        BiasView {
            weights: self.weights@.map_values(|w: usize| w as nat),
            total: self.total as nat,
            has_any: self.has_any,
        }
    }
}

pub proof fn lemma_prefix_weight_mono(w: Seq<nat>, i: int, j: int)
    requires
        0 <= i <= j,
    ensures
        prefix_weight(w, i) <= prefix_weight(w, j),
    decreases j - i,
{
    if i < j {
        lemma_prefix_weight_mono(w, i, j - 1);
    }
}

pub proof fn lemma_prefix_weight_zero(w: Seq<nat>, i: int)
    requires
        forall|k: int| 0 <= k < i ==> w[k] == 0,
    ensures
        prefix_weight(w, i) == 0,
    decreases i,
{
    if i > 0 {
        lemma_prefix_weight_zero(w, i - 1);
    }
}

/// A single weight is no more than any prefix sum that covers it.
pub proof fn lemma_weight_le_prefix(w: Seq<nat>, i: int, j: int)
    requires
        0 <= i < j,
    ensures
        prefix_weight(w, i) + w[i] <= prefix_weight(w, j),
    decreases j - i,
{
    if j > i + 1 {
        lemma_weight_le_prefix(w, i, j - 1);
    }
}

/// Updating one slot shifts every prefix sum that covers it by the change.
pub proof fn lemma_prefix_weight_update(w: Seq<nat>, k: int, v: nat, i: int)
    requires
        0 <= k < w.len(),
        i <= w.len(),
    ensures
        prefix_weight(w.update(k, v), i) == if i <= k {
            prefix_weight(w, i) as int
        } else {
            prefix_weight(w, i) - w[k] + v
        },
    decreases i,
{
    if i > 0 {
        lemma_prefix_weight_update(w, k, v, i - 1);
    }
}

impl BiasTable {
    /// The table's internal invariant: exactly one weight per byte value, a
    /// total that equals the sum of the weights and fits the machine word,
    /// and `has_any` set whenever any weight is.
    pub open spec fn wf(&self) -> bool {
        &&& self@.weights.len() == ALPHABET
        &&& self@.total == prefix_weight(self@.weights, ALPHABET as int)
        &&& self@.total <= usize::MAX
        &&& (self@.total > 0 ==> self@.has_any)
    }

    /// Creates a table with every weight zero.
    pub fn new() -> (t: BiasTable)
        ensures
            t.wf(),
            t@ == empty_view(),
    {
        let mut weights: Vec<usize> = Vec::new();
        let mut i: usize = 0;
        while i < ALPHABET
            invariant
                i <= ALPHABET,
                weights@.len() == i,
                forall|k: int| 0 <= k < i ==> weights@[k] == 0,
            decreases ALPHABET - i,
        {
            weights.push(0);
            i += 1;
        }
        let t = BiasTable { weights, total: 0, has_any: false };
        proof {
            assert(t@.weights =~= empty_view().weights);
            assert(t@ =~= empty_view());
            lemma_prefix_weight_zero(t@.weights, ALPHABET as int);
        }
        t
    }

    /// Adds `amount` to `symbol`'s weight and to the total; refuses the call
    /// if the total would no longer fit the machine word.
    pub fn accumulate(&mut self, symbol: u8, amount: usize) -> (r: Result<(), BiasError>)
        requires
            old(self).wf(),
        ensures
            final(self).wf(),
            match r {
                Ok(()) => old(self)@.total + amount <= usize::MAX && final(self)@ == accum_view(
                    old(self)@,
                    symbol,
                    amount as nat,
                ),
                Err(e) => e == BiasError::Overflow && old(self)@.total + amount > usize::MAX
                    && final(self)@ == old(self)@,
            },
    {
        if amount <= usize::MAX - self.total {
            let ghost w0 = self@.weights;
            proof {
                assert(w0[symbol as int] == self.weights@[symbol as int] as nat);
                lemma_weight_le_prefix(w0, symbol as int, ALPHABET as int);
            }
            let prev = self.weights[symbol as usize];
            self.weights.set(symbol as usize, prev + amount);
            self.total = self.total + amount;
            self.has_any = true;
            proof {
                assert(self@.weights =~= w0.update(
                    symbol as int,
                    w0[symbol as int] + amount as nat,
                ));
                lemma_prefix_weight_update(
                    w0,
                    symbol as int,
                    w0[symbol as int] + amount as nat,
                    ALPHABET as int,
                );
                assert(self@ =~= accum_view(old(self)@, symbol, amount as nat));
            }
            Ok(())
        } else {
            Err(BiasError::Overflow)
        }
    }

    /// True iff no accumulation has ever been recorded.
    pub fn is_empty(&self) -> (r: bool)
        ensures
            r == !self@.has_any,
    {
        !self.has_any
    }

    /// The sum of all weights.
    pub fn total_weight(&self) -> (r: usize)
        ensures
            r == self@.total,
    {
        self.total
    }

    /// The weight currently held by `symbol`.
    pub fn weight_of(&self, symbol: u8) -> (r: usize)
        requires
            self.wf(),
        ensures
            r == self@.weights[symbol as int],
    {
        self.weights[symbol as usize]
    }

    /// Inverts the cumulative weight partition: returns the unique symbol
    /// whose weight interval `[prefix_weight(.., symbol),
    /// prefix_weight(.., symbol + 1))` contains `draw`. Such a symbol always
    /// carries nonzero weight, so zero-weight symbols are never selected.
    pub fn select_symbol(&self, draw: usize) -> (symbol: u8)
        requires
            self.wf(),
            draw < self@.total,
        ensures
            prefix_weight(self@.weights, symbol as int) <= draw,
            draw < prefix_weight(self@.weights, symbol as int + 1),
            self@.weights[symbol as int] > 0,
    {
        let ghost w = self@.weights;
        // Scan for the first symbol with nonzero weight, so that the walk
        // below starts where the cumulative mass starts.
        let mut start: usize = 0;
        while start < ALPHABET && self.weights[start] == 0
            invariant
                self.wf(),
                w == self@.weights,
                start <= ALPHABET,
                forall|k: int| 0 <= k < start ==> w[k] == 0,
            decreases ALPHABET - start,
        {
            start += 1;
        }
        proof {
            lemma_prefix_weight_zero(w, start as int);
            if start == ALPHABET {
                assert(self@.total == 0);
            }
        }
        let mut cum: usize = 0;
        let mut index: usize = start;
        // Walk forward adding weights until the running sum first exceeds the
        // draw; the symbol that pushed it over is the selected one.
        while cum <= draw
            invariant
                self.wf(),
                w == self@.weights,
                draw < self@.total,
                start <= index <= ALPHABET,
                cum == prefix_weight(w, index as int),
                index > start ==> prefix_weight(w, index as int - 1) <= draw,
                prefix_weight(w, start as int) == 0,
            decreases ALPHABET - index,
        {
            proof {
                if index == ALPHABET {
                    assert(cum == self@.total);
                }
                lemma_weight_le_prefix(w, index as int, ALPHABET as int);
            }
            let wt = self.weights[index];
            cum = cum + wt;
            index = index + 1;
        }
        proof {
            if index == start {
                assert(cum == 0);
            }
        }
        (index - 1) as u8
    }

    /// Draws `count` samples from the table with the given generator, in draw
    /// order. An all-zero table yields an empty sequence; otherwise every
    /// produced byte carries nonzero weight in the table.
    pub fn generate(&self, rng: &mut rand::rngs::ThreadRng, count: usize) -> (out: Vec<u8>)
        requires
            self.wf(),
        ensures
            self@.total == 0 ==> out@.len() == 0,
            self@.total > 0 ==> out@.len() == count,
            sampled_from(out@, self@),
    {
        if self.total == 0 {
            return Vec::new();
        }
        let total = self.total;
        let mut out: Vec<u8> = Vec::new();
        let mut k: usize = 0;
        while k < count
            invariant
                self.wf(),
                total == self@.total,
                total > 0,
                k <= count,
                out@.len() == k,
                sampled_from(out@, self@),
            decreases count - k,
        {
            let draw = draw_below(rng, total);
            let symbol = self.select_symbol(draw);
            out.push(symbol);
            k += 1;
        }
        out
    }
}

/// rand's thread-local generator, opaque to the verifier.
#[verifier::external_type_specification]
#[verifier::external_body]
pub struct ExThreadRng(rand::rngs::ThreadRng);

/// Relies on rand::Rng::gen_range over `0..bound`: a uniform draw from
/// `[0, bound)`; it panics only on an empty range, which `bound > 0` rules
/// out. Nothing more is assumed of the value, which depends on the
/// generator's state.
#[verifier::external_body]
fn draw_below(rng: &mut rand::rngs::ThreadRng, bound: usize) -> (r: usize)
    requires
        bound > 0,
    ensures
        r < bound,
{
    rng.gen_range(0..bound)
}

} // verus!
