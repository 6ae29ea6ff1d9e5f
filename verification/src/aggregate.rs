//! Aggregator: the four reducers (plain mean, category-weighted mean,
//! symmetric-trim mean, median) over one pixel's worth of source values.
//!
//! All arithmetic runs in the canonical integer domain with wide (128-bit)
//! accumulation, so no intermediate quantization or overflow can occur, and
//! every division truncates toward zero as the engine's bit-exact output
//! rule demands.

use vstd::prelude::*;
use vstd::arithmetic::div_mod::lemma_multiply_divide_lt;
use vstd::arithmetic::mul::lemma_mul_strict_inequality;
use vstd::arithmetic::mul::lemma_mul_inequality;
use crate::CoreError;
use crate::select::select;
use crate::select::sort_values;
use crate::select::sort_u64;
use crate::select::sorted_u64;
use crate::select::lemma_sort_u64_ensures;
use crate::select::lemma_partition_blocks;
use crate::select::lemma_multiset_elems_bounded;

verus! {

/// Canonical sample values stay below this limit (the widest storage width
/// in use is 32 bits), which keeps every weighted product within 64 bits.
pub const CANONICAL_LIMIT: u64 = 0x1_0000_0000;

/// Fixed-point scale of one weight unit: a weight of `WEIGHT_UNIT`
/// multiplies a source by exactly one.  The scale cancels in the weighted
/// quotient, so any triple expressed in these units behaves as its real
/// ratio demands.
pub const WEIGHT_UNIT: u32 = 1000;

/// Classification of one source stream, driving weighted aggregation only.
#[derive(Clone, Copy, PartialEq, Eq, Structural, Debug)]
pub enum CategoryLabel {
    I,
    P,
    B,
    Unknown,
}

impl CategoryLabel {
    /// The label a host-side classification byte maps to.  Everything other
    /// than `I`/`i`/`P`/`p`/`B` is the universally handled fallback.
    pub open spec fn spec_from_code(code: u8) -> CategoryLabel {
        if code == 73 || code == 105 {
            CategoryLabel::I
        } else if code == 80 || code == 112 {
            CategoryLabel::P
        } else if code == 66 {
            CategoryLabel::B
        } else {
            CategoryLabel::Unknown
        }
    }

    /// Executable twin of [`Self::spec_from_code`].
    pub fn from_code(code: u8) -> (l: CategoryLabel)
        ensures
            l == Self::spec_from_code(code),
    {
        match code {
            73 | 105 => CategoryLabel::I,
            80 | 112 => CategoryLabel::P,
            66 => CategoryLabel::B,
            _ => CategoryLabel::Unknown,
        }
    }
}

/// A weight triple indexed by category, in [`WEIGHT_UNIT`] fixed-point
/// units.  Sources labelled `Unknown` always weigh one unit.
#[derive(Clone, Copy, PartialEq, Eq, Structural, Debug)]
pub struct Weights {
    pub w_i: u32,
    pub w_p: u32,
    pub w_b: u32,
}

/// The weight a label selects from a triple.
pub open spec fn spec_weight(w: Weights, label: CategoryLabel) -> u32 {
    match label {
        CategoryLabel::I => w.w_i,
        CategoryLabel::P => w.w_p,
        CategoryLabel::B => w.w_b,
        CategoryLabel::Unknown => WEIGHT_UNIT,
    }
}

/// Executable twin of [`spec_weight`].
pub fn weight_for(w: Weights, label: CategoryLabel) -> (r: u32)
    ensures
        r == spec_weight(w, label),
{
    match label {
        CategoryLabel::I => w.w_i,
        CategoryLabel::P => w.w_p,
        CategoryLabel::B => w.w_b,
        CategoryLabel::Unknown => WEIGHT_UNIT,
    }
}

/// The aggregation strategy applied at every coordinate.  Weighting and
/// trimming are distinct variants, so requesting both at once is
/// unrepresentable here and rejected earlier, at mode resolution.
#[derive(Clone, Copy, PartialEq, Eq, Structural, Debug)]
pub enum AggregationMode {
    /// Unweighted arithmetic mean.
    Plain,
    /// Mean weighted per-source by its category label.
    Weighted(Weights),
    /// Symmetric trimmed mean: drop the `discard` largest and `discard`
    /// smallest values, average the remainder.
    Trimmed { discard: usize },
    /// Median of all source values.
    Median,
}

/// Whether a mode's parameters are in range for `n` sources: trimming must
/// leave at least one value standing.
pub open spec fn mode_valid(mode: AggregationMode, n: int) -> bool {
    &&& n >= 1
    &&& match mode {
        AggregationMode::Trimmed { discard } => 2 * (discard as int) < n,
        _ => true,
    }
}

/// Checks a mode's parameters against the source count, before any pixel is
/// touched.  Returns the configuration error exactly on the out-of-range
/// inputs.
pub fn validate_mode(mode: &AggregationMode, source_count: usize) -> (r: Result<(), CoreError>)
    ensures
        r is Ok <==> mode_valid(*mode, source_count as int),
        r is Err ==> r == Err::<(), CoreError>(CoreError::InvalidModeParameters),
{
    if source_count == 0 {
        return Err(CoreError::InvalidModeParameters);
    }
    match mode {
        AggregationMode::Trimmed { discard } => {
            if *discard < source_count && *discard < source_count - *discard {
                Ok(())
            } else {
                Err(CoreError::InvalidModeParameters)
            }
        },
        _ => Ok(()),
    }
}

/// The sum of a buffer of canonical values, as an unbounded integer.
pub open spec fn sum_seq(s: Seq<u64>) -> int
    decreases s.len(),
{
    if s.len() == 0 {
        0
    } else {
        sum_seq(s.drop_last()) + s.last()
    }
}

/// A sum never drops below zero.
pub proof fn lemma_sum_seq_nonneg(s: Seq<u64>)
    ensures
        sum_seq(s) >= 0,
    decreases s.len(),
{
    if s.len() > 0 {
        lemma_sum_seq_nonneg(s.drop_last());
    }
}

/// A sum of values below `b` stays at or below `len * (b - 1)`.
pub proof fn lemma_sum_seq_bound(s: Seq<u64>, b: int)
    requires
        forall|i: int| 0 <= i < s.len() ==> s[i] < b,
    ensures
        sum_seq(s) <= s.len() * (b - 1),
    decreases s.len(),
{
    if s.len() == 0 {
    } else {
        lemma_sum_seq_bound(s.drop_last(), b);
        assert(s.last() <= b - 1);
        assert((s.len() - 1) * (b - 1) + (b - 1) == s.len() * (b - 1)) by (nonlinear_arith);
    }
}

/// Removing one value takes exactly that value out of the sum.
pub proof fn lemma_sum_seq_remove(s: Seq<u64>, i: int)
    requires
        0 <= i < s.len(),
    ensures
        sum_seq(s) == sum_seq(s.remove(i)) + s[i],
    decreases s.len(),
{
    if i == s.len() - 1 {
        assert(s.remove(i) =~= s.drop_last());
    } else {
        lemma_sum_seq_remove(s.drop_last(), i);
        assert(s.remove(i).drop_last() =~= s.drop_last().remove(i));
        assert(s.remove(i).last() == s.last());
    }
}

/// Law: the sum only depends on the contents, not their arrangement.
pub proof fn lemma_sum_seq_permutation(x: Seq<u64>, y: Seq<u64>)
    requires
        x.to_multiset() == y.to_multiset(),
    ensures
        sum_seq(x) == sum_seq(y),
    decreases x.len(),
{
    broadcast use vstd::seq_lib::group_to_multiset_ensures;

    if x.len() == 0 {
        assert(y.to_multiset().len() == 0);
        assert(y.len() == 0);
    } else {
        let e = x.last();
        assert(x.contains(e));
        assert(y.to_multiset().count(e) > 0);
        assert(y.contains(e));
        let i = choose|i: int| 0 <= i < y.len() && y[i] == e;
        assert(x.drop_last() =~= x.remove(x.len() - 1));
        assert(x.remove(x.len() - 1).to_multiset() == x.to_multiset().remove(e));
        assert(y.remove(i).to_multiset() == y.to_multiset().remove(e));
        lemma_sum_seq_permutation(x.drop_last(), y.remove(i));
        lemma_sum_seq_remove(y, i);
    }
}

/// The total effective weight of a pixel's sources under a triple.
pub open spec fn wtot_spec(labels: Seq<CategoryLabel>, w: Weights) -> int
    decreases labels.len(),
{
    if labels.len() == 0 {
        0
    } else {
        wtot_spec(labels.drop_last(), w) + spec_weight(w, labels.last())
    }
}

/// The weighted sum of a pixel's source values under a triple, pairing each
/// value with the weight its label selects.
pub open spec fn wsum_spec(vals: Seq<u64>, labels: Seq<CategoryLabel>, w: Weights) -> int
    decreases vals.len(),
{
    if vals.len() == 0 {
        0
    } else {
        wsum_spec(vals.drop_last(), labels.drop_last(), w) + vals.last() * spec_weight(
            w,
            labels.last(),
        )
    }
}

/// The category-weighted mean, truncated toward zero.  Meaningful only when
/// the total weight is positive; an all-zero total is the degenerate case
/// surfaced as an error instead.
pub open spec fn weighted_mean_spec(vals: Seq<u64>, labels: Seq<CategoryLabel>, w: Weights) -> int {
    wsum_spec(vals, labels, w) / wtot_spec(labels, w)
}

/// Whether a mode hits the degenerate all-zero-weight case on these labels.
pub open spec fn degenerate_spec(mode: AggregationMode, labels: Seq<CategoryLabel>) -> bool {
    match mode {
        AggregationMode::Weighted(w) => wtot_spec(labels, w) == 0,
        _ => false,
    }
}

/// A total weight never drops below zero.
pub proof fn lemma_wtot_nonneg(labels: Seq<CategoryLabel>, w: Weights)
    ensures
        wtot_spec(labels, w) >= 0,
    decreases labels.len(),
{
    if labels.len() > 0 {
        lemma_wtot_nonneg(labels.drop_last(), w);
    }
}

/// A weighted sum never drops below zero.
pub proof fn lemma_wsum_nonneg(vals: Seq<u64>, labels: Seq<CategoryLabel>, w: Weights)
    requires
        vals.len() == labels.len(),
    ensures
        wsum_spec(vals, labels, w) >= 0,
    decreases vals.len(),
{
    if vals.len() > 0 {
        lemma_wsum_nonneg(vals.drop_last(), labels.drop_last(), w);
        assert(vals.last() * spec_weight(w, labels.last()) >= 0) by (nonlinear_arith);
    }
}

/// A weighted sum of values below `b` stays below `(b - 1)` times the total
/// weight, so the weighted mean stays below `b`.
pub proof fn lemma_wsum_bound(vals: Seq<u64>, labels: Seq<CategoryLabel>, w: Weights, b: int)
    requires
        vals.len() == labels.len(),
        b >= 1,
        forall|i: int| 0 <= i < vals.len() ==> vals[i] < b,
    ensures
        wsum_spec(vals, labels, w) <= (b - 1) * wtot_spec(labels, w),
    decreases vals.len(),
{
    if vals.len() > 0 {
        lemma_wsum_bound(vals.drop_last(), labels.drop_last(), w, b);
        let wt = spec_weight(w, labels.last()) as int;
        assert(vals.last() * wt <= (b - 1) * wt) by {
            lemma_mul_inequality(vals.last() as int, b - 1, wt);
        }
        assert((b - 1) * wtot_spec(labels.drop_last(), w) + (b - 1) * wt == (b - 1) * (
        wtot_spec(labels.drop_last(), w) + wt)) by (nonlinear_arith);
    }
}

/// Computes the weighted mean of one pixel's source values, or reports the
/// degenerate all-zero-weight case without writing anything.
pub fn weighted_mean(values: &Vec<u64>, labels: &Vec<CategoryLabel>, w: Weights) -> (r: Result<
    u64,
    CoreError,
>)
    requires
        values.len() >= 1,
        labels.len() == values.len(),
        forall|i: int| 0 <= i < values.len() ==> values[i] < CANONICAL_LIMIT,
    ensures
        wtot_spec(labels@, w) == 0 ==> r == Err::<u64, CoreError>(CoreError::DegenerateAggregate),
        wtot_spec(labels@, w) > 0 ==> (r matches Ok(m) && m as int == weighted_mean_spec(
            values@,
            labels@,
            w,
        ) && m < CANONICAL_LIMIT),
{
    let n = values.len();
    let mut ws: u128 = 0;
    let mut wt: u128 = 0;
    let mut i: usize = 0;
    while i < n
        invariant
            i <= n,
            n == values.len(),
            n == labels.len(),
            forall|j: int| 0 <= j < values.len() ==> values[j] < CANONICAL_LIMIT,
            ws == wsum_spec(values@.take(i as int), labels@.take(i as int), w),
            wt == wtot_spec(labels@.take(i as int), w),
            ws <= (i as int) * 0xFFFF_FFFE_0000_0001,
            wt <= (i as int) * 0xFFFF_FFFF,
        decreases n - i,
    {
        proof {
            assert(values@.take(i + 1).drop_last() =~= values@.take(i as int));
            assert(labels@.take(i + 1).drop_last() =~= labels@.take(i as int));
            assert(values@.take(i + 1).last() == values@[i as int]);
            assert(labels@.take(i + 1).last() == labels@[i as int]);
            vstd::arithmetic::mul::lemma_mul_upper_bound(
                values@[i as int] as int,
                0xFFFF_FFFF,
                spec_weight(w, labels@[i as int]) as int,
                0xFFFF_FFFF,
            );
            assert(values@[i as int] * spec_weight(w, labels@[i as int]) >= 0)
                by (nonlinear_arith);
            lemma_mul_inequality(i as int, 0xFFFF_FFFF_FFFF_FFFF, 0xFFFF_FFFE_0000_0001);
            lemma_mul_inequality(i as int, 0xFFFF_FFFF_FFFF_FFFF, 0xFFFF_FFFF);
            assert((i as int) * 0xFFFF_FFFE_0000_0001 + 0xFFFF_FFFE_0000_0001 == (i + 1)
                * 0xFFFF_FFFE_0000_0001) by (nonlinear_arith);
            assert((i as int) * 0xFFFF_FFFF + 0xFFFF_FFFF == (i + 1) * 0xFFFF_FFFF)
                by (nonlinear_arith);
        }
        let term = (values[i] as u128) * (weight_for(w, labels[i]) as u128);
        ws = ws + term;
        wt = wt + weight_for(w, labels[i]) as u128;
        i = i + 1;
    }
    proof {
        assert(values@.take(n as int) =~= values@);
        assert(labels@.take(n as int) =~= labels@);
    }
    if wt == 0 {
        return Err(CoreError::DegenerateAggregate);
    }
    proof {
        lemma_wsum_nonneg(values@, labels@, w);
        lemma_wsum_bound(values@, labels@, w, CANONICAL_LIMIT as int);
        assert((CANONICAL_LIMIT - 1) * wtot_spec(labels@, w) < (CANONICAL_LIMIT as int)
            * wtot_spec(labels@, w)) by {
            lemma_mul_strict_inequality(
                CANONICAL_LIMIT - 1,
                CANONICAL_LIMIT as int,
                wtot_spec(labels@, w),
            );
        }
        vstd::arithmetic::mul::lemma_mul_is_commutative(
            CANONICAL_LIMIT as int,
            wtot_spec(labels@, w),
        );
        lemma_multiply_divide_lt(ws as int, wt as int, CANONICAL_LIMIT as int);
    }
    let r = ws / wt;
    Ok(r as u64)
}

/// The unweighted arithmetic mean, truncated toward zero.
pub open spec fn plain_mean_spec(s: Seq<u64>) -> int {
    sum_seq(s) / s.len() as int
}

/// Computes the plain mean of one pixel's source values.
pub fn plain_mean(values: &Vec<u64>) -> (r: u64)
    requires
        values.len() >= 1,
        forall|i: int| 0 <= i < values.len() ==> values[i] < CANONICAL_LIMIT,
    ensures
        r as int == plain_mean_spec(values@),
        r < CANONICAL_LIMIT,
{
    let n = values.len();
    let mut acc: u128 = 0;
    let mut i: usize = 0;
    while i < n
        invariant
            i <= n,
            n == values.len(),
            forall|j: int| 0 <= j < values.len() ==> values[j] < CANONICAL_LIMIT,
            acc == sum_seq(values@.take(i as int)),
            acc <= (i as int) * (CANONICAL_LIMIT - 1),
        decreases n - i,
    {
        proof {
            assert(values@.take(i + 1).drop_last() =~= values@.take(i as int));
            assert(values@.take(i + 1).last() == values@[i as int]);
            lemma_mul_inequality(i as int, 0xFFFF_FFFF_FFFF_FFFF, CANONICAL_LIMIT - 1);
            assert((i as int) * (CANONICAL_LIMIT - 1) + (CANONICAL_LIMIT - 1) == (i + 1)
                * (CANONICAL_LIMIT - 1)) by (nonlinear_arith);
        }
        acc = acc + values[i] as u128;
        i = i + 1;
    }
    proof {
        assert(values@.take(n as int) =~= values@);
        lemma_sum_seq_nonneg(values@);
        lemma_sum_seq_bound(values@, CANONICAL_LIMIT as int);
        assert((n as int) * (CANONICAL_LIMIT - 1) < (n as int) * (CANONICAL_LIMIT as int)) by {
            lemma_mul_strict_inequality(
                CANONICAL_LIMIT - 1,
                CANONICAL_LIMIT as int,
                n as int,
            );
            vstd::arithmetic::mul::lemma_mul_is_commutative(
                CANONICAL_LIMIT - 1,
                n as int,
            );
            vstd::arithmetic::mul::lemma_mul_is_commutative(
                CANONICAL_LIMIT as int,
                n as int,
            );
        }
        lemma_multiply_divide_lt(acc as int, n as int, CANONICAL_LIMIT as int);
    }
    let r = acc / (n as u128);
    r as u64
}

/// The symmetric trimmed mean: the mean of what remains after the `discard`
/// largest and `discard` smallest values are removed, truncated toward zero.
pub open spec fn trimmed_mean_spec(s: Seq<u64>, discard: int) -> int {
    sum_seq(sort_u64(s).subrange(discard, s.len() - discard)) / (s.len() - 2 * discard)
}

/// Computes the trimmed mean of one pixel's source values, scrambling the
/// scratch buffer in place (its contents survive, rearranged).
pub fn trimmed_mean(values: &mut Vec<u64>, discard: usize) -> (r: u64)
    requires
        2 * discard < old(values).len(),
        forall|i: int| 0 <= i < old(values).len() ==> old(values)[i] < CANONICAL_LIMIT,
    ensures
        r as int == trimmed_mean_spec(old(values)@, discard as int),
        r < CANONICAL_LIMIT,
        final(values)@.to_multiset() == old(values)@.to_multiset(),
{
    let n = values.len();
    let k = discard;
    select(values, k);
    let ghost mid = values@.subrange(k as int, n - k);
    proof {
        lemma_partition_blocks(old(values)@, values@, k as int);
        let sa = sort_u64(values@.subrange(0, k as int));
        let sb = sort_u64(mid);
        let sc = sort_u64(values@.subrange(n - k, n as int));
        lemma_sort_u64_ensures(values@.subrange(0, k as int));
        lemma_sort_u64_ensures(mid);
        lemma_sort_u64_ensures(values@.subrange(n - k, n as int));
        assert(sort_u64(old(values)@).subrange(k as int, n - k) =~= sb);
        lemma_sum_seq_permutation(sb, mid);
        lemma_multiset_elems_bounded(old(values)@, values@, CANONICAL_LIMIT as int);
    }
    let mut acc: u128 = 0;
    let mut i: usize = k;
    while i < n - k
        invariant
            k <= i <= n - k,
            2 * k < n,
            n == values.len(),
            mid == values@.subrange(k as int, n - k),
            forall|j: int| 0 <= j < values.len() ==> values[j] < CANONICAL_LIMIT,
            acc == sum_seq(values@.subrange(k as int, i as int)),
            acc <= (i - k) * (CANONICAL_LIMIT - 1),
        decreases n - k - i,
    {
        proof {
            assert(values@.subrange(k as int, i + 1).drop_last() =~= values@.subrange(
                k as int,
                i as int,
            ));
            assert(values@.subrange(k as int, i + 1).last() == values@[i as int]);
            lemma_mul_inequality(i - k, 0xFFFF_FFFF_FFFF_FFFF, CANONICAL_LIMIT - 1);
            assert((i - k) * (CANONICAL_LIMIT - 1) + (CANONICAL_LIMIT - 1) == (i + 1 - k)
                * (CANONICAL_LIMIT - 1)) by (nonlinear_arith);
        }
        acc = acc + values[i] as u128;
        i = i + 1;
    }
    let count = n - 2 * k;
    proof {
        assert(values@.subrange(k as int, n - k) == mid);
        lemma_sum_seq_nonneg(mid);
        assert(forall|j: int| 0 <= j < mid.len() ==> mid[j] < CANONICAL_LIMIT);
        lemma_sum_seq_bound(mid, CANONICAL_LIMIT as int);
        assert((count as int) * (CANONICAL_LIMIT - 1) < (count as int) * (
        CANONICAL_LIMIT as int)) by {
            lemma_mul_strict_inequality(CANONICAL_LIMIT - 1, CANONICAL_LIMIT as int, count as int);
            vstd::arithmetic::mul::lemma_mul_is_commutative(CANONICAL_LIMIT - 1, count as int);
            vstd::arithmetic::mul::lemma_mul_is_commutative(CANONICAL_LIMIT as int, count as int);
        }
        lemma_multiply_divide_lt(acc as int, count as int, CANONICAL_LIMIT as int);
    }
    let r = acc / (count as u128);
    r as u64
}

/// The median: the middle value of the ascending rearrangement, or for an
/// even count the mean of the two middle values, truncated toward zero in
/// this integer domain.
pub open spec fn median_spec(s: Seq<u64>) -> int {
    let t = sort_u64(s);
    let n = s.len() as int;
    if n % 2 == 1 {
        t[n / 2] as int
    } else {
        (t[n / 2 - 1] + t[n / 2]) as int / 2
    }
}

/// Computes the median of one pixel's source values, sorting the scratch
/// buffer in place (its contents survive, rearranged).
pub fn median(values: &mut Vec<u64>) -> (r: u64)
    requires
        old(values).len() >= 1,
        forall|i: int| 0 <= i < old(values).len() ==> old(values)[i] < CANONICAL_LIMIT,
    ensures
        r as int == median_spec(old(values)@),
        r < CANONICAL_LIMIT,
        final(values)@.to_multiset() == old(values)@.to_multiset(),
{
    sort_values(values);
    proof {
        lemma_sort_u64_ensures(old(values)@);
        lemma_multiset_elems_bounded(old(values)@, values@, CANONICAL_LIMIT as int);
    }
    let n = values.len();
    if n % 2 == 1 {
        values[n / 2]
    } else {
        let lo = values[n / 2 - 1];
        let hi = values[n / 2];
        (lo + hi) / 2
    }
}

/// What one pixel's aggregation yields under a mode, assuming the mode is
/// valid for the source count and, for weighting, that the total weight is
/// positive.
pub open spec fn agg_spec(mode: AggregationMode, vals: Seq<u64>, labels: Seq<CategoryLabel>) -> int {
    match mode {
        AggregationMode::Plain => plain_mean_spec(vals),
        AggregationMode::Weighted(w) => weighted_mean_spec(vals, labels, w),
        AggregationMode::Trimmed { discard } => trimmed_mean_spec(vals, discard as int),
        AggregationMode::Median => median_spec(vals),
    }
}

/// Aggregates one pixel's source values under a mode.  The scratch buffer is
/// scrambled in place; its contents survive, rearranged.  The degenerate
/// all-zero-weight case is the only per-pixel failure, and it is reported
/// instead of any value being produced.
pub fn aggregate(mode: &AggregationMode, values: &mut Vec<u64>, labels: &Vec<CategoryLabel>) -> (r:
    Result<u64, CoreError>)
    requires
        mode_valid(*mode, old(values).len() as int),
        labels.len() == old(values).len(),
        forall|i: int| 0 <= i < old(values).len() ==> old(values)[i] < CANONICAL_LIMIT,
    ensures
        degenerate_spec(*mode, labels@) ==> r == Err::<u64, CoreError>(
            CoreError::DegenerateAggregate,
        ),
        !degenerate_spec(*mode, labels@) ==> (r matches Ok(m) && m as int == agg_spec(
            *mode,
            old(values)@,
            labels@,
        ) && m < CANONICAL_LIMIT),
{
    match mode {
        AggregationMode::Plain => Ok(plain_mean(values)),
        AggregationMode::Weighted(w) => {
            proof {
                lemma_wtot_nonneg(labels@, *w);
            }
            weighted_mean(values, labels, *w)
        },
        AggregationMode::Trimmed { discard } => Ok(trimmed_mean(values, *discard)),
        AggregationMode::Median => Ok(median(values)),
    }
}

/// Law: an aggregate of values below a bound stays below that bound (and
/// never drops below zero), whatever the mode.  The plane driver leans on
/// this to re-encode results into the output depth.
pub proof fn lemma_agg_spec_bounded(
    mode: AggregationMode,
    vals: Seq<u64>,
    labels: Seq<CategoryLabel>,
    b: int,
)
    requires
        mode_valid(mode, vals.len() as int),
        labels.len() == vals.len(),
        b >= 1,
        forall|i: int| 0 <= i < vals.len() ==> vals[i] < b,
        !degenerate_spec(mode, labels),
    ensures
        0 <= agg_spec(mode, vals, labels) < b,
{
    let n = vals.len() as int;
    match mode {
        AggregationMode::Plain => {
            lemma_sum_seq_nonneg(vals);
            lemma_sum_seq_bound(vals, b);
            lemma_div_bounds(sum_seq(vals), n, b);
        },
        AggregationMode::Weighted(w) => {
            lemma_wtot_nonneg(labels, w);
            lemma_wsum_nonneg(vals, labels, w);
            lemma_wsum_bound(vals, labels, w, b);
            assert((b - 1) * wtot_spec(labels, w) <= wtot_spec(labels, w) * (b - 1))
                by (nonlinear_arith);
            lemma_div_bounds(wsum_spec(vals, labels, w), wtot_spec(labels, w), b);
        },
        AggregationMode::Trimmed { discard } => {
            let k = discard as int;
            lemma_sort_u64_ensures(vals);
            lemma_multiset_elems_bounded(vals, sort_u64(vals), b);
            let mid = sort_u64(vals).subrange(k, n - k);
            lemma_sum_seq_nonneg(mid);
            lemma_sum_seq_bound(mid, b);
            lemma_div_bounds(sum_seq(mid), n - 2 * k, b);
        },
        AggregationMode::Median => {
            lemma_sort_u64_ensures(vals);
            lemma_multiset_elems_bounded(vals, sort_u64(vals), b);
            let t = sort_u64(vals);
            if n % 2 == 1 {
                assert(0 <= t[n / 2] < b);
            } else {
                assert(t[n / 2 - 1] < b && t[n / 2] < b);
            }
        },
    }
}

/// Helper: a sum of `len` values below `b` divides down to below `b`.
proof fn lemma_div_bounds(total: int, len: int, b: int)
    requires
        len >= 1,
        b >= 1,
        0 <= total,
        total <= len * (b - 1),
    ensures
        0 <= total / len < b,
{
    vstd::arithmetic::div_mod::lemma_div_pos_is_pos(total, len);
    assert(len * (b - 1) < len * b) by {
        lemma_mul_strict_inequality(b - 1, b, len);
        vstd::arithmetic::mul::lemma_mul_is_commutative(b - 1, len);
        vstd::arithmetic::mul::lemma_mul_is_commutative(b, len);
    }
    lemma_multiply_divide_lt(total, len, b);
}

/// Law: with exactly one source, every mode returns that source's value
/// unchanged — plain, weighted (whenever its one effective weight is not
/// zero, the degenerate case), trimmed (whose only valid discard is zero)
/// and median alike.
pub proof fn lemma_single_source_identity(mode: AggregationMode, v: u64, label: CategoryLabel)
    requires
        mode_valid(mode, 1),
        !degenerate_spec(mode, seq![label]),
    ensures
        agg_spec(mode, seq![v], seq![label]) == v,
{
    let vals = seq![v];
    let labels = seq![label];
    assert(vals.drop_last() =~= Seq::<u64>::empty());
    assert(labels.drop_last() =~= Seq::<CategoryLabel>::empty());
    assert(sum_seq(Seq::<u64>::empty()) == 0);
    assert(sum_seq(vals) == v);
    assert(sorted_u64(vals));
    crate::select::lemma_sorted_permutation_is_sort(vals, vals);
    match mode {
        AggregationMode::Plain => {
            vstd::arithmetic::div_mod::lemma_div_basics(v as int);
        },
        AggregationMode::Weighted(w) => {
            let wt = spec_weight(w, label) as int;
            assert(wsum_spec(Seq::<u64>::empty(), Seq::<CategoryLabel>::empty(), w) == 0);
            assert(wtot_spec(Seq::<CategoryLabel>::empty(), w) == 0);
            assert(wsum_spec(vals, labels, w) == v * wt);
            assert(wtot_spec(labels, w) == wt);
            assert(wt > 0);
            assert(v * wt == wt * v) by {
                vstd::arithmetic::mul::lemma_mul_is_commutative(v as int, wt);
            }
            vstd::arithmetic::div_mod::lemma_div_multiples_vanish(v as int, wt);
        },
        AggregationMode::Trimmed { discard } => {
            assert(discard == 0);
            assert(sort_u64(vals).subrange(0, 1) =~= vals);
            vstd::arithmetic::div_mod::lemma_div_basics(v as int);
        },
        AggregationMode::Median => {
            assert(sort_u64(vals)[0] == v);
        },
    }
}

/// The weight triples behind the numbered host presets, in fixed-point
/// units: the balanced default, the common encoder defaults, and the two
/// grain-tuned variants.
pub open spec fn spec_preset_weights(preset: int) -> Weights {
    if preset == 1 {
        Weights { w_i: 1820, w_p: 1300, w_b: 1000 }
    } else if preset == 2 {
        Weights { w_i: 1210, w_p: 1100, w_b: 1000 }
    } else {
        Weights { w_i: 1100, w_p: 1000, w_b: 1000 }
    }
}

/// What [`resolve_mode`] yields for each request.
pub open spec fn spec_resolve_mode(preset: Option<i64>, discard: Option<i64>, n: int) -> Result<
    AggregationMode,
    CoreError,
> {
    let p = if preset is Some { preset->0 } else { 0 };
    let d = if discard is Some { discard->0 } else { 0 };
    if d != 0 && p != 0 {
        Err(CoreError::InvalidModeParameters)
    } else if d != 0 {
        if d > 0 && 2 * d < n {
            Ok(AggregationMode::Trimmed { discard: d as usize })
        } else {
            Err(CoreError::InvalidModeParameters)
        }
    } else if p == 0 {
        Ok(AggregationMode::Plain)
    } else if 1 <= p <= 3 {
        Ok(AggregationMode::Weighted(spec_preset_weights(p as int)))
    } else {
        Err(CoreError::InvalidModeParameters)
    }
}

/// Resolves a host request — an optional weight preset and an optional trim
/// count — into an aggregation mode, rejecting out-of-range trims, unknown
/// presets, and any request for weighting and trimming at once.  A rejected
/// request never reaches the plane scan.
pub fn resolve_mode(preset: Option<i64>, discard: Option<i64>, source_count: usize) -> (r: Result<
    AggregationMode,
    CoreError,
>)
    ensures
        r == spec_resolve_mode(preset, discard, source_count as int),
        r matches Ok(m) ==> (source_count >= 1 ==> mode_valid(m, source_count as int)),
{
    let p = match preset {
        Some(p) => p,
        None => 0,
    };
    let d = match discard {
        Some(d) => d,
        None => 0,
    };
    if d != 0 && p != 0 {
        Err(CoreError::InvalidModeParameters)
    } else if d != 0 {
        if d > 0 && (d as u128) * 2 < source_count as u128 {
            Ok(AggregationMode::Trimmed { discard: d as usize })
        } else {
            Err(CoreError::InvalidModeParameters)
        }
    } else if p == 0 {
        Ok(AggregationMode::Plain)
    } else if p == 1 {
        Ok(AggregationMode::Weighted(Weights { w_i: 1820, w_p: 1300, w_b: 1000 }))
    } else if p == 2 {
        Ok(AggregationMode::Weighted(Weights { w_i: 1210, w_p: 1100, w_b: 1000 }))
    } else if p == 3 {
        Ok(AggregationMode::Weighted(Weights { w_i: 1100, w_p: 1000, w_b: 1000 }))
    } else {
        Err(CoreError::InvalidModeParameters)
    }
}

} // verus!
