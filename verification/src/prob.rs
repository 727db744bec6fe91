//! The atomic belief unit: a categorical distribution over resource kinds.
//!
//! Probability mass is held in fixed point: a vector of `KIND_COUNT`
//! non-negative slots that sum to exactly [`SCALE`]. Every operator
//! renormalizes deterministically, so the sum-to-one invariant is exact
//! rather than within a floating-point tolerance.

use vstd::prelude::*;

use crate::kind::KIND_COUNT;
use crate::kind::ResourceKind;
use crate::order::first_max_index_u64;
use crate::order::first_max_idx;
use crate::order::ints_of_u64;
use crate::order::is_first_max;

verus! {

/// Fixed-point denominator: a slot holding `SCALE` carries probability one.
pub const SCALE: u64 = 1_000_000;

/// Probability mass of one slot of the uniform distribution (`SCALE / KIND_COUNT`).
pub const UNIFORM_SLOT: u64 = 200_000;

/// Fixed-point one half, the pivot of the blend algebra.
pub const HALF: u64 = 500_000;

/// Sum of the entries of a slot sequence.
pub open spec fn sum(s: Seq<u64>) -> int
    decreases s.len(),
{
    if s.len() == 0 {
        0
    } else {
        sum(s.drop_last()) + s.last()
    }
}

pub proof fn lemma_sum_nonneg(s: Seq<u64>)
    ensures
        sum(s) >= 0,
    decreases s.len(),
{
    if s.len() > 0 {
        lemma_sum_nonneg(s.drop_last());
    }
}

/// Extending a prefix by one entry adds that entry to its sum.
pub proof fn lemma_sum_take_step(s: Seq<u64>, i: int)
    requires
        0 <= i < s.len(),
    ensures
        sum(s.take(i + 1)) == sum(s.take(i)) + s[i],
{
    assert(s.take(i + 1).drop_last() =~= s.take(i));
    assert(s.take(i + 1).last() == s[i]);
}

pub proof fn lemma_sum_take_full(s: Seq<u64>)
    ensures
        sum(s.take(s.len() as int)) == sum(s),
{
    assert(s.take(s.len() as int) =~= s);
}

/// Every entry is bounded by the sum, the entries being non-negative.
pub proof fn lemma_entry_le_sum(s: Seq<u64>, i: int)
    requires
        0 <= i < s.len(),
    ensures
        s[i] <= sum(s),
    decreases s.len(),
{
    if i == s.len() - 1 {
        lemma_sum_nonneg(s.drop_last());
    } else {
        lemma_entry_le_sum(s.drop_last(), i);
        lemma_sum_nonneg(s.drop_last());
    }
}

pub proof fn lemma_sum_update(s: Seq<u64>, i: int, v: u64)
    requires
        0 <= i < s.len(),
    ensures
        sum(s.update(i, v)) == sum(s) - s[i] + v,
    decreases s.len(),
{
    if i == s.len() - 1 {
        assert(s.update(i, v).drop_last() =~= s.drop_last());
        assert(s.update(i, v).last() == v);
    } else {
        assert(s.update(i, v).drop_last() =~= s.drop_last().update(i, v));
        assert(s.update(i, v).last() == s.last());
        lemma_sum_update(s.drop_last(), i, v);
    }
}

/// The sum of a five-slot sequence, written out.
pub proof fn lemma_sum5(s: Seq<u64>)
    requires
        s.len() == 5,
    ensures
        sum(s) == s[0] + s[1] + s[2] + s[3] + s[4],
{
    let s4 = s.drop_last();
    let s3 = s4.drop_last();
    let s2 = s3.drop_last();
    let s1 = s2.drop_last();
    assert(sum(s) == sum(s4) + s[4]);
    assert(sum(s4) == sum(s3) + s[3]);
    assert(sum(s3) == sum(s2) + s[2]);
    assert(sum(s2) == sum(s1) + s[1]);
    assert(sum(s1) == sum(s1.drop_last()) + s[0]);
    assert(sum(s1.drop_last()) == 0);
}

/// A well-formed belief: one slot per kind, total mass exactly `SCALE`.
pub open spec fn is_distribution(s: Seq<u64>) -> bool {
    &&& s.len() == KIND_COUNT
    &&& sum(s) == SCALE
}

pub proof fn lemma_distribution_entry_bound(s: Seq<u64>, i: int)
    requires
        is_distribution(s),
        0 <= i < s.len(),
    ensures
        s[i] <= SCALE,
{
    lemma_entry_le_sum(s, i);
}

/// Floor division distributes over addition with a loss, never a gain.
pub proof fn lemma_div_add_le(x: int, y: int, d: int)
    requires
        x >= 0,
        y >= 0,
        d >= 1,
    ensures
        x / d + y / d <= (x + y) / d,
{
    assert(x / d + y / d <= (x + y) / d) by (nonlinear_arith)
        requires x >= 0, y >= 0, d >= 1;
}

/// Every slot scaled by `c / d` and shifted by `q`; the common shape of the
/// mass-preserving operators before their rounding deficit is folded back in.
pub open spec fn scaled_seq(s: Seq<u64>, c: u64, d: int, q: int) -> Seq<u64> {
    Seq::new(s.len(), |i: int| (s[i] * c / d + q) as u64)
}

/// The scaled slots lose mass to rounding, never gain any.
pub proof fn lemma_scaled_seq_sum(s: Seq<u64>, c: u64, d: int, q: int)
    requires
        d >= 1,
        q >= 0,
        forall|i: int| 0 <= i < s.len() ==> s[i] * c / d + q <= SCALE,
    ensures
        sum(scaled_seq(s, c, d, q)) <= sum(s) * c / d + s.len() * q,
        sum(scaled_seq(s, c, d, q)) >= 0,
    decreases s.len(),
{
    lemma_sum_nonneg(scaled_seq(s, c, d, q));
    if s.len() > 0 {
        let pre = s.drop_last();
        let last = s.last();
        lemma_scaled_seq_sum(pre, c, d, q);
        assert(scaled_seq(s, c, d, q).drop_last() =~= scaled_seq(pre, c, d, q));
        assert(last * c / d + q >= q) by (nonlinear_arith)
            requires d >= 1, q >= 0, last >= 0, c >= 0;
        assert(s[s.len() - 1] * c / d + q <= SCALE);
        assert(scaled_seq(s, c, d, q).last() == (last * c / d + q) as u64);
        assert((last * c / d + q) as u64 == last * c / d + q);
        assert(sum(scaled_seq(s, c, d, q)) == sum(scaled_seq(pre, c, d, q)) + (last * c / d
            + q));
        lemma_sum_nonneg(pre);
        assert(sum(pre) * c >= 0) by (nonlinear_arith)
            requires sum(pre) >= 0, c >= 0;
        lemma_div_add_le(sum(pre) * c, last * c, d);
        assert(sum(pre) * c + last * c == (sum(pre) + last) * c) by (nonlinear_arith);
        assert(sum(s) == sum(pre) + last);
        assert(pre.len() == s.len() - 1);
        assert((s.len() - 1) * q + q == s.len() * q) by (nonlinear_arith);
    }
}

/// Fold the rounding deficit `SCALE - sum(s)` into the first slot.
pub open spec fn top_up(s: Seq<u64>) -> Seq<u64> {
    s.update(0, (s[0] + (SCALE - sum(s))) as u64)
}

pub proof fn lemma_top_up(s: Seq<u64>)
    requires
        s.len() >= 1,
        0 <= sum(s) <= SCALE,
    ensures
        sum(top_up(s)) == SCALE,
        top_up(s).len() == s.len(),
        s[0] + (SCALE - sum(s)) <= SCALE,
        forall|i: int| 1 <= i < s.len() ==> top_up(s)[i] == s[i],
        sum(s) == SCALE ==> top_up(s) == s,
{
    lemma_entry_le_sum(s, 0);
    lemma_sum_update(s, 0, (s[0] + (SCALE - sum(s))) as u64);
    if sum(s) == SCALE {
        assert(top_up(s) =~= s);
    }
}

/// Deterministic renormalization: scale every slot by `SCALE / total` and
/// fold the rounding deficit into the first slot; a degenerate zero total
/// falls back to the uniform distribution.
pub open spec fn spec_renormalize(s: Seq<u64>) -> Seq<u64> {
    if sum(s) == 0 {
        uniform_seq()
    } else {
        top_up(scaled_seq(s, SCALE, sum(s), 0))
    }
}

pub proof fn lemma_renormalize_entries(s: Seq<u64>)
    requires
        sum(s) >= 1,
    ensures
        forall|i: int| 0 <= i < s.len() ==> #[trigger] (s[i] * SCALE / sum(s)) + 0 <= SCALE,
        forall|i: int| 0 <= i < s.len() ==> s[i] * SCALE / sum(s) >= 0,
{
    let total = sum(s);
    assert forall|i: int| 0 <= i < s.len() implies (#[trigger] (s[i] * SCALE / total) + 0 <= SCALE)
        && s[i] * SCALE / total >= 0 by {
        lemma_entry_le_sum(s, i);
        assert(s[i] * SCALE / total <= SCALE) by (nonlinear_arith)
            requires 0 <= s[i] <= total, 1 <= total;
        assert(s[i] * SCALE / total >= 0) by (nonlinear_arith)
            requires s[i] >= 0, total >= 1;
    }
}

pub proof fn lemma_renormalize_is_distribution(s: Seq<u64>)
    requires
        s.len() == KIND_COUNT,
    ensures
        is_distribution(spec_renormalize(s)),
        sum(s) == SCALE ==> spec_renormalize(s) == s,
{
    if sum(s) == 0 {
        lemma_uniform_is_distribution();
    } else {
        let total = sum(s);
        lemma_sum_nonneg(s);
        lemma_renormalize_entries(s);
        let scaled = scaled_seq(s, SCALE, total, 0);
        lemma_scaled_seq_sum(s, SCALE, total, 0);
        assert(sum(s) * SCALE == SCALE * sum(s)) by (nonlinear_arith);
        assert(SCALE * total / total == SCALE) by (nonlinear_arith)
            requires total >= 1;
        lemma_top_up(scaled);
        if sum(s) == SCALE {
            assert forall|i: int| 0 <= i < s.len() implies scaled[i] == s[i] by {
                lemma_entry_le_sum(s, i);
                assert(s[i] * SCALE / total == s[i]) by (nonlinear_arith)
                    requires total == SCALE, 0 <= s[i], SCALE >= 1;
            }
            assert(scaled =~= s);
        }
    }
}

/// The uniform distribution over all kinds.
pub open spec fn uniform_seq() -> Seq<u64> {
    Seq::new(KIND_COUNT as nat, |i: int| UNIFORM_SLOT)
}

/// All mass on the slot of kind `k`.
pub open spec fn one_hot_seq(k: ResourceKind) -> Seq<u64> {
    Seq::new(KIND_COUNT as nat, |i: int| if i == k.index_spec() { SCALE } else { 0u64 })
}

pub proof fn lemma_uniform_is_distribution()
    ensures
        is_distribution(uniform_seq()),
{
    lemma_sum5(uniform_seq());
}

pub proof fn lemma_one_hot_is_distribution(k: ResourceKind)
    ensures
        is_distribution(one_hot_seq(k)),
{
    lemma_sum5(one_hot_seq(k));
}

/// Belief about one cell: probability mass per resource kind, in fixed point.
pub struct ProbabilityVector {
    slots: Vec<u64>,
}

impl View for ProbabilityVector {
    type V = Seq<u64>;

    closed spec fn view(&self) -> Seq<u64> {
        self.slots@
    }
}

/// Target slot of `probable`: `u + (1 - u) * certainty` in fixed point.
pub open spec fn probable_subject(certainty: u64) -> int {
    UNIFORM_SLOT + (SCALE - UNIFORM_SLOT) * certainty / (SCALE as int)
}

/// Mass of each non-target slot of `probable`.
pub open spec fn probable_rest(certainty: u64) -> int {
    (SCALE - probable_subject(certainty)) / (KIND_COUNT - 1)
}

/// Rounding remainder of `probable`, folded into the target slot.
pub open spec fn probable_rem(certainty: u64) -> int {
    (SCALE - probable_subject(certainty)) - probable_rest(certainty) * (KIND_COUNT - 1)
}

/// The distribution `probable(k, certainty)` produces: the target slot takes
/// `u + (1 - u) * certainty` plus the rounding remainder, the remaining mass
/// splits evenly over the other slots.
pub open spec fn spec_probable(k: ResourceKind, certainty: u64) -> Seq<u64> {
    Seq::new(
        KIND_COUNT as nat,
        |i: int|
            if i == k.index_spec() {
                (probable_subject(certainty) + probable_rem(certainty)) as u64
            } else {
                probable_rest(certainty) as u64
            },
    )
}

pub proof fn lemma_probable_bounds(certainty: u64)
    requires
        certainty <= SCALE,
    ensures
        UNIFORM_SLOT <= probable_subject(certainty) <= SCALE,
        0 <= probable_rest(certainty) <= UNIFORM_SLOT,
        0 <= probable_rem(certainty) < KIND_COUNT - 1,
        probable_subject(certainty) + probable_rem(certainty) + (KIND_COUNT - 1)
            * probable_rest(certainty) == SCALE,
{
    assert((SCALE - UNIFORM_SLOT) * certainty / (SCALE as int) <= SCALE - UNIFORM_SLOT)
        by (nonlinear_arith)
        requires certainty <= SCALE;
    assert((SCALE - UNIFORM_SLOT) * certainty / (SCALE as int) >= 0) by (nonlinear_arith);
    let d = SCALE - probable_subject(certainty);
    assert(0 <= d <= SCALE - UNIFORM_SLOT);
    assert(d / 4 * 4 <= d && d - d / 4 * 4 < 4 && d / 4 >= 0 && d / 4 <= d) by (nonlinear_arith)
        requires 0 <= d;
    assert(d / 4 <= UNIFORM_SLOT);
}

pub proof fn lemma_probable_is_distribution(k: ResourceKind, certainty: u64)
    requires
        certainty <= SCALE,
    ensures
        is_distribution(spec_probable(k, certainty)),
{
    lemma_probable_bounds(certainty);
    lemma_sum5(spec_probable(k, certainty));
}

/// `probable(k, 0)` is exactly the uniform distribution.
pub proof fn lemma_probable_zero_is_uniform(k: ResourceKind)
    ensures
        spec_probable(k, 0) == uniform_seq(),
{
    assert(probable_subject(0) == UNIFORM_SLOT);
    assert(probable_rest(0) == UNIFORM_SLOT);
    assert(probable_rem(0) == 0);
    assert(spec_probable(k, 0) =~= uniform_seq());
}

/// `probable(k, SCALE)` is exactly the one-hot distribution at `k`.
pub proof fn lemma_probable_full_is_one_hot(k: ResourceKind)
    ensures
        spec_probable(k, SCALE) == one_hot_seq(k),
{
    assert((SCALE - UNIFORM_SLOT) * SCALE / (SCALE as int) == SCALE - UNIFORM_SLOT) by (nonlinear_arith);
    assert(probable_subject(SCALE) == SCALE);
    assert(probable_rest(SCALE) == 0);
    assert(probable_rem(SCALE) == 0);
    assert(spec_probable(k, SCALE) =~= one_hot_seq(k));
}

/// Shrink every slot toward the uniform value: `v * (1 - rate) + rate / K`
/// in fixed point, with the rounding deficit folded into the first slot.
pub open spec fn spec_decay(s: Seq<u64>, rate: u64) -> Seq<u64> {
    top_up(scaled_seq(s, (SCALE - rate) as u64, SCALE as int, (rate as int) / (KIND_COUNT as int)))
}

pub proof fn lemma_decay_entries(s: Seq<u64>, rate: u64)
    requires
        is_distribution(s),
        rate <= SCALE,
    ensures
        forall|i: int|
            0 <= i < s.len() ==> #[trigger] (s[i] * ((SCALE - rate) as u64) / (SCALE as int))
                + (rate as int) / (KIND_COUNT as int) <= SCALE,
        forall|i: int|
            0 <= i < s.len() ==> s[i] * ((SCALE - rate) as u64) / (SCALE as int) >= 0,
{
    let keep = (SCALE - rate) as u64;
    assert forall|i: int| 0 <= i < s.len() implies (#[trigger] (s[i] * keep / (SCALE as int))
        + (rate as int) / (KIND_COUNT as int) <= SCALE) && s[i] * keep / (SCALE as int) >= 0 by {
        lemma_distribution_entry_bound(s, i);
        assert(s[i] * keep / (SCALE as int) <= keep) by (nonlinear_arith)
            requires 0 <= s[i] <= SCALE, 0 <= keep <= SCALE;
        assert(s[i] * keep / (SCALE as int) >= 0) by (nonlinear_arith)
            requires s[i] >= 0, keep >= 0;
        assert((rate as int) / (KIND_COUNT as int) <= rate);
    }
}

pub proof fn lemma_decay_is_distribution(s: Seq<u64>, rate: u64)
    requires
        is_distribution(s),
        rate <= SCALE,
    ensures
        is_distribution(spec_decay(s, rate)),
{
    let keep = (SCALE - rate) as u64;
    let fill = (rate as int) / (KIND_COUNT as int);
    lemma_decay_entries(s, rate);
    lemma_scaled_seq_sum(s, keep, SCALE as int, fill);
    assert(sum(s) * keep == keep * sum(s)) by (nonlinear_arith);
    assert(keep * (SCALE as int) / (SCALE as int) == keep) by (nonlinear_arith);
    assert((KIND_COUNT as int) * fill <= rate) by (nonlinear_arith)
        requires fill == (rate as int) / (KIND_COUNT as int), rate >= 0;
    assert(s.len() * fill <= rate);
    lemma_top_up(scaled_seq(s, keep, SCALE as int, fill));
}

/// Decay with rate zero changes nothing.
pub proof fn lemma_decay_zero_is_identity(s: Seq<u64>)
    requires
        is_distribution(s),
    ensures
        spec_decay(s, 0) == s,
{
    let scaled = scaled_seq(s, SCALE, SCALE as int, 0);
    assert forall|i: int| 0 <= i < s.len() implies scaled[i] == s[i] by {
        lemma_distribution_entry_bound(s, i);
        assert(s[i] * SCALE / (SCALE as int) == s[i]) by (nonlinear_arith)
            requires s[i] >= 0, SCALE >= 1;
    }
    assert(scaled =~= s);
    lemma_top_up(scaled);
    assert(spec_decay(s, 0) == top_up(scaled));
}

/// Decay with full rate yields exactly the uniform distribution.
pub proof fn lemma_decay_full_is_uniform(s: Seq<u64>)
    requires
        is_distribution(s),
    ensures
        spec_decay(s, SCALE) == uniform_seq(),
{
    let scaled = scaled_seq(s, 0u64, SCALE as int, (SCALE / (KIND_COUNT as u64)) as int);
    assert forall|i: int| 0 <= i < s.len() implies scaled[i] == UNIFORM_SLOT by {
        assert(s[i] * 0u64 == 0) by (nonlinear_arith);
        assert(0int / (SCALE as int) == 0) by (nonlinear_arith);
        assert(SCALE / (KIND_COUNT as u64) == 200_000u64) by (nonlinear_arith);
    }
    assert(scaled =~= uniform_seq());
    lemma_uniform_is_distribution();
    lemma_top_up(scaled);
    assert(spec_decay(s, SCALE) == top_up(scaled));
}

/// How far `x` sits from the pivot `HALF`, scaled to `[0, SCALE]`:
/// `|0.5 - x| / 0.5` in fixed point.
pub open spec fn bias(x: u64) -> int {
    if x >= HALF {
        2 * (x - HALF)
    } else {
        2 * (HALF - x)
    }
}

pub proof fn lemma_bias_bounds(x: u64)
    requires
        x <= SCALE,
    ensures
        0 <= bias(x) <= SCALE,
{
}

/// Weight kept by the own slot when blending toward another belief:
/// `(1 - t) * ti + (bias(v) * bias(o) / 2 + 1/2) * (1 - ti)` in fixed
/// point, where `ti = bias(t)` is how decisive the trust value is.
pub open spec fn blend_weight(v: u64, o: u64, t: u64) -> int {
    (SCALE - t) * bias(t) / (SCALE as int) + (bias(v) * bias(o) / (2 * (SCALE as int)) + HALF)
        * ((SCALE as int) - bias(t)) / (SCALE as int)
}

/// `x * m / d` keeps a factor `m <= d` from growing `x`.
pub proof fn lemma_mul_div_le_factor(x: int, m: int, d: int)
    requires
        0 <= x,
        0 <= m <= d,
        1 <= d,
    ensures
        0 <= x * m / d <= x,
{
    assert(0 <= x * m / d <= x) by (nonlinear_arith)
        requires 0 <= x, 0 <= m <= d, 1 <= d;
}

pub proof fn lemma_blend_weight_bounds(v: u64, o: u64, t: u64)
    requires
        v <= SCALE,
        o <= SCALE,
        t <= SCALE,
    ensures
        0 <= blend_weight(v, o, t) <= SCALE,
        0 <= (SCALE - t) * bias(t) / (SCALE as int) <= bias(t),
        0 <= bias(v) * bias(o) / (2 * (SCALE as int)) <= HALF,
        0 <= (bias(v) * bias(o) / (2 * (SCALE as int)) + HALF) * ((SCALE as int) - bias(t))
            / (SCALE as int) <= SCALE - bias(t),
{
    lemma_bias_bounds(v);
    lemma_bias_bounds(o);
    lemma_bias_bounds(t);
    let ti = bias(t);
    let bv = bias(v);
    let bo = bias(o);
    assert((SCALE - t) * ti == ti * (SCALE - t)) by (nonlinear_arith);
    lemma_mul_div_le_factor(ti, SCALE - t, SCALE as int);
    assert(0 <= bv * bo / (2 * (SCALE as int)) <= HALF) by (nonlinear_arith)
        requires 0 <= bv <= SCALE, 0 <= bo <= SCALE;
    let inner = bv * bo / (2 * (SCALE as int)) + HALF;
    assert(inner * ((SCALE as int) - ti) == ((SCALE as int) - ti) * inner) by (nonlinear_arith);
    lemma_mul_div_le_factor((SCALE as int) - ti, inner, SCALE as int);
}

/// One slot after blending: `(v * w + o * (SCALE - w)) / SCALE` with
/// `w = blend_weight(v, o, t)`.
pub open spec fn blend_slot(v: u64, o: u64, t: u64) -> int {
    ((v as int) * blend_weight(v, o, t) + (o as int) * ((SCALE as int) - blend_weight(v, o, t)))
        / (SCALE as int)
}

pub proof fn lemma_blend_slot_bounds(v: u64, o: u64, t: u64)
    requires
        v <= SCALE,
        o <= SCALE,
        t <= SCALE,
    ensures
        0 <= blend_slot(v, o, t) <= SCALE,
{
    lemma_blend_weight_bounds(v, o, t);
    let w = blend_weight(v, o, t);
    let num = (v as int) * w + (o as int) * ((SCALE as int) - w);
    assert(0 <= num <= (SCALE as int) * (SCALE as int)) by (nonlinear_arith)
        requires
            num == (v as int) * w + (o as int) * ((SCALE as int) - w),
            0 <= v <= SCALE,
            0 <= o <= SCALE,
            0 <= w <= SCALE,
    ;
    assert(0 <= num / (SCALE as int) <= SCALE) by (nonlinear_arith)
        requires 0 <= num <= (SCALE as int) * (SCALE as int);
    assert(blend_slot(v, o, t) == num / (SCALE as int));
}

/// All slots blended, before renormalization.
pub open spec fn blend_raw(a: Seq<u64>, b: Seq<u64>, t: u64) -> Seq<u64> {
    Seq::new(a.len(), |i: int| blend_slot(a[i], b[i], t) as u64)
}

/// The blended belief: per-slot trust-weighted mixture, renormalized.
pub open spec fn spec_blend(a: Seq<u64>, b: Seq<u64>, t: u64) -> Seq<u64> {
    spec_renormalize(blend_raw(a, b, t))
}

pub proof fn lemma_blend_is_distribution(a: Seq<u64>, b: Seq<u64>, t: u64)
    requires
        is_distribution(a),
        is_distribution(b),
        t <= SCALE,
    ensures
        is_distribution(spec_blend(a, b, t)),
{
    lemma_renormalize_is_distribution(blend_raw(a, b, t));
}

/// Blending a belief with itself changes nothing, whatever the trust.
pub proof fn lemma_blend_self_is_identity(a: Seq<u64>, t: u64)
    requires
        is_distribution(a),
        t <= SCALE,
    ensures
        spec_blend(a, a, t) == a,
{
    let raw = blend_raw(a, a, t);
    assert forall|i: int| 0 <= i < a.len() implies raw[i] == a[i] by {
        lemma_distribution_entry_bound(a, i);
        lemma_blend_weight_bounds(a[i], a[i], t);
        let w = blend_weight(a[i], a[i], t);
        assert((a[i] as int) * w + (a[i] as int) * ((SCALE as int) - w) == (a[i] as int) * (
        SCALE as int)) by (nonlinear_arith);
        assert((a[i] as int) * (SCALE as int) / (SCALE as int) == a[i]) by (nonlinear_arith)
            requires 0 <= a[i];
    }
    assert(raw =~= a);
    lemma_renormalize_is_distribution(raw);
}

/// Scale each slot of `slots` by `SCALE / total` and fold the rounding
/// deficit into the first slot, falling back to uniform on a zero total.
fn renormalize(slots: &mut Vec<u64>)
    requires
        old(slots)@.len() == KIND_COUNT,
        forall|i: int| 0 <= i < old(slots)@.len() ==> old(slots)@[i] <= SCALE,
    ensures
        final(slots)@ == spec_renormalize(old(slots)@),
        is_distribution(final(slots)@),
{
    let ghost s0 = slots@;
    let mut total: u64 = 0;
    let mut i: usize = 0;
    while i < KIND_COUNT
        invariant
            i <= KIND_COUNT,
            slots@ == s0,
            s0.len() == KIND_COUNT,
            forall|j: int| 0 <= j < s0.len() ==> s0[j] <= SCALE,
            total == sum(s0.take(i as int)),
            total <= i * SCALE,
        decreases KIND_COUNT - i,
    {
        proof {
            lemma_sum_take_step(s0, i as int);
        }
        total = total + slots[i];
        i = i + 1;
    }
    proof {
        lemma_sum_take_full(s0);
    }
    if total == 0 {
        let mut j: usize = 0;
        while j < KIND_COUNT
            invariant
                j <= KIND_COUNT,
                slots@.len() == KIND_COUNT,
                forall|m: int| 0 <= m < j ==> slots@[m] == UNIFORM_SLOT,
            decreases KIND_COUNT - j,
        {
            slots.set(j, UNIFORM_SLOT);
            j = j + 1;
        }
        proof {
            assert(slots@ =~= uniform_seq());
            lemma_uniform_is_distribution();
        }
    } else {
        proof {
            lemma_renormalize_entries(s0);
        }
        let ghost scaled = scaled_seq(s0, SCALE, total as int, 0);
        let mut newsum: u64 = 0;
        let mut j: usize = 0;
        while j < KIND_COUNT
            invariant
                j <= KIND_COUNT,
                slots@.len() == KIND_COUNT,
                s0.len() == KIND_COUNT,
                1 <= total <= KIND_COUNT * SCALE,
                total == sum(s0),
                scaled == scaled_seq(s0, SCALE, total as int, 0),
                forall|m: int| 0 <= m < s0.len() ==> s0[m] <= SCALE,
                forall|m: int| 0 <= m < s0.len() ==> #[trigger] (s0[m] * SCALE / (total as int))
                    + 0 <= SCALE,
                forall|m: int| j <= m < KIND_COUNT ==> slots@[m] == s0[m],
                forall|m: int| 0 <= m < j ==> slots@[m] == scaled[m],
                newsum == sum(scaled.take(j as int)),
                newsum <= j * SCALE,
            decreases KIND_COUNT - j,
        {
            proof {
                lemma_sum_take_step(scaled, j as int);
            }
            let v = slots[j] * SCALE / total;
            slots.set(j, v);
            newsum = newsum + v;
            j = j + 1;
        }
        proof {
            lemma_sum_take_full(scaled);
            assert(slots@ =~= scaled);
            lemma_renormalize_is_distribution(s0);
            lemma_scaled_seq_sum(s0, SCALE, total as int, 0);
            assert(sum(s0) * SCALE == SCALE * sum(s0)) by (nonlinear_arith);
            assert(SCALE * (total as int) / (total as int) == SCALE) by (nonlinear_arith)
                requires total >= 1;
            lemma_top_up(scaled);
        }
        let first = slots[0];
        slots.set(0, first + (SCALE - newsum));
        proof {
            assert(slots@ =~= top_up(scaled));
        }
    }
}

impl ProbabilityVector {
    pub open spec fn wf(self) -> bool {
        is_distribution(self@)
    }

    /// An identical copy of this belief.
    pub fn duplicate(&self) -> (r: Self)
        ensures
            r@ == self@,
    {
        let mut slots: Vec<u64> = Vec::new();
        let mut i: usize = 0;
        while i < self.slots.len()
            invariant
                i <= self.slots@.len(),
                slots@.len() == i,
                forall|j: int| 0 <= j < i ==> slots@[j] == self.slots@[j],
            decreases self.slots@.len() - i,
        {
            slots.push(self.slots[i]);
            i = i + 1;
        }
        proof {
            assert(slots@ =~= self.slots@);
        }
        ProbabilityVector { slots }
    }

    /// Interpolate toward uniform: each slot becomes
    /// `v * (SCALE - rate) / SCALE + rate / KIND_COUNT`, the rounding
    /// deficit going to the first slot.
    pub fn decay(&mut self, rate: u64)
        requires
            old(self).wf(),
            rate <= SCALE,
        ensures
            final(self).wf(),
            final(self)@ == spec_decay(old(self)@, rate),
    {
        let ghost s0 = self@;
        proof {
            lemma_decay_entries(s0, rate);
            lemma_decay_is_distribution(s0, rate);
            assert forall|m: int| 0 <= m < s0.len() implies s0[m] <= SCALE by {
                lemma_distribution_entry_bound(s0, m);
            }
        }
        let keep: u64 = SCALE - rate;
        let fill: u64 = rate / (KIND_COUNT as u64);
        let ghost scaled = scaled_seq(s0, keep, SCALE as int, fill as int);
        let mut newsum: u64 = 0;
        let mut j: usize = 0;
        while j < KIND_COUNT
            invariant
                j <= KIND_COUNT,
                self.slots@.len() == KIND_COUNT,
                s0.len() == KIND_COUNT,
                keep == SCALE - rate,
                rate <= SCALE,
                fill == rate / (KIND_COUNT as u64),
                scaled == scaled_seq(s0, keep, SCALE as int, fill as int),
                forall|m: int| 0 <= m < s0.len() ==> s0[m] <= SCALE,
                forall|m: int| 0 <= m < s0.len() ==> #[trigger] (s0[m] * keep / (SCALE as int))
                    + (rate as int) / (KIND_COUNT as int) <= SCALE,
                forall|m: int| j <= m < KIND_COUNT ==> self.slots@[m] == s0[m],
                forall|m: int| 0 <= m < j ==> self.slots@[m] == scaled[m],
                newsum == sum(scaled.take(j as int)),
                newsum <= j * SCALE,
            decreases KIND_COUNT - j,
        {
            proof {
                lemma_sum_take_step(scaled, j as int);
            }
            let v = self.slots[j] * keep / SCALE + fill;
            self.slots.set(j, v);
            newsum = newsum + v;
            j = j + 1;
        }
        proof {
            lemma_sum_take_full(scaled);
            assert(self.slots@ =~= scaled);
            lemma_scaled_seq_sum(s0, keep, SCALE as int, fill as int);
            assert(sum(s0) * keep == keep * sum(s0)) by (nonlinear_arith);
            assert(keep * (SCALE as int) / (SCALE as int) == keep) by (nonlinear_arith);
            assert((KIND_COUNT as int) * ((rate as int) / (KIND_COUNT as int)) <= rate) by (nonlinear_arith)
                requires rate >= 0;
            assert(s0.len() * (fill as int) <= rate);
            lemma_top_up(scaled);
        }
        let first = self.slots[0];
        self.slots.set(0, first + (SCALE - newsum));
        proof {
            assert(self.slots@ =~= top_up(scaled));
        }
    }

    /// The uniform distribution: equal mass on every kind.
    pub fn uniform() -> (r: Self)
        ensures
            r.wf(),
            r@ == uniform_seq(),
    {
        let mut slots: Vec<u64> = Vec::new();
        let mut i: usize = 0;
        while i < KIND_COUNT
            invariant
                i <= KIND_COUNT,
                slots@.len() == i,
                forall|j: int| 0 <= j < i ==> slots@[j] == UNIFORM_SLOT,
            decreases KIND_COUNT - i,
        {
            slots.push(UNIFORM_SLOT);
            i = i + 1;
        }
        proof {
            assert(slots@ =~= uniform_seq());
            lemma_uniform_is_distribution();
        }
        ProbabilityVector { slots }
    }

    /// A random belief: one positive draw per slot, renormalized. Whatever
    /// the generator returns, the result is exactly the renormalization of
    /// some positive draws.
    pub fn uniform_random(rng: &mut rand::rngs::StdRng) -> (r: Self)
        ensures
            r.wf(),
            exists|draws: Seq<u64>|
                {
                    &&& draws.len() == KIND_COUNT
                    &&& (forall|i: int| 0 <= i < draws.len() ==> 1 <= #[trigger] draws[i] <= SCALE)
                    &&& r@ == #[trigger] spec_renormalize(draws)
                },
    {
        let mut slots: Vec<u64> = Vec::new();
        let mut i: usize = 0;
        while i < KIND_COUNT
            invariant
                i <= KIND_COUNT,
                slots@.len() == i,
                forall|j: int| 0 <= j < i ==> 1 <= #[trigger] slots@[j] <= SCALE,
            decreases KIND_COUNT - i,
        {
            let draw = crate::rng::rand_below(rng, SCALE) + 1;
            slots.push(draw);
            i = i + 1;
        }
        let ghost draws0 = slots@;
        renormalize(&mut slots);
        proof {
            assert(slots@ == spec_renormalize(draws0));
        }
        ProbabilityVector { slots }
    }

    /// Distribution leaning toward kind `k` with the given certainty
    /// (`0` = uniform, `SCALE` = one-hot at `k`).
    pub fn probable(k: ResourceKind, certainty: u64) -> (r: Self)
        requires
            certainty <= SCALE,
        ensures
            r.wf(),
            r@ == spec_probable(k, certainty),
    {
        proof {
            lemma_probable_bounds(certainty);
        }
        let subject: u64 = UNIFORM_SLOT + (SCALE - UNIFORM_SLOT) * certainty / SCALE;
        let rest: u64 = (SCALE - subject) / ((KIND_COUNT - 1) as u64);
        let rem: u64 = (SCALE - subject) - rest * ((KIND_COUNT - 1) as u64);
        let mut slots: Vec<u64> = Vec::new();
        let mut i: usize = 0;
        while i < KIND_COUNT
            invariant
                i <= KIND_COUNT,
                slots@.len() == i,
                forall|j: int| 0 <= j < i ==> slots@[j] == rest,
                rest == probable_rest(certainty),
            decreases KIND_COUNT - i,
        {
            slots.push(rest);
            i = i + 1;
        }
        let target = k.index();
        slots.set(target, subject + rem);
        proof {
            assert(slots@ =~= spec_probable(k, certainty));
            lemma_probable_is_distribution(k, certainty);
        }
        ProbabilityVector { slots }
    }

    /// Pull this belief toward `other` with the given trust: per slot the
    /// own value keeps weight `blend_weight` (the more decisive side
    /// dominating at indifferent trust), then the result is renormalized.
    pub fn blend_towards(&mut self, other: &ProbabilityVector, trust: u64)
        requires
            old(self).wf(),
            other.wf(),
            trust <= SCALE,
        ensures
            final(self).wf(),
            final(self)@ == spec_blend(old(self)@, other@, trust),
    {
        let ghost a0 = self@;
        let ghost b0 = other@;
        proof {
            assert forall|m: int| 0 <= m < KIND_COUNT implies a0[m] <= SCALE && b0[m]
                <= SCALE by {
                lemma_distribution_entry_bound(a0, m);
                lemma_distribution_entry_bound(b0, m);
            }
        }
        let ti: u64 = if trust >= HALF {
            2 * (trust - HALF)
        } else {
            2 * (HALF - trust)
        };
        let mut i: usize = 0;
        while i < KIND_COUNT
            invariant
                i <= KIND_COUNT,
                self.slots@.len() == KIND_COUNT,
                a0.len() == KIND_COUNT,
                b0.len() == KIND_COUNT,
                other@ == b0,
                trust <= SCALE,
                ti == bias(trust),
                forall|m: int| 0 <= m < KIND_COUNT ==> a0[m] <= SCALE && b0[m] <= SCALE,
                forall|m: int| i <= m < KIND_COUNT ==> self.slots@[m] == a0[m],
                forall|m: int| 0 <= m < i ==> self.slots@[m] == blend_raw(a0, b0, trust)[m],
            decreases KIND_COUNT - i,
        {
            let v = self.slots[i];
            let o = other.slots[i];
            proof {
                lemma_blend_weight_bounds(v, o, trust);
                lemma_blend_slot_bounds(v, o, trust);
            }
            let bv: u64 = if v >= HALF {
                2 * (v - HALF)
            } else {
                2 * (HALF - v)
            };
            let bo: u64 = if o >= HALF {
                2 * (o - HALF)
            } else {
                2 * (HALF - o)
            };
            let term1: u64 = (SCALE - trust) * ti / SCALE;
            let inner: u64 = bv * bo / (2 * SCALE) + HALF;
            let term2: u64 = inner * (SCALE - ti) / SCALE;
            let w: u64 = term1 + term2;
            let raw = (v * w + o * (SCALE - w)) / SCALE;
            self.slots.set(i, raw);
            i = i + 1;
        }
        proof {
            assert(self.slots@ =~= blend_raw(a0, b0, trust));
            assert forall|m: int| 0 <= m < KIND_COUNT implies blend_raw(a0, b0, trust)[m]
                <= SCALE by {
                lemma_blend_slot_bounds(a0[m], b0[m], trust);
            }
        }
        renormalize(&mut self.slots);
    }

    /// Probability mass currently assigned to kind `k`.
    pub fn get(&self, k: ResourceKind) -> (r: u64)
        requires
            self.wf(),
        ensures
            r == self@[k.index_spec()],
    {
        self.slots[k.index()]
    }

    /// On a one-hot belief the plurality is exactly the carried kind.
    pub proof fn lemma_plurality_of_one_hot(k: ResourceKind)
        ensures
            ResourceKind::from_index_spec(first_max_idx(ints_of_u64(one_hot_seq(k)))) == k,
    {
        let s = ints_of_u64(one_hot_seq(k));
        assert(s[k.index_spec()] == SCALE);
        assert(is_first_max(s, k.index_spec()));
        crate::order::lemma_first_max_idx_is_first_max(s);
        crate::order::lemma_first_max_unique(s, k.index_spec(), first_max_idx(s));
    }

    /// On the uniform belief the plurality is the lowest-indexed kind.
    pub proof fn lemma_plurality_of_uniform()
        ensures
            ResourceKind::from_index_spec(first_max_idx(ints_of_u64(uniform_seq())))
                == ResourceKind::Empty,
    {
        let s = ints_of_u64(uniform_seq());
        assert(is_first_max(s, 0));
        crate::order::lemma_first_max_idx_is_first_max(s);
        crate::order::lemma_first_max_unique(s, 0, first_max_idx(s));
    }

    /// The kind with maximal mass; ties resolve to the lowest-indexed kind.
    pub fn plurality(&self) -> (r: ResourceKind)
        requires
            self.wf(),
        ensures
            r == ResourceKind::from_index_spec(first_max_idx(ints_of_u64(self@))),
            is_first_max(ints_of_u64(self@), r.index_spec()),
    {
        let i = first_max_index_u64(&self.slots);
        ResourceKind::from_index(i)
    }
}

} // verus!
