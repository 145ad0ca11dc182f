//! Properties of the pixel selection that hold for all inputs.
use vstd::prelude::*;
use crate::cli::{Cli, CliParsed, ParseCliError};
use crate::decimal::{lemma_den_positive, reaches_square, Decimal};
use crate::processor::{column_data, column_written, out_index, ChronoProcessor, SliceLayout};
use crate::stats::{
    byte_leq, channel_values, lemma_byte_leq_total, lemma_median_bounds, lemma_sorted_bytes, median2,
    quartiles2_sorted, sorted_bytes,
};
use crate::modes::{BackgroundMode, OutlierMode, OutlierSelectionMode, SelectionMode};
use crate::select::{
    channel_weight, extreme_upto, is_outlier, lemma_extreme_in_range, lemma_outlier_list_sorted,
    num_samples, outlier_list, outlier_pixel, sample, score, score_upto, spec_pixel,
    threshold_factor, weight_product, average_pixel, list_sum, round_div, channel_median2,
    outlier_input_ok, brightest, darkest, lemma_brightest_is_greatest, lemma_darkest_is_least,
    lemma_round_div_byte, brightness, all_indices, median_pixel,
};

verus! {

/// Every channel weight is at least 1.
pub proof fn lemma_weight_positive(mode: OutlierMode, data: Seq<u8>, c: nat, i: int)
    ensures
        channel_weight(mode, data, c, i) >= 1,
{
    if mode is Relative {
        let q = quartiles2_sorted(sorted_bytes(channel_values(data, c, i)));
        let x = q.2 - q.0;
        if x != 0 {
            assert(x * x >= 1) by (nonlinear_arith)
                requires x != 0;
        }
    }
}

/// The product of the channel weights is at least 1.
pub proof fn lemma_weight_product_positive(mode: OutlierMode, data: Seq<u8>, c: nat, i: int)
    ensures
        weight_product(mode, data, c, i) >= 1,
    decreases i,
{
    if i > 0 {
        lemma_weight_product_positive(mode, data, c, i - 1);
        lemma_weight_positive(mode, data, c, i - 1);
        let p = weight_product(mode, data, c, i - 1);
        let w = channel_weight(mode, data, c, i - 1);
        assert(p * w >= 1) by (nonlinear_arith)
            requires p >= 1, w >= 1;
    }
}

/// Scores are never negative.
pub proof fn lemma_score_nonnegative(mode: OutlierMode, data: Seq<u8>, c: nat, k: int, i: int)
    ensures
        score_upto(mode, data, c, k, i) >= 0,
    decreases i,
{
    if i > 0 {
        lemma_score_nonnegative(mode, data, c, k, i - 1);
        lemma_weight_positive(mode, data, c, i - 1);
        lemma_weight_product_positive(mode, data, c, i - 1);
        let a = score_upto(mode, data, c, k, i - 1);
        let w = channel_weight(mode, data, c, i - 1);
        let p = weight_product(mode, data, c, i - 1);
        let d = crate::select::deviation(data, c, k, i - 1);
        assert(a * w + d * d * p >= 0) by (nonlinear_arith)
            requires a >= 0, w >= 1, p >= 1;
    }
}

/// Raising the threshold never makes a sample an outlier: a sample that is
/// an outlier for the larger threshold is one for the smaller threshold too.
pub proof fn lemma_threshold_monotone(
    low: OutlierMode,
    high: OutlierMode,
    data: Seq<u8>,
    c: nat,
    k: int,
)
    requires
        low is Relative == high is Relative,
        Decimal::abs_le(low.spec_threshold(), high.spec_threshold()),
        is_outlier(high, data, c, k),
    ensures
        is_outlier(low, data, c, k),
{
    let tl = low.spec_threshold();
    let th = high.spec_threshold();
    lemma_same_kind_same_scores(low, high, data, c, k, c as int);
    let s = score(low, data, c, k);
    lemma_weight_product_positive(low, data, c, c as int);
    lemma_score_nonnegative(low, data, c, k, c as int);
    lemma_den_positive(tl);
    lemma_den_positive(th);
    let dl = tl.den() as int;
    let dh = th.den() as int;
    let ml = tl.num() as int;
    let mh = th.num() as int;
    let a = threshold_factor(low) * weight_product(low, data, c, c as int);
    assert(a >= 1) by (nonlinear_arith)
        requires threshold_factor(low) >= 1, weight_product(low, data, c, c as int) >= 1,
            a == threshold_factor(low) * weight_product(low, data, c, c as int);
    assert(a * (mh * mh) <= s * (dh * dh));
    assert(ml * dh <= mh * dl);
    assert(a * (ml * ml) <= s * (dl * dl)) by (nonlinear_arith)
        requires
            a * (mh * mh) <= s * (dh * dh),
            0 <= ml * dh <= mh * dl,
            dl >= 1,
            dh >= 1,
            a >= 1,
            s >= 0,
            ml >= 0,
            mh >= 0,
    {
        assert((ml * dh) * (ml * dh) <= (mh * dl) * (mh * dl)) by (nonlinear_arith)
            requires 0 <= ml * dh <= mh * dl;
        assert(s * (dh * dh) * (dl * dl) >= a * (mh * mh) * (dl * dl)) by (nonlinear_arith)
            requires a * (mh * mh) <= s * (dh * dh), dl >= 1;
        assert(a * (mh * mh) * (dl * dl) == a * ((mh * dl) * (mh * dl))) by (nonlinear_arith);
        assert(a * ((mh * dl) * (mh * dl)) >= a * ((ml * dh) * (ml * dh))) by (nonlinear_arith)
            requires (ml * dh) * (ml * dh) <= (mh * dl) * (mh * dl), a >= 1;
        assert(a * ((ml * dh) * (ml * dh)) == (a * (ml * ml)) * (dh * dh)) by (nonlinear_arith);
        assert((s * (dl * dl)) * (dh * dh) >= (a * (ml * ml)) * (dh * dh)) by (nonlinear_arith)
            requires s * (dh * dh) * (dl * dl) >= (a * (ml * ml)) * (dh * dh);
    }
}

/// Outlier modes of the same kind weigh and score the samples alike.
proof fn lemma_same_kind_same_scores(a: OutlierMode, b: OutlierMode, data: Seq<u8>, c: nat, k: int, i: int)
    requires
        a is Relative == b is Relative,
    ensures
        weight_product(a, data, c, i) == weight_product(b, data, c, i),
        score_upto(a, data, c, k, i) == score_upto(b, data, c, k, i),
    decreases i,
{
    if i > 0 {
        lemma_same_kind_same_scores(a, b, data, c, k, i - 1);
        assert(channel_weight(a, data, c, i - 1) == channel_weight(b, data, c, i - 1));
    }
}


/// The outlier list holds exactly the outliers among the first `n` samples.
pub proof fn lemma_outlier_list_complete(mode: OutlierMode, data: Seq<u8>, c: nat, n: int, k: int)
    requires
        0 <= k < n,
    ensures
        outlier_list(mode, data, c, n).contains(k) <==> is_outlier(mode, data, c, k),
    decreases n,
{
    lemma_outlier_list_sorted(mode, data, c, n);
    if k < n - 1 {
        lemma_outlier_list_complete(mode, data, c, n - 1, k);
        lemma_outlier_list_sorted(mode, data, c, n - 1);
        let p = outlier_list(mode, data, c, n - 1);
        if is_outlier(mode, data, c, n - 1) {
            assert(p.push(n - 1).contains(k) ==> p.contains(k)) by {
                if p.push(n - 1).contains(k) {
                    let q = p.push(n - 1);
                    let j = choose|j: int| 0 <= j < q.len() && #[trigger] q[j] == k;
                    assert(j < p.len());
                    assert(p[j] == k);
                }
            }
            assert(p.contains(k) ==> p.push(n - 1).contains(k)) by {
                if p.contains(k) {
                    let j = choose|j: int| 0 <= j < p.len() && p[j] == k;
                    assert(p.push(n - 1)[j] == k);
                }
            }
        }
    } else {
        let p = outlier_list(mode, data, c, n - 1);
        lemma_outlier_list_sorted(mode, data, c, n - 1);
        if is_outlier(mode, data, c, n - 1) {
            assert(p.push(n - 1)[p.len() as int] == n - 1);
        } else {
            if p.contains(k) {
                let j = choose|j: int| 0 <= j < p.len() && p[j] == k;
                assert(p[j] < n - 1);
            }
        }
    }
}

/// Invariant of the extreme search over the first `n` samples.
proof fn lemma_extreme_upto(mode: OutlierMode, data: Seq<u8>, c: nat, n: int)
    requires
        n >= 0,
    ensures
        extreme_upto(mode, data, c, n).1 >= 0,
        extreme_upto(mode, data, c, n).1 > 0 ==> {
            let e = extreme_upto(mode, data, c, n);
            &&& 0 <= e.0 < n
            &&& is_outlier(mode, data, c, e.0)
            &&& score(mode, data, c, e.0) == e.1
        },
        extreme_upto(mode, data, c, n).1 == 0 ==> extreme_upto(mode, data, c, n).0 == 0,
        forall|j: int|
            0 <= j < n && is_outlier(mode, data, c, j) ==> #[trigger] score(mode, data, c, j)
                <= extreme_upto(mode, data, c, n).1,
    decreases n,
{
    if n > 0 {
        lemma_extreme_upto(mode, data, c, n - 1);
        lemma_score_nonnegative(mode, data, c, n - 1, c as int);
    }
}

/// The extreme outlier is an outlier, and no outlier lies farther from the
/// median than it does.
pub proof fn lemma_extreme_is_farthest(mode: OutlierMode, data: Seq<u8>, c: nat)
    requires
        outlier_list(mode, data, c, num_samples(data, c)).len() > 0,
    ensures
        is_outlier(mode, data, c, extreme_upto(mode, data, c, num_samples(data, c)).0),
        forall|j: int|
            0 <= j < num_samples(data, c) && is_outlier(mode, data, c, j) ==> #[trigger] score(mode, data, c, j)
                <= score(mode, data, c, extreme_upto(mode, data, c, num_samples(data, c)).0),
{
    let n = num_samples(data, c);
    let e = extreme_upto(mode, data, c, n);
    lemma_extreme_upto(mode, data, c, n);
    lemma_outlier_list_sorted(mode, data, c, n);
    if e.1 == 0 {
        let k = outlier_list(mode, data, c, n)[0];
        assert(is_outlier(mode, data, c, k));
        lemma_score_nonnegative(mode, data, c, k, c as int);
        lemma_score_nonnegative(mode, data, c, 0, c as int);
        lemma_weight_product_positive(mode, data, c, c as int);
        let t = mode.spec_threshold();
        let a = threshold_factor(mode) * weight_product(mode, data, c, c as int);
        assert(a >= 1) by (nonlinear_arith)
            requires threshold_factor(mode) >= 1, weight_product(mode, data, c, c as int) >= 1,
                a == threshold_factor(mode) * weight_product(mode, data, c, c as int);
        let n2 = t.num() * t.num();
        let d2 = t.den() * t.den();
        assert(score(mode, data, c, k) == 0);
        assert(a * n2 <= 0) by (nonlinear_arith)
            requires a * n2 <= score(mode, data, c, k) * d2, score(mode, data, c, k) == 0;
        assert(n2 == 0) by (nonlinear_arith)
            requires a * n2 <= 0, a >= 1, n2 >= 0;
        assert(score(mode, data, c, 0) * d2 >= 0) by (nonlinear_arith)
            requires score(mode, data, c, 0) >= 0, d2 >= 0;
    }
}

/// When exactly one outlier is found, it is the output pixel, whichever
/// outlier selection mode is set.
pub proof fn lemma_single_outlier(
    mode: OutlierMode,
    sel: OutlierSelectionMode,
    bg: BackgroundMode,
    data: Seq<u8>,
    c: nat,
    r: int,
)
    requires
        c >= 1,
        outlier_list(mode, data, c, num_samples(data, c)).len() == 1,
    ensures
        outlier_pixel(mode, sel, bg, data, c, r).0 == sample(
            data,
            c,
            outlier_list(mode, data, c, num_samples(data, c))[0],
        ),
        outlier_pixel(mode, sel, bg, data, c, r).1,
{
    let n = num_samples(data, c);
    let outs = outlier_list(mode, data, c, n);
    let k = outs[0];
    lemma_outlier_list_sorted(mode, data, c, n);
    match sel {
        OutlierSelectionMode::Extreme => {
            lemma_extreme_is_farthest(mode, data, c);
            let e = extreme_upto(mode, data, c, n).0;
            lemma_extreme_in_range(mode, data, c, n);
            lemma_outlier_list_complete(mode, data, c, n, e);
            let j = choose|j: int| 0 <= j < outs.len() && outs[j] == e;
            assert(j == 0);
        },
        OutlierSelectionMode::Average => {
            let avg = average_pixel(data, c, outs);
            assert(outs.drop_last().len() == 0);
            assert forall|ch: int| 0 <= ch < c implies avg[ch] == sample(data, c, k)[ch] by {
                crate::arith::lemma_sample_index(k, n, c as int, ch);
                assert(n * c <= data.len()) by (nonlinear_arith)
                    requires n == data.len() / c, c > 0;
                assert(list_sum(data, c, outs.drop_last(), ch) == 0);
                let v = data[k * c + ch] as int;
                assert(list_sum(data, c, outs, ch) == v);
                assert((2 * v + 1) / 2 == v);
            }
            crate::arith::lemma_sample_index(k, n, c as int, 0);
            assert(n * c <= data.len()) by (nonlinear_arith)
                requires n == data.len() / c, c > 0;
            assert(avg =~= sample(data, c, k));
        },
        _ => {},
    }
}

/// The outlier flag of a pixel tells whether any sample is an outlier.
pub proof fn lemma_outlier_flag(
    mode: OutlierMode,
    sel: OutlierSelectionMode,
    bg: BackgroundMode,
    data: Seq<u8>,
    c: nat,
    r: int,
)
    ensures
        outlier_pixel(mode, sel, bg, data, c, r).1 <==> exists|k: int|
            0 <= k < num_samples(data, c) && #[trigger] is_outlier(mode, data, c, k),
{
    let n = num_samples(data, c);
    let outs = outlier_list(mode, data, c, n);
    lemma_outlier_list_sorted(mode, data, c, n);
    if outs.len() > 0 {
        assert(is_outlier(mode, data, c, outs[0]));
    } else {
        assert forall|k: int| 0 <= k < n implies !is_outlier(mode, data, c, k) by {
            lemma_outlier_list_complete(mode, data, c, n, k);
        }
    }
}

/// The random pick matters only for the random background mode, when no
/// outlier is found: otherwise the pixel is the same for every pick.
pub proof fn lemma_random_pick_only_for_random_background(
    mode: SelectionMode,
    threshold: OutlierMode,
    sel: OutlierSelectionMode,
    bg: BackgroundMode,
    data: Seq<u8>,
    c: nat,
    r1: int,
    r2: int,
)
    requires
        !(mode is Outlier && bg is Random) || outlier_list(threshold, data, c, num_samples(data, c)).len() > 0,
    ensures
        spec_pixel(mode, threshold, sel, bg, data, c, r1) == spec_pixel(mode, threshold, sel, bg, data, c, r2),
{
}

/// Copy modes output one of the input samples unchanged: the first, last or
/// extreme outlier, or the first or a random sample as background.
pub proof fn lemma_copy_modes_pick_a_sample(
    mode: OutlierMode,
    sel: OutlierSelectionMode,
    bg: BackgroundMode,
    data: Seq<u8>,
    c: nat,
    r: int,
)
    requires
        c >= 1,
        num_samples(data, c) >= 1,
        0 <= r < num_samples(data, c),
        !(sel is Average),
        !(bg is Average) && !(bg is Median),
    ensures
        exists|k: int|
            0 <= k < num_samples(data, c) && outlier_pixel(mode, sel, bg, data, c, r).0 == #[trigger] sample(
                data,
                c,
                k,
            ),
{
    let n = num_samples(data, c);
    let outs = outlier_list(mode, data, c, n);
    lemma_outlier_list_sorted(mode, data, c, n);
    lemma_extreme_in_range(mode, data, c, n);
    if outs.len() > 0 {
        match sel {
            OutlierSelectionMode::First => assert(sample(data, c, outs[0]) == sample(data, c, outs[0])),
            OutlierSelectionMode::Last => assert(sample(data, c, outs.last()) == sample(data, c, outs.last())),
            _ => {
                let e = extreme_upto(mode, data, c, n).0;
                assert(sample(data, c, e) == sample(data, c, e));
            },
        }
    } else {
        match bg {
            BackgroundMode::First => assert(sample(data, c, 0) == sample(data, c, 0)),
            _ => assert(sample(data, c, r) == sample(data, c, r)),
        }
    }
}


/// The sum of a channel over listed samples lies between `len * lo` and
/// `len * hi` when every listed value does.
proof fn lemma_list_sum_bounds(data: Seq<u8>, c: nat, idx: Seq<int>, ch: int, lo: int, hi: int)
    requires
        forall|j: int| 0 <= j < idx.len() ==> lo <= #[trigger] data[idx[j] * c + ch] <= hi,
    ensures
        idx.len() * lo <= list_sum(data, c, idx, ch) <= idx.len() * hi,
    decreases idx.len(),
{
    if idx.len() > 0 {
        let rest = idx.drop_last();
        assert forall|j: int| 0 <= j < rest.len() implies lo <= #[trigger] data[rest[j] * c + ch] <= hi by {
            assert(rest[j] == idx[j]);
        }
        lemma_list_sum_bounds(data, c, rest, ch, lo, hi);
        assert(lo <= data[idx[idx.len() - 1] * c + ch] <= hi);
        assert(idx.len() * lo == rest.len() * lo + lo) by (nonlinear_arith)
            requires idx.len() == rest.len() + 1;
        assert(idx.len() * hi == rest.len() * hi + hi) by (nonlinear_arith)
            requires idx.len() == rest.len() + 1;
    }
}

/// An averaged channel lies between the least and the greatest value that
/// the averaged samples take in that channel.
pub proof fn lemma_average_within_range(data: Seq<u8>, c: nat, idx: Seq<int>, ch: int, lo: int, hi: int)
    requires
        idx.len() >= 1,
        0 <= lo,
        hi <= 255,
        forall|j: int| 0 <= j < idx.len() ==> lo <= #[trigger] data[idx[j] * c + ch] <= hi,
    ensures
        lo <= round_div(list_sum(data, c, idx, ch), idx.len() as int) <= hi,
{
    lemma_list_sum_bounds(data, c, idx, ch, lo, hi);
    let n = idx.len() as int;
    let sum = list_sum(data, c, idx, ch);
    let q = (2 * sum + n) / (2 * n);
    assert(q * (2 * n) <= 2 * sum + n < (q + 1) * (2 * n)) by (nonlinear_arith)
        requires q == (2 * sum + n) / (2 * n), n >= 1;
    assert(lo <= q) by (nonlinear_arith)
        requires 2 * sum + n < (q + 1) * (2 * n), n * lo <= sum, n >= 1;
    assert(q <= hi) by (nonlinear_arith)
        requires q * (2 * n) <= 2 * sum + n, sum <= n * hi, n >= 1;
}

/// Parsing the command line depends on the options alone: two parses of the
/// same options both succeed with equal results, or both fail with the same
/// message.
pub proof fn lemma_parse_deterministic(
    cli: Cli,
    r1: Result<CliParsed, ParseCliError>,
    r2: Result<CliParsed, ParseCliError>,
)
    requires
        cli.parsed_as(r1),
        cli.parsed_as(r2),
    ensures
        r1 is Ok == r2 is Ok,
        r1 matches Ok(p1) ==> r2 matches Ok(p2) && p1 == p2,
        r1 matches Err(e1) ==> r2 matches Err(e2) && e1.0@ == e2.0@,
{
}

/// The distance of a sample is taken channel by channel, each channel
/// against its own median. With `d_i = 2 * median_i - 2 * data[k*c+i]`
/// (twice the difference from the median of channel `i`) and `w_i` the weight
/// of channel `i`, the score is `sum_i d_i^2 * prod_{j != i} w_j` over the
/// common denominator `weight_product = prod_i w_i`: the squared distance is
/// `sum_i d_i^2 / w_i`. In absolute mode every weight is 4.
pub proof fn lemma_score_by_channels(mode: OutlierMode, data: Seq<u8>, c: nat, k: int)
    requires
        1 <= c <= 4,
    ensures
        ({
            let d0 = channel_median2(data, c, 0) - 2 * data[k * c + 0];
            let d1 = channel_median2(data, c, 1) - 2 * data[k * c + 1];
            let d2 = channel_median2(data, c, 2) - 2 * data[k * c + 2];
            let d3 = channel_median2(data, c, 3) - 2 * data[k * c + 3];
            let w0 = channel_weight(mode, data, c, 0);
            let w1 = channel_weight(mode, data, c, 1);
            let w2 = channel_weight(mode, data, c, 2);
            let w3 = channel_weight(mode, data, c, 3);
            let s = score(mode, data, c, k);
            let wp = weight_product(mode, data, c, c as int);
            &&& c == 1 ==> s == d0 * d0 && wp == w0
            &&& c == 2 ==> s == d0 * d0 * w1 + d1 * d1 * w0 && wp == w0 * w1
            &&& c == 3 ==> s == d0 * d0 * (w1 * w2) + d1 * d1 * (w0 * w2) + d2 * d2 * (w0 * w1) && wp
                == w0 * w1 * w2
            &&& c == 4 ==> s == d0 * d0 * (w1 * w2 * w3) + d1 * d1 * (w0 * w2 * w3) + d2 * d2 * (w0
                * w1 * w3) + d3 * d3 * (w0 * w1 * w2) && wp == w0 * w1 * w2 * w3
            &&& !(mode is Relative) ==> w0 == 4 && w1 == 4 && w2 == 4 && w3 == 4
        }),
{
    let d0 = channel_median2(data, c, 0) - 2 * data[k * c + 0];
    let d1 = channel_median2(data, c, 1) - 2 * data[k * c + 1];
    let d2 = channel_median2(data, c, 2) - 2 * data[k * c + 2];
    let d3 = channel_median2(data, c, 3) - 2 * data[k * c + 3];
    let w0 = channel_weight(mode, data, c, 0);
    let w1 = channel_weight(mode, data, c, 1);
    let w2 = channel_weight(mode, data, c, 2);
    let w3 = channel_weight(mode, data, c, 3);
    assert(weight_product(mode, data, c, 0) == 1);
    assert(score_upto(mode, data, c, k, 0) == 0);
    let p1 = weight_product(mode, data, c, 1);
    let p2 = weight_product(mode, data, c, 2);
    let p3 = weight_product(mode, data, c, 3);
    let p4 = weight_product(mode, data, c, 4);
    assert(p1 == 1 * w0);
    assert(p2 == p1 * w1);
    assert(p3 == p2 * w2);
    assert(p4 == p3 * w3);
    let s1 = score_upto(mode, data, c, k, 1);
    let s2 = score_upto(mode, data, c, k, 2);
    let s3 = score_upto(mode, data, c, k, 3);
    let s4 = score_upto(mode, data, c, k, 4);
    let e0 = d0 * d0;
    let e1 = d1 * d1;
    let e2 = d2 * d2;
    let e3 = d3 * d3;
    assert(s1 == 0 * w0 + e0 * 1);
    assert(s2 == s1 * w1 + e1 * p1);
    assert(s3 == s2 * w2 + e2 * p2);
    assert(s4 == s3 * w3 + e3 * p3);
    assert(p3 == w0 * w1 * w2) by (nonlinear_arith)
        requires p3 == p2 * w2, p2 == p1 * w1, p1 == 1 * w0;
    assert(p4 == w0 * w1 * w2 * w3) by (nonlinear_arith)
        requires p4 == p3 * w3, p3 == w0 * w1 * w2;
    assert(s2 == e0 * w1 + e1 * w0) by (nonlinear_arith)
        requires s1 == 0 * w0 + e0 * 1, s2 == s1 * w1 + e1 * p1, p1 == 1 * w0;
    assert(s3 == e0 * (w1 * w2) + e1 * (w0 * w2) + e2 * (w0 * w1)) by (nonlinear_arith)
        requires s2 == e0 * w1 + e1 * w0, s3 == s2 * w2 + e2 * p2, p2 == w0 * w1;
    let x0 = e0 * (w1 * w2);
    let x1 = e1 * (w0 * w2);
    let x2 = e2 * (w0 * w1);
    assert(s3 * w3 == x0 * w3 + x1 * w3 + x2 * w3) by (nonlinear_arith)
        requires s3 == x0 + x1 + x2;
    assert(x0 * w3 == e0 * (w1 * w2 * w3)) by (nonlinear_arith)
        requires x0 == e0 * (w1 * w2);
    assert(x1 * w3 == e1 * (w0 * w2 * w3)) by (nonlinear_arith)
        requires x1 == e1 * (w0 * w2);
    assert(x2 * w3 == e2 * (w0 * w1 * w3)) by (nonlinear_arith)
        requires x2 == e2 * (w0 * w1);
    assert(e3 * p3 == e3 * (w0 * w1 * w2));
    assert(s4 == e0 * (w1 * w2 * w3) + e1 * (w0 * w2 * w3) + e2 * (w0 * w1 * w3) + e3 * (w0 * w1 * w2));
}

/// When every image shows the same value at a pixel, every sample lies at
/// distance 0 from the per-channel medians, so no sample is an outlier for any
/// threshold other than zero.
pub proof fn lemma_identical_samples_no_outlier(mode: OutlierMode, data: Seq<u8>, c: nat, k: int)
    requires
        outlier_input_ok(data, c),
        0 <= k < num_samples(data, c),
        forall|j: int, i: int|
            0 <= j < num_samples(data, c) && 0 <= i < c ==> #[trigger] data[j * c + i] == data[i],
        !(mode.spec_threshold() is Finite) || mode.spec_threshold().num() > 0,
    ensures
        score(mode, data, c, k) == 0,
        !is_outlier(mode, data, c, k),
{
    let n = num_samples(data, c);
    assert forall|i: int| 0 <= i < c implies channel_median2(data, c, i) == 2 * data[k * c + i] by {
        let vals = channel_values(data, c, i);
        assert forall|j: int| 0 <= j < vals.len() implies vals[j] == data[i] by {
            assert(vals[j] == data[j * c + i]);
        }
        assert(data[k * c + i] == data[i]);
        assert(vals.len() == n);
        lemma_median_bounds(vals);
    }
    lemma_score_by_channels(mode, data, c, k);
    let d0 = channel_median2(data, c, 0) - 2 * data[k * c + 0];
    let d1 = channel_median2(data, c, 1) - 2 * data[k * c + 1];
    let d2 = channel_median2(data, c, 2) - 2 * data[k * c + 2];
    let d3 = channel_median2(data, c, 3) - 2 * data[k * c + 3];
    let w0 = channel_weight(mode, data, c, 0);
    let w1 = channel_weight(mode, data, c, 1);
    let w2 = channel_weight(mode, data, c, 2);
    let w3 = channel_weight(mode, data, c, 3);
    let s = score(mode, data, c, k);
    assert(d0 == 0);
    if c >= 2 {
        assert(d1 == 0);
    }
    if c >= 3 {
        assert(d2 == 0);
    }
    if c >= 4 {
        assert(d3 == 0);
    }
    assert(s == 0) by (nonlinear_arith)
        requires
            c == 1 ==> s == d0 * d0,
            c == 2 ==> s == d0 * d0 * w1 + d1 * d1 * w0,
            c == 3 ==> s == d0 * d0 * (w1 * w2) + d1 * d1 * (w0 * w2) + d2 * d2 * (w0 * w1),
            c == 4 ==> s == d0 * d0 * (w1 * w2 * w3) + d1 * d1 * (w0 * w2 * w3) + d2 * d2 * (w0 * w1
                * w3) + d3 * d3 * (w0 * w1 * w2),
            1 <= c <= 4,
            d0 == 0,
            c >= 2 ==> d1 == 0,
            c >= 3 ==> d2 == 0,
            c >= 4 ==> d3 == 0,
    ;
    let t = mode.spec_threshold();
    if t is Finite {
        lemma_weight_product_positive(mode, data, c, c as int);
        let a = threshold_factor(mode) * weight_product(mode, data, c, c as int);
        assert(a >= 1) by (nonlinear_arith)
            requires threshold_factor(mode) >= 1, weight_product(mode, data, c, c as int) >= 1,
                a == threshold_factor(mode) * weight_product(mode, data, c, c as int);
        let nn = t.num() * t.num();
        assert(nn >= 1) by (nonlinear_arith)
            requires nn == t.num() * t.num(), t.num() > 0;
        assert(a * nn > s * (t.den() * t.den())) by (nonlinear_arith)
            requires a >= 1, nn >= 1, s == 0;
    }
}

/// Sum of channel `ch` over the outliers among the first `n` samples.
pub open spec fn outlier_channel_sum(mode: OutlierMode, data: Seq<u8>, c: nat, n: int, ch: int) -> int
    decreases n,
{
    if n <= 0 {
        0
    } else {
        outlier_channel_sum(mode, data, c, n - 1, ch) + if is_outlier(mode, data, c, n - 1) {
            data[(n - 1) * c + ch] as int
        } else {
            0
        }
    }
}

/// How many of the first `n` samples are outliers.
pub open spec fn outlier_count(mode: OutlierMode, data: Seq<u8>, c: nat, n: int) -> int
    decreases n,
{
    if n <= 0 {
        0
    } else {
        outlier_count(mode, data, c, n - 1) + if is_outlier(mode, data, c, n - 1) {
            1int
        } else {
            0
        }
    }
}

/// The outlier list holds every outlier: its length is their count and its
/// channel sums are theirs.
proof fn lemma_outlier_list_sums(mode: OutlierMode, data: Seq<u8>, c: nat, n: int, ch: int)
    ensures
        outlier_list(mode, data, c, n).len() == outlier_count(mode, data, c, n),
        list_sum(data, c, outlier_list(mode, data, c, n), ch) == outlier_channel_sum(mode, data, c, n, ch),
        0 <= outlier_channel_sum(mode, data, c, n, ch) <= 255 * outlier_count(mode, data, c, n),
    decreases n,
{
    if n > 0 {
        lemma_outlier_list_sums(mode, data, c, n - 1, ch);
        let p = outlier_list(mode, data, c, n - 1);
        if is_outlier(mode, data, c, n - 1) {
            assert(p.push(n - 1).drop_last() =~= p);
            assert(p.push(n - 1).last() == n - 1);
        }
    }
}

/// With average selection and at least one outlier, each channel of the
/// result is the mean of that channel over all outliers, rounded to the
/// nearest integer with halves up: with `S` the channel sum over the
/// outliers and `N` their number, `2*N*v <= 2*S + N < 2*N*(v + 1)`.
pub proof fn lemma_average_selection_is_mean(
    mode: OutlierMode,
    bg: BackgroundMode,
    data: Seq<u8>,
    c: nat,
    r: int,
    ch: int,
)
    requires
        outlier_input_ok(data, c),
        0 <= ch < c,
        outlier_count(mode, data, c, num_samples(data, c)) >= 1,
    ensures
        ({
            let n = num_samples(data, c);
            let res = outlier_pixel(mode, OutlierSelectionMode::Average, bg, data, c, r);
            let v = res.0[ch] as int;
            let s = outlier_channel_sum(mode, data, c, n, ch);
            let cnt = outlier_count(mode, data, c, n);
            &&& res.1
            &&& res.0.len() == c
            &&& 2 * cnt * v <= 2 * s + cnt
            &&& 2 * s + cnt < 2 * cnt * (v + 1)
        }),
{
    let n = num_samples(data, c);
    lemma_outlier_list_sums(mode, data, c, n, ch);
    let outs = outlier_list(mode, data, c, n);
    let s = outlier_channel_sum(mode, data, c, n, ch);
    let cnt = outlier_count(mode, data, c, n);
    assert(outs.len() > 0);
    let avg = average_pixel(data, c, outs);
    assert(avg[ch] == round_div(s, cnt) as u8);
    lemma_round_div_byte(s, cnt);
    let q = (2 * s + cnt) / (2 * cnt);
    assert(q == round_div(s, cnt));
    vstd::arithmetic::div_mod::lemma_fundamental_div_mod(2 * s + cnt, 2 * cnt);
    vstd::arithmetic::div_mod::lemma_mod_pos_bound(2 * s + cnt, 2 * cnt);
    let m = (2 * s + cnt) % (2 * cnt);
    assert(2 * cnt * q <= 2 * s + cnt) by (nonlinear_arith)
        requires 2 * s + cnt == (2 * cnt) * q + m, m >= 0;
    assert(2 * s + cnt < 2 * cnt * (q + 1)) by (nonlinear_arith)
        requires 2 * s + cnt == (2 * cnt) * q + m, m < 2 * cnt;
}

/// The red + green + blue sum of sample `k`, its first three bytes added up.
pub open spec fn rgb_sum(data: Seq<u8>, c: nat, k: int) -> int {
    data[k * c] as int + data[k * c + 1] as int + data[k * c + 2] as int
}

/// Darker picks the first sample whose red + green + blue sum is least, and
/// lighter the first sample whose sum is greatest.
pub proof fn lemma_darker_lighter_by_rgb_sum(data: Seq<u8>, c: nat, n: int)
    requires
        n >= 1,
    ensures
        0 <= darkest(data, c, n) < n,
        0 <= brightest(data, c, n) < n,
        forall|k: int|
            #![trigger rgb_sum(data, c, k)]
            0 <= k < n ==> rgb_sum(data, c, darkest(data, c, n)) <= rgb_sum(data, c, k) <= rgb_sum(
                data,
                c,
                brightest(data, c, n),
            ),
        forall|k: int|
            #![trigger rgb_sum(data, c, k)]
            0 <= k < darkest(data, c, n) ==> rgb_sum(data, c, darkest(data, c, n)) < rgb_sum(data, c, k),
        forall|k: int|
            #![trigger rgb_sum(data, c, k)]
            0 <= k < brightest(data, c, n) ==> rgb_sum(data, c, k) < rgb_sum(data, c, brightest(data, c, n)),
{
    lemma_darkest_is_least(data, c, n);
    lemma_brightest_is_greatest(data, c, n);
    assert forall|k: int| #![trigger rgb_sum(data, c, k)]
        0 <= k < n implies rgb_sum(data, c, darkest(data, c, n)) <= rgb_sum(data, c, k) <= rgb_sum(
            data,
            c,
            brightest(data, c, n),
        ) by {
        assert(brightness(data, c, k) == rgb_sum(data, c, k));
        assert(brightness(data, c, darkest(data, c, n)) <= brightness(data, c, k));
        assert(brightness(data, c, k) <= brightness(data, c, brightest(data, c, n)));
    }
    assert forall|k: int| #![trigger rgb_sum(data, c, k)]
        0 <= k < darkest(data, c, n) implies rgb_sum(data, c, darkest(data, c, n)) < rgb_sum(data, c, k) by {
        assert(brightness(data, c, k) == rgb_sum(data, c, k));
        assert(brightness(data, c, darkest(data, c, n)) < brightness(data, c, k));
    }
    assert forall|k: int| #![trigger rgb_sum(data, c, k)]
        0 <= k < brightest(data, c, n) implies rgb_sum(data, c, k) < rgb_sum(data, c, brightest(data, c, n)) by {
        assert(brightness(data, c, k) == rgb_sum(data, c, k));
        assert(brightness(data, c, k) < brightness(data, c, brightest(data, c, n)));
    }
}

/// Any quality from 1 to 100 is taken as given and 95 is the default; 0 and
/// anything above 100 are refused.
pub proof fn lemma_quality_range(cli: Cli, r: Result<CliParsed, ParseCliError>, q: u8)
    requires
        cli.parsed_as(r),
    ensures
        cli.quality == Some(q) && 1 <= q <= 100 ==> (r matches Ok(p) && p.quality == q),
        cli.quality == Some(q) && (q == 0 || q > 100) ==> r is Err,
        cli.quality is None ==> (r matches Ok(p) && p.quality == 95),
{
}

/// In the outlier mask the colour channels (the first three) are 255 where
/// the chosen pixel is an outlier and 0 elsewhere; every further channel
/// (alpha) is 255 either way.
pub proof fn lemma_mask_bytes(
    proc: ChronoProcessor,
    data: Seq<u8>,
    layout: SliceLayout,
    num_rows: nat,
    out_row: int,
    buffer: Seq<u8>,
    mask: Seq<u8>,
    col: int,
    r: int,
    ch: int,
)
    requires
        column_written(proc, data, layout, num_rows, out_row, buffer, mask, col, r),
        0 <= out_index(layout, out_row, col),
        out_index(layout, out_row, col) + layout.width_stride <= mask.len(),
        0 <= ch < layout.width_stride,
    ensures
        mask[out_index(layout, out_row, col) + ch] == (if ch >= 3 {
            255u8
        } else if proc.pixel_of(column_data(data, layout, num_rows, col), layout.width_stride as nat, r).1 {
            255u8
        } else {
            0u8
        }),
{
    let start = out_index(layout, out_row, col);
    assert(mask.subrange(start, start + layout.width_stride)[ch] == mask[start + ch]);
}

/// Sum of channel `ch` over the first `n` samples.
pub open spec fn channel_total(data: Seq<u8>, c: nat, n: int, ch: int) -> int
    decreases n,
{
    if n <= 0 {
        0
    } else {
        channel_total(data, c, n - 1, ch) + data[(n - 1) * c + ch] as int
    }
}

/// Summing over all indices is summing over the first `n` samples.
proof fn lemma_all_indices_sum(data: Seq<u8>, c: nat, n: int, ch: int)
    requires
        n >= 0,
    ensures
        list_sum(data, c, all_indices(n), ch) == channel_total(data, c, n, ch),
        0 <= channel_total(data, c, n, ch) <= 255 * n,
        all_indices(n).len() == n,
    decreases n,
{
    if n > 0 {
        lemma_all_indices_sum(data, c, n - 1, ch);
        assert(all_indices(n).drop_last() =~= all_indices(n - 1));
        assert(all_indices(n).last() == n - 1);
    }
}

/// Rounding to the nearest integer, halves up: `v = round_div(s, n)` is the
/// integer with `2*n*v <= 2*s + n < 2*n*(v + 1)`.
proof fn lemma_round_div_nearest(s: int, n: int)
    requires
        n >= 1,
        s >= 0,
    ensures
        2 * n * round_div(s, n) <= 2 * s + n < 2 * n * (round_div(s, n) + 1),
{
    let q = round_div(s, n);
    vstd::arithmetic::div_mod::lemma_fundamental_div_mod(2 * s + n, 2 * n);
    vstd::arithmetic::div_mod::lemma_mod_pos_bound(2 * s + n, 2 * n);
    let m = (2 * s + n) % (2 * n);
    assert(2 * n * q <= 2 * s + n) by (nonlinear_arith)
        requires 2 * s + n == (2 * n) * q + m, m >= 0;
    assert(2 * s + n < 2 * n * (q + 1)) by (nonlinear_arith)
        requires 2 * s + n == (2 * n) * q + m, m < 2 * n;
}

/// Which pixel the outlier analysis outputs. It is flagged exactly when some
/// sample is an outlier. Then it is, by selection mode: first – the outlier
/// of least index; last – the outlier of greatest index; extreme – an
/// outlier whose score no outlier exceeds. Without outliers it is, by
/// background mode: first – the first sample; random – the picked sample;
/// average – per channel the mean over all samples, rounded to the nearest
/// integer with halves up; median – per channel the median, rounded likewise.
pub proof fn lemma_outlier_pixel_choice(
    mode: OutlierMode,
    sel: OutlierSelectionMode,
    bg: BackgroundMode,
    data: Seq<u8>,
    c: nat,
    r: int,
)
    requires
        outlier_input_ok(data, c),
    ensures
        ({
            let n = num_samples(data, c);
            let res = outlier_pixel(mode, sel, bg, data, c, r);
            let found = outlier_count(mode, data, c, n) >= 1;
            &&& res.1 == found
            &&& found && sel is First ==> exists|f: int|
                0 <= f < n && is_outlier(mode, data, c, f) && res.0 == sample(data, c, f) && (forall|j: int|
                    0 <= j < f ==> !#[trigger] is_outlier(mode, data, c, j))
            &&& found && sel is Last ==> exists|l: int|
                0 <= l < n && is_outlier(mode, data, c, l) && res.0 == sample(data, c, l) && (forall|j: int|
                    l < j < n ==> !#[trigger] is_outlier(mode, data, c, j))
            &&& found && sel is Extreme ==> exists|e: int|
                0 <= e < n && is_outlier(mode, data, c, e) && res.0 == sample(data, c, e) && (forall|j: int|
                    0 <= j < n && is_outlier(mode, data, c, j) ==> #[trigger] score(mode, data, c, j) <= score(
                        mode,
                        data,
                        c,
                        e,
                    ))
            &&& !found && bg is First ==> res.0 == sample(data, c, 0)
            &&& !found && bg is Random ==> res.0 == sample(data, c, r)
            &&& !found && bg is Average ==> res.0.len() == c && forall|ch: int|
                0 <= ch < c ==> 2 * n * (#[trigger] res.0[ch]) <= 2 * channel_total(data, c, n, ch) + n
                    < 2 * n * (res.0[ch] + 1)
            &&& !found && bg is Median ==> res.0.len() == c && forall|ch: int|
                0 <= ch < c ==> #[trigger] res.0[ch] as int == (channel_median2(data, c, ch) + 1) / 2
        }),
{
    let n = num_samples(data, c);
    let outs = outlier_list(mode, data, c, n);
    let res = outlier_pixel(mode, sel, bg, data, c, r);
    lemma_outlier_list_sums(mode, data, c, n, 0);
    lemma_outlier_list_sorted(mode, data, c, n);
    assert(n >= 1) by (nonlinear_arith)
        requires n == data.len() / c, data.len() >= c, c >= 1;
    if outs.len() > 0 {
        match sel {
            OutlierSelectionMode::First => {
                let f = outs[0];
                assert forall|j: int| 0 <= j < f implies !#[trigger] is_outlier(mode, data, c, j) by {
                    if is_outlier(mode, data, c, j) {
                        lemma_outlier_list_complete(mode, data, c, n, j);
                        let i = choose|i: int| 0 <= i < outs.len() && outs[i] == j;
                        if i > 0 {
                            assert(outs[0] < outs[i]);
                        }
                    }
                }
                assert(is_outlier(mode, data, c, f));
            },
            OutlierSelectionMode::Last => {
                let l = outs.last();
                assert forall|j: int| l < j < n implies !#[trigger] is_outlier(mode, data, c, j) by {
                    if is_outlier(mode, data, c, j) {
                        lemma_outlier_list_complete(mode, data, c, n, j);
                        let i = choose|i: int| 0 <= i < outs.len() && outs[i] == j;
                        if i < outs.len() - 1 {
                            assert(outs[i] < outs[outs.len() - 1]);
                        }
                    }
                }
                assert(is_outlier(mode, data, c, l));
            },
            OutlierSelectionMode::Extreme => {
                lemma_extreme_is_farthest(mode, data, c);
                lemma_extreme_in_range(mode, data, c, n);
            },
            _ => {},
        }
    } else {
        match bg {
            BackgroundMode::Average => {
                assert forall|ch: int| 0 <= ch < c implies 2 * n * (#[trigger] res.0[ch]) <= 2 * channel_total(
                    data,
                    c,
                    n,
                    ch,
                ) + n < 2 * n * (res.0[ch] + 1) by {
                    lemma_all_indices_sum(data, c, n, ch);
                    let t = channel_total(data, c, n, ch);
                    lemma_round_div_byte(t, n);
                    lemma_round_div_nearest(t, n);
                    assert(res.0[ch] == round_div(t, n) as u8);
                }
            },
            BackgroundMode::Median => {
                assert forall|ch: int| 0 <= ch < c implies #[trigger] res.0[ch] as int == (channel_median2(
                    data,
                    c,
                    ch,
                ) + 1) / 2 by {
                    let vals = channel_values(data, c, ch);
                    assert(vals.len() == n);
                    lemma_median_bounds(vals);
                    let m = channel_median2(data, c, ch);
                    assert(0 <= m <= 510);
                    assert(res.0 == median_pixel(data, c));
                }
            },
            _ => {},
        }
    }
}

/// The median is read from the values in ascending order: for any ascending
/// arrangement `t` of the values of `s`, twice the median is
/// `t[(n-1)/2] + t[n/2]`, the middle value doubled for an odd count and the
/// two middle values added for an even one.
pub proof fn lemma_median_of_ascending(s: Seq<u8>, t: Seq<u8>)
    requires
        s.len() > 0,
        t.to_multiset() == s.to_multiset(),
        forall|i: int, j: int| 0 <= i <= j < t.len() ==> t[i] <= t[j],
    ensures
        t.len() == s.len(),
        median2(s) == t[(t.len() - 1) / 2] as int + t[(t.len() / 2) as int] as int,
{
    lemma_sorted_bytes(s);
    lemma_byte_leq_total();
    assert(vstd::relations::sorted_by(t, byte_leq())) by {
        assert forall|i: int, j: int| 0 <= i < j < t.len() implies #[trigger] byte_leq()(t[i], t[j]) by {}
    }
    vstd::seq_lib::lemma_sorted_unique(sorted_bytes(s), t, byte_leq());
    assert(sorted_bytes(s) == t);
}

/// The values of one output pixel are taken from the same column of every
/// image row of the slice: byte `ch` of sample `k` is byte `ch` of pixel
/// `col` in row `k`.
pub proof fn lemma_column_data_sample(data: Seq<u8>, layout: SliceLayout, num_rows: nat, col: int, k: int, ch: int)
    requires
        0 <= k < num_rows,
        0 <= ch < layout.width_stride,
    ensures
        column_data(data, layout, num_rows, col).len() == num_rows * layout.width_stride,
        column_data(data, layout, num_rows, col)[k * layout.width_stride + ch] == data[k
            * layout.height_stride + col * layout.width_stride + ch],
{
    let c = layout.width_stride as int;
    let j = k * c + ch;
    crate::arith::lemma_sample_index(k, num_rows as int, c, ch);
    vstd::arithmetic::div_mod::lemma_fundamental_div_mod_converse(j, c, k, ch);
}

/// Sum over the first `i` channels of the squared doubled difference between
/// the channel's median and sample `k`.
pub open spec fn squared_deviation_sum(data: Seq<u8>, c: nat, k: int, i: int) -> int
    decreases i,
{
    if i <= 0 {
        0
    } else {
        let d = channel_median2(data, c, i - 1) - 2 * data[k * c + i - 1];
        squared_deviation_sum(data, c, k, i - 1) + d * d
    }
}

/// In absolute mode a sample is an outlier exactly when its Euclidean
/// distance from the per-channel medians reaches the threshold as a fraction
/// of the colour range: `sum_i (median_i - v_i)^2 >= (255 t)^2`, written in
/// doubled units as `4 * 255^2 * t^2 <= sum_i (2 median_i - 2 v_i)^2`, with
/// `t = num / den`. Infinite and not-a-number thresholds mark no outlier.
pub proof fn lemma_absolute_outlier_distance(mode: OutlierMode, data: Seq<u8>, c: nat, k: int)
    requires
        mode is Absolute,
        1 <= c <= 4,
    ensures
        is_outlier(mode, data, c, k) == (mode.spec_threshold() is Finite && 4 * 65025 * (
        mode.spec_threshold().num() * mode.spec_threshold().num()) <= squared_deviation_sum(
            data,
            c,
            k,
            c as int,
        ) * (mode.spec_threshold().den() * mode.spec_threshold().den())),
{
    lemma_score_by_channels(mode, data, c, k);
    let t = mode.spec_threshold();
    let nn = t.num() * t.num();
    let dd = t.den() * t.den();
    let d0 = channel_median2(data, c, 0) - 2 * data[k * c + 0];
    let d1 = channel_median2(data, c, 1) - 2 * data[k * c + 1];
    let d2 = channel_median2(data, c, 2) - 2 * data[k * c + 2];
    let d3 = channel_median2(data, c, 3) - 2 * data[k * c + 3];
    let sq = squared_deviation_sum(data, c, k, c as int);
    assert(squared_deviation_sum(data, c, k, 0) == 0);
    assert(squared_deviation_sum(data, c, k, 1) == d0 * d0);
    assert(squared_deviation_sum(data, c, k, 2) == d0 * d0 + d1 * d1);
    assert(squared_deviation_sum(data, c, k, 3) == d0 * d0 + d1 * d1 + d2 * d2);
    assert(squared_deviation_sum(data, c, k, 4) == d0 * d0 + d1 * d1 + d2 * d2 + d3 * d3);
    let s = score(mode, data, c, k);
    let wp = weight_product(mode, data, c, c as int);
    // score = 4^(c-1) * sq and weight_product = 4^c
    let f: int = if c == 1 { 1 } else if c == 2 { 4 } else if c == 3 { 16 } else { 64 };
    assert(s == f * sq && wp == 4 * f) by (nonlinear_arith)
        requires
            c == 1 ==> s == d0 * d0 && wp == 4,
            c == 2 ==> s == d0 * d0 * 4 + d1 * d1 * 4 && wp == 4 * 4,
            c == 3 ==> s == d0 * d0 * (4 * 4) + d1 * d1 * (4 * 4) + d2 * d2 * (4 * 4) && wp == 4 * 4 * 4,
            c == 4 ==> s == d0 * d0 * (4 * 4 * 4) + d1 * d1 * (4 * 4 * 4) + d2 * d2 * (4 * 4 * 4) + d3
                * d3 * (4 * 4 * 4) && wp == 4 * 4 * 4 * 4,
            c == 1 ==> sq == d0 * d0,
            c == 2 ==> sq == d0 * d0 + d1 * d1,
            c == 3 ==> sq == d0 * d0 + d1 * d1 + d2 * d2,
            c == 4 ==> sq == d0 * d0 + d1 * d1 + d2 * d2 + d3 * d3,
            f == (if c == 1 { 1int } else if c == 2 { 4int } else if c == 3 { 16int } else { 64int }),
            1 <= c <= 4,
    ;
    assert(threshold_factor(mode) == 65025);
    assert((65025 * wp) * nn <= s * dd <==> 4 * 65025 * nn <= sq * dd) by (nonlinear_arith)
        requires s == f * sq, wp == 4 * f, f >= 1;
    assert(is_outlier(mode, data, c, k) == reaches_square(t, s, 65025 * wp));
}

} // verus!
