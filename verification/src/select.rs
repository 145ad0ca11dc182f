//! Choosing the output value of one pixel from the values it takes in all
//! images of the stack.
//!
//! The values of a pixel come as one interleaved buffer: sample `k` (the pixel
//! in image `k`) occupies bytes `k * c .. k * c + c`, `c` being the number of
//! colour channels.
use vstd::prelude::*;
use crate::arith::lemma_sample_index;
use crate::decimal::{reaches_square, SQUARE_BOUND};
use crate::modes::{BackgroundMode, OutlierMode, OutlierSelectionMode, SelectionMode};
use crate::stats::{
    channel_values, median, median2, quartiles, quartiles2_sorted, sorted_bytes, sorted_channel,
};

verus! {

/// The number of whole samples in the buffer.
pub open spec fn num_samples(data: Seq<u8>, c: nat) -> int {
    (data.len() / c) as int
}

/// The `c` bytes of sample `k`.
pub open spec fn sample(data: Seq<u8>, c: nat, k: int) -> Seq<u8> {
    data.subrange(k * c, k * c + c)
}

/// Brightness of sample `k`: the sum of its first three channels (red, green, blue).
pub open spec fn brightness(data: Seq<u8>, c: nat, k: int) -> int {
    data[k * c] as int + data[k * c + 1] as int + data[k * c + 2] as int
}

/// Among the first `n` samples, the first one of least brightness.
pub open spec fn darkest(data: Seq<u8>, c: nat, n: int) -> int
    decreases n,
{
    if n <= 1 {
        0
    } else {
        let p = darkest(data, c, n - 1);
        if brightness(data, c, n - 1) < brightness(data, c, p) {
            n - 1
        } else {
            p
        }
    }
}

/// Among the first `n` samples, the first one of greatest brightness.
pub open spec fn brightest(data: Seq<u8>, c: nat, n: int) -> int
    decreases n,
{
    if n <= 1 {
        0
    } else {
        let p = brightest(data, c, n - 1);
        if brightness(data, c, n - 1) > brightness(data, c, p) {
            n - 1
        } else {
            p
        }
    }
}

/// What the selection by brightness needs: samples with at least three
/// channels, and at least one sample.
pub open spec fn brightness_input_ok(data: Seq<u8>, c: nat) -> bool {
    c >= 3 && data.len() >= c
}

/// What the outlier analysis needs: one to four channels, whole samples,
/// and at least one sample.
pub open spec fn outlier_input_ok(data: Seq<u8>, c: nat) -> bool {
    1 <= c <= 4 && data.len() % c == 0 && data.len() >= c
}

/// Twice the median of channel `i`.
pub open spec fn channel_median2(data: Seq<u8>, c: nat, i: int) -> int {
    median2(channel_values(data, c, i))
}

/// The squared scale of channel `i` in half units: distances in that channel
/// are divided by `sqrt(channel_weight)`, counted in halves of a colour
/// step. In absolute mode this is 4 (a plain colour step); in relative mode
/// it is the squared doubled inter-quartile range, or 4 when that range is 0.
pub open spec fn channel_weight(mode: OutlierMode, data: Seq<u8>, c: nat, i: int) -> int {
    if mode is Relative {
        let q = quartiles2_sorted(sorted_bytes(channel_values(data, c, i)));
        let iqr = q.2 - q.0;
        if iqr == 0 {
            4
        } else {
            iqr * iqr
        }
    } else {
        4
    }
}

/// Product of the weights of the first `i` channels.
pub open spec fn weight_product(mode: OutlierMode, data: Seq<u8>, c: nat, i: int) -> int
    decreases i,
{
    if i <= 0 {
        1
    } else {
        weight_product(mode, data, c, i - 1) * channel_weight(mode, data, c, i - 1)
    }
}

/// Doubled difference between the median of channel `i` and sample `k` in that channel.
pub open spec fn deviation(data: Seq<u8>, c: nat, k: int, i: int) -> int {
    channel_median2(data, c, i) - 2 * data[k * c + i]
}

/// Numerator of `sum_{j < i} deviation(k, j)^2 / channel_weight(j)` over the
/// denominator `weight_product(i)`.
pub open spec fn score_upto(mode: OutlierMode, data: Seq<u8>, c: nat, k: int, i: int) -> int
    decreases i,
{
    if i <= 0 {
        0
    } else {
        score_upto(mode, data, c, k, i - 1) * channel_weight(mode, data, c, i - 1) + deviation(
            data,
            c,
            k,
            i - 1,
        ) * deviation(data, c, k, i - 1) * weight_product(mode, data, c, i - 1)
    }
}

/// The squared distance of sample `k` from the per-channel medians is
/// `score(k) / weight_product(c)`. The denominator is the same for all
/// samples, so scores compare as distances do.
pub open spec fn score(mode: OutlierMode, data: Seq<u8>, c: nat, k: int) -> int {
    score_upto(mode, data, c, k, c as int)
}

/// The factor that turns a threshold into a squared distance: `255^2` in
/// absolute mode (the threshold being a fraction of the colour range), 1 in
/// relative mode (the threshold counting inter-quartile ranges).
pub open spec fn threshold_factor(mode: OutlierMode) -> int {
    if mode is Relative {
        1
    } else {
        65025
    }
}

/// Sample `k` is an outlier when its distance from the median is at least the
/// threshold: `score / weight_product >= factor * t^2`.
pub open spec fn is_outlier(mode: OutlierMode, data: Seq<u8>, c: nat, k: int) -> bool {
    reaches_square(
        mode.spec_threshold(),
        score(mode, data, c, k),
        threshold_factor(mode) * weight_product(mode, data, c, c as int),
    )
}

/// The outliers among the first `n` samples, in increasing order.
pub open spec fn outlier_list(mode: OutlierMode, data: Seq<u8>, c: nat, n: int) -> Seq<int>
    decreases n,
{
    if n <= 0 {
        Seq::empty()
    } else {
        let p = outlier_list(mode, data, c, n - 1);
        if is_outlier(mode, data, c, n - 1) {
            p.push(n - 1)
        } else {
            p
        }
    }
}

/// Among the outliers of the first `n` samples, the first one of greatest
/// score, with that score; `(0, 0)` while no outlier has a positive score.
pub open spec fn extreme_upto(mode: OutlierMode, data: Seq<u8>, c: nat, n: int) -> (int, int)
    decreases n,
{
    if n <= 0 {
        (0, 0)
    } else {
        let p = extreme_upto(mode, data, c, n - 1);
        if is_outlier(mode, data, c, n - 1) && score(mode, data, c, n - 1) > p.1 {
            (n - 1, score(mode, data, c, n - 1))
        } else {
            p
        }
    }
}

/// Sum of channel `ch` over the samples listed in `idx`.
pub open spec fn list_sum(data: Seq<u8>, c: nat, idx: Seq<int>, ch: int) -> int
    decreases idx.len(),
{
    if idx.len() == 0 {
        0
    } else {
        list_sum(data, c, idx.drop_last(), ch) + data[idx.last() * c + ch]
    }
}

/// `sum / cnt` rounded to the nearest integer, halves rounded up.
pub open spec fn round_div(sum: int, cnt: int) -> int {
    (2 * sum + cnt) / (2 * cnt)
}

/// The indices `0 .. n`.
pub open spec fn all_indices(n: int) -> Seq<int> {
    Seq::new(n as nat, |k: int| k)
}

/// The rounded per-channel average of the samples listed in `idx`.
pub open spec fn average_pixel(data: Seq<u8>, c: nat, idx: Seq<int>) -> Seq<u8> {
    Seq::new(c, |ch: int| round_div(list_sum(data, c, idx, ch), idx.len() as int) as u8)
}

/// The rounded per-channel median of all samples.
pub open spec fn median_pixel(data: Seq<u8>, c: nat) -> Seq<u8> {
    Seq::new(c, |ch: int| ((channel_median2(data, c, ch) + 1) / 2) as u8)
}

/// The pixel chosen by outlier analysis, and whether it is an outlier; `r`
/// is the sample that the random background mode picks.
pub open spec fn outlier_pixel(
    mode: OutlierMode,
    sel: OutlierSelectionMode,
    bg: BackgroundMode,
    data: Seq<u8>,
    c: nat,
    r: int,
) -> (Seq<u8>, bool) {
    let n = num_samples(data, c);
    let outs = outlier_list(mode, data, c, n);
    if outs.len() > 0 {
        (
            match sel {
                OutlierSelectionMode::First => sample(data, c, outs[0]),
                OutlierSelectionMode::Last => sample(data, c, outs.last()),
                OutlierSelectionMode::Extreme => sample(data, c, extreme_upto(mode, data, c, n).0),
                OutlierSelectionMode::Average => average_pixel(data, c, outs),
            },
            true,
        )
    } else {
        (
            match bg {
                BackgroundMode::First => sample(data, c, 0),
                BackgroundMode::Random => sample(data, c, r),
                BackgroundMode::Average => average_pixel(data, c, all_indices(n)),
                BackgroundMode::Median => median_pixel(data, c),
            },
            false,
        )
    }
}

/// The pixel chosen by a selection mode, and whether it was chosen as an outlier.
pub open spec fn spec_pixel(
    mode: SelectionMode,
    threshold: OutlierMode,
    sel: OutlierSelectionMode,
    bg: BackgroundMode,
    data: Seq<u8>,
    c: nat,
    r: int,
) -> (Seq<u8>, bool) {
    let n = num_samples(data, c);
    match mode {
        SelectionMode::Darker => (sample(data, c, darkest(data, c, n)), false),
        SelectionMode::Lighter => (sample(data, c, brightest(data, c, n)), false),
        SelectionMode::Outlier => outlier_pixel(threshold, sel, bg, data, c, r),
    }
}

/// What a selection mode needs of its input.
pub open spec fn pixel_input_ok(mode: SelectionMode, threshold: OutlierMode, data: Seq<u8>, c: nat) -> bool {
    match mode {
        SelectionMode::Outlier => outlier_input_ok(data, c),
        _ => brightness_input_ok(data, c),
    }
}

// ---------------------------------------------------------------------------
// Laws
// ---------------------------------------------------------------------------

/// The darker mode picks a sample of least brightness, the first such one.
pub proof fn lemma_darkest_is_least(data: Seq<u8>, c: nat, n: int)
    requires
        n >= 1,
    ensures
        0 <= darkest(data, c, n) < n,
        forall|k: int| 0 <= k < n ==> brightness(data, c, darkest(data, c, n)) <= #[trigger] brightness(data, c, k),
        forall|k: int| 0 <= k < darkest(data, c, n) ==> brightness(data, c, darkest(data, c, n)) < #[trigger] brightness(data, c, k),
    decreases n,
{
    if n > 1 {
        lemma_darkest_is_least(data, c, n - 1);
    }
}

/// The lighter mode picks a sample of greatest brightness, the first such one.
pub proof fn lemma_brightest_is_greatest(data: Seq<u8>, c: nat, n: int)
    requires
        n >= 1,
    ensures
        0 <= brightest(data, c, n) < n,
        forall|k: int| 0 <= k < n ==> #[trigger] brightness(data, c, k) <= brightness(data, c, brightest(data, c, n)),
        forall|k: int| 0 <= k < brightest(data, c, n) ==> #[trigger] brightness(data, c, k) < brightness(data, c, brightest(data, c, n)),
    decreases n,
{
    if n > 1 {
        lemma_brightest_is_greatest(data, c, n - 1);
    }
}

// ---------------------------------------------------------------------------
// Executable selection
// ---------------------------------------------------------------------------

/// Copies sample `k` out of the buffer.
fn copy_sample(pixel_data: &[u8], channels: usize, k: usize) -> (res: Vec<u8>)
    requires
        channels >= 1,
        k < pixel_data@.len() / (channels as nat),
    ensures
        res@ == sample(pixel_data@, channels as nat, k as int),
{
    let len = pixel_data.len();
    let samples = len / channels;
    let mut res: Vec<u8> = Vec::new();
    proof {
        lemma_sample_index(k as int, samples as int, channels as int, 0);
        assert(samples * channels <= len) by (nonlinear_arith)
            requires samples == len / channels, channels > 0;
    }
    let base = k * channels;
    let mut ch: usize = 0;
    while ch < channels
        invariant
            len == pixel_data@.len(),
            base == k * channels,
            base + channels <= len,
            0 <= ch <= channels,
            res@ == pixel_data@.subrange(base as int, base + ch),
        decreases channels - ch,
    {
        res.push(pixel_data[base + ch]);
        proof {
            assert(res@ =~= pixel_data@.subrange(base as int, base + ch + 1));
        }
        ch = ch + 1;
    }
    res
}

/// Sum of the first three channels of sample `k`.
fn sample_brightness(pixel_data: &[u8], channels: usize, k: usize) -> (b: u32)
    requires
        channels >= 3,
        k < pixel_data@.len() / (channels as nat),
    ensures
        b == brightness(pixel_data@, channels as nat, k as int),
{
    let samples = pixel_data.len() / channels;
    proof {
        lemma_sample_index(k as int, samples as int, channels as int, 2);
        assert(samples * channels <= pixel_data.len()) by (nonlinear_arith)
            requires samples == pixel_data.len() / channels, channels > 0;
    }
    let idx = k * channels;
    pixel_data[idx] as u32 + pixel_data[idx + 1] as u32 + pixel_data[idx + 2] as u32
}

/// Selects the darkest sample (least sum of red, green and blue).
pub fn calc_pixel_darker(pixel_data: &[u8], channels: usize) -> (pixel: Vec<u8>)
    requires
        brightness_input_ok(pixel_data@, channels as nat),
    ensures
        pixel@ == sample(
            pixel_data@,
            channels as nat,
            darkest(pixel_data@, channels as nat, num_samples(pixel_data@, channels as nat)),
        ),
{
    let pixels = pixel_data.len() / channels;
    let mut sum_min: u32 = u32::MAX;
    let mut idx_min: usize = 0;
    let mut pix: usize = 0;
    while pix < pixels
        invariant
            channels >= 3,
            pixels == pixel_data@.len() / (channels as nat),
            0 <= pix <= pixels,
            pix == 0 ==> sum_min == u32::MAX && idx_min == 0,
            pix > 0 ==> idx_min == darkest(pixel_data@, channels as nat, pix as int) && sum_min
                == brightness(pixel_data@, channels as nat, idx_min as int),
            idx_min < pixels || pix == 0,
        decreases pixels - pix,
    {
        let sum = sample_brightness(pixel_data, channels, pix);
        if sum < sum_min {
            sum_min = sum;
            idx_min = pix;
        }
        pix = pix + 1;
    }
    proof {
        assert(pixels >= 1) by (nonlinear_arith)
            requires pixels == pixel_data@.len() / (channels as nat), pixel_data@.len() >= channels, channels > 0;
    }
    copy_sample(pixel_data, channels, idx_min)
}

/// Selects the lightest sample (greatest sum of red, green and blue).
pub fn calc_pixel_lighter(pixel_data: &[u8], channels: usize) -> (pixel: Vec<u8>)
    requires
        brightness_input_ok(pixel_data@, channels as nat),
    ensures
        pixel@ == sample(
            pixel_data@,
            channels as nat,
            brightest(pixel_data@, channels as nat, num_samples(pixel_data@, channels as nat)),
        ),
{
    let pixels = pixel_data.len() / channels;
    let mut sum_max: u32 = u32::MIN;
    let mut idx_max: usize = 0;
    let mut pix: usize = 0;
    while pix < pixels
        invariant
            channels >= 3,
            pixels == pixel_data@.len() / (channels as nat),
            0 <= pix <= pixels,
            pix == 0 ==> sum_max == 0 && idx_max == 0,
            pix > 0 ==> idx_max == brightest(pixel_data@, channels as nat, pix as int) && sum_max
                == brightness(pixel_data@, channels as nat, idx_max as int),
            idx_max < pixels || pix == 0,
        decreases pixels - pix,
    {
        let sum = sample_brightness(pixel_data, channels, pix);
        if sum > sum_max {
            sum_max = sum;
            idx_max = pix;
        }
        pix = pix + 1;
    }
    proof {
        assert(pixels >= 1) by (nonlinear_arith)
            requires pixels == pixel_data@.len() / (channels as nat), pixel_data@.len() >= channels, channels > 0;
    }
    copy_sample(pixel_data, channels, idx_max)
}


/// `260100^i`: 260100 is the largest weight and the largest squared deviation.
pub open spec fn bound_pow(i: int) -> int
    decreases i,
{
    if i <= 0 {
        1
    } else {
        260100 * bound_pow(i - 1)
    }
}

/// `4^i`.
pub open spec fn pow4(i: int) -> int
    decreases i,
{
    if i <= 0 {
        1
    } else {
        4 * pow4(i - 1)
    }
}

proof fn lemma_bound_pow_values()
    ensures
        bound_pow(0) == 1,
        bound_pow(1) == 260100,
        bound_pow(2) == 67652010000,
        bound_pow(3) == 17596287801000000,
        bound_pow(4) == 4576794457040100000000,
        pow4(0) == 1,
        pow4(1) == 4,
        pow4(2) == 16,
        pow4(3) == 64,
        pow4(4) == 256,
{
    reveal_with_fuel(bound_pow, 5);
    reveal_with_fuel(pow4, 5);
}

proof fn lemma_small_powers(i: int)
    requires
        0 <= i <= 4,
    ensures
        1 <= bound_pow(i) <= bound_pow(4),
        1 <= pow4(i) <= 256,
{
    lemma_bound_pow_values();
    if i == 0 {
    } else if i == 1 {
    } else if i == 2 {
    } else if i == 3 {
    } else {
    }
}

/// One step of the score accumulation stays within `(i + 1) * 260100^(i + 1)`.
proof fn lemma_score_step(acc: int, p: int, w: int, d2: int, b: int)
    requires
        0 <= acc,
        0 <= p <= b,
        1 <= w <= 260100,
        0 <= d2 <= 260100,
        acc <= (b * 4),
    ensures
        0 <= acc * w + d2 * p <= (b * 4) * 260100 + 260100 * b,
        0 <= p * w <= b * 260100,
        p >= 1 ==> p * w >= 1,
{
    assert(0 <= acc * w <= (b * 4) * 260100) by (nonlinear_arith)
        requires 0 <= acc <= (b * 4), 1 <= w <= 260100;
    assert(0 <= d2 * p <= 260100 * b) by (nonlinear_arith)
        requires 0 <= d2 <= 260100, 0 <= p <= b;
    assert(0 <= p * w <= b * 260100) by (nonlinear_arith)
        requires 0 <= p <= b, 1 <= w <= 260100;
    assert(p >= 1 ==> p * w >= 1) by (nonlinear_arith)
        requires 1 <= w;
}

/// Per-channel doubled medians and weights of the samples.
fn channel_stats(mode: &OutlierMode, pixel_data: &[u8], channels: usize) -> (res: (Vec<u16>, Vec<u32>))
    requires
        outlier_input_ok(pixel_data@, channels as nat),
    ensures
        res.0@.len() == channels,
        res.1@.len() == channels,
        forall|i: int| 0 <= i < channels ==> #[trigger] res.0@[i] == channel_median2(pixel_data@, channels as nat, i),
        forall|i: int| 0 <= i < channels ==> #[trigger] res.1@[i] == channel_weight(*mode, pixel_data@, channels as nat, i),
        forall|i: int| 0 <= i < channels ==> 1 <= #[trigger] res.1@[i] <= 260100,
        forall|i: int| 0 <= i < channels ==> #[trigger] res.0@[i] <= 510,
{
    let relative = mode.is_relative();
    let mut meds: Vec<u16> = Vec::new();
    let mut weights: Vec<u32> = Vec::new();
    let mut i: usize = 0;
    while i < channels
        invariant
            outlier_input_ok(pixel_data@, channels as nat),
            relative == (*mode is Relative),
            0 <= i <= channels,
            meds@.len() == i,
            weights@.len() == i,
            forall|j: int| 0 <= j < i ==> #[trigger] meds@[j] == channel_median2(pixel_data@, channels as nat, j),
            forall|j: int| 0 <= j < i ==> #[trigger] weights@[j] == channel_weight(*mode, pixel_data@, channels as nat, j),
            forall|j: int| 0 <= j < i ==> 1 <= #[trigger] weights@[j] <= 260100,
            forall|j: int| 0 <= j < i ==> #[trigger] meds@[j] <= 510,
        decreases channels - i,
    {
        let sorted = sorted_channel(pixel_data, channels, i);
        proof {
            assert(pixel_data@.len() / (channels as nat) >= 1) by (nonlinear_arith)
                requires pixel_data@.len() >= channels, channels >= 1;
            crate::stats::lemma_sorted_bytes(channel_values(pixel_data@, channels as nat, i as int));
        }
        let m2 = median(&sorted);
        let w: u32 = if relative {
            let q = quartiles(&sorted);
            proof {
                crate::stats::lemma_quartiles_ordered(sorted@);
            }
            let iqr: u32 = (q.2 - q.0) as u32;
            if iqr == 0 {
                4
            } else {
                proof {
                    assert(1 <= iqr * iqr <= 260100) by (nonlinear_arith)
                        requires 1 <= iqr <= 510;
                }
                iqr * iqr
            }
        } else {
            4
        };
        meds.push(m2);
        weights.push(w);
        i = i + 1;
    }
    (meds, weights)
}

/// The score of every sample, and the common denominator `weight_product(c)`.
fn sample_scores(
    mode: &OutlierMode,
    pixel_data: &[u8],
    channels: usize,
    meds: &Vec<u16>,
    weights: &Vec<u32>,
) -> (res: (Vec<u128>, u128))
    requires
        outlier_input_ok(pixel_data@, channels as nat),
        meds@.len() == channels,
        weights@.len() == channels,
        forall|i: int| 0 <= i < channels ==> #[trigger] meds@[i] == channel_median2(pixel_data@, channels as nat, i),
        forall|i: int| 0 <= i < channels ==> #[trigger] weights@[i] == channel_weight(*mode, pixel_data@, channels as nat, i),
        forall|i: int| 0 <= i < channels ==> 1 <= #[trigger] weights@[i] <= 260100,
        forall|i: int| 0 <= i < channels ==> #[trigger] meds@[i] <= 510,
    ensures
        res.0@.len() == num_samples(pixel_data@, channels as nat),
        forall|k: int| 0 <= k < res.0@.len() ==> #[trigger] res.0@[k] == score(*mode, pixel_data@, channels as nat, k),
        forall|k: int| 0 <= k < res.0@.len() ==> #[trigger] res.0@[k] <= 4 * bound_pow(4),
        res.1 == weight_product(*mode, pixel_data@, channels as nat, channels as int),
        1 <= res.1 <= bound_pow(4),
        !(*mode is Relative) ==> res.1 <= 256,
{
    let len = pixel_data.len();
    let samples = len / channels;
    let mut scores: Vec<u128> = Vec::new();
    let mut prod: u128 = 1;
    proof {
        lemma_bound_pow_values();
        assert(samples * channels <= len) by (nonlinear_arith)
            requires samples == len / channels, channels > 0;
    }
    let mut k: usize = 0;
    while k < samples
        invariant
            outlier_input_ok(pixel_data@, channels as nat),
            len == pixel_data@.len(),
            samples == len / channels,
            samples * channels <= len,
            meds@.len() == channels,
            weights@.len() == channels,
            forall|i: int| 0 <= i < channels ==> #[trigger] meds@[i] == channel_median2(pixel_data@, channels as nat, i),
            forall|i: int| 0 <= i < channels ==> #[trigger] weights@[i] == channel_weight(*mode, pixel_data@, channels as nat, i),
            forall|i: int| 0 <= i < channels ==> 1 <= #[trigger] weights@[i] <= 260100,
            forall|i: int| 0 <= i < channels ==> #[trigger] meds@[i] <= 510,
            0 <= k <= samples,
            scores@.len() == k,
            forall|j: int| 0 <= j < k ==> #[trigger] scores@[j] == score(*mode, pixel_data@, channels as nat, j),
            forall|j: int| 0 <= j < k ==> #[trigger] scores@[j] <= 4 * bound_pow(4),
            k > 0 ==> prod == weight_product(*mode, pixel_data@, channels as nat, channels as int),
            1 <= prod <= bound_pow(4),
            !(*mode is Relative) ==> prod <= 256,
            bound_pow(4) == 4576794457040100000000,
        decreases samples - k,
    {
        let mut acc: u128 = 0;
        let mut p: u128 = 1;
        let mut i: usize = 0;
        while i < channels
            invariant
                outlier_input_ok(pixel_data@, channels as nat),
                len == pixel_data@.len(),
                samples * channels <= len,
                k < samples,
                meds@.len() == channels,
                weights@.len() == channels,
                forall|j: int| 0 <= j < channels ==> #[trigger] meds@[j] == channel_median2(pixel_data@, channels as nat, j),
                forall|j: int| 0 <= j < channels ==> #[trigger] weights@[j] == channel_weight(*mode, pixel_data@, channels as nat, j),
                forall|j: int| 0 <= j < channels ==> 1 <= #[trigger] weights@[j] <= 260100,
                forall|j: int| 0 <= j < channels ==> #[trigger] meds@[j] <= 510,
                0 <= i <= channels,
                acc == score_upto(*mode, pixel_data@, channels as nat, k as int, i as int),
                p == weight_product(*mode, pixel_data@, channels as nat, i as int),
                1 <= p <= bound_pow(i as int),
                acc <= i * bound_pow(i as int),
                !(*mode is Relative) ==> p == pow4(i as int),
            decreases channels - i,
        {
            proof {
                lemma_sample_index(k as int, samples as int, channels as int, i as int);
                lemma_bound_pow_values();
            }
            let v = pixel_data[k * channels + i];
            let m2 = meds[i];
            let twice: u16 = 2 * (v as u16);
            let dev: u128 = if m2 >= twice {
                (m2 - twice) as u128
            } else {
                (twice - m2) as u128
            };
            let w = weights[i] as u128;
            proof {
                assert(dev * dev <= 260100) by (nonlinear_arith)
                    requires dev <= 510;
                assert(dev * dev == deviation(pixel_data@, channels as nat, k as int, i as int)
                    * deviation(pixel_data@, channels as nat, k as int, i as int)) by (nonlinear_arith)
                    requires dev == m2 - twice || dev == twice - m2,
                        deviation(pixel_data@, channels as nat, k as int, i as int) == m2 - twice;
                let b = bound_pow(i as int);
                assert(acc <= b * 4) by (nonlinear_arith)
                    requires acc <= i * b, i <= 4, b >= 0;
                lemma_score_step(acc as int, p as int, w as int, (dev * dev) as int, b);
                assert(bound_pow(i as int + 1) == 260100 * b);
                assert((b * 4) * 260100 + 260100 * b <= 5 * bound_pow(4)) by (nonlinear_arith)
                    requires b <= bound_pow(3), bound_pow(3) * 260100 == bound_pow(4), b >= 0;
                assert(acc * w + (dev * dev) * p <= (i + 1) * bound_pow(i as int + 1)) by (nonlinear_arith)
                    requires acc <= i * b, 1 <= w <= 260100, dev * dev <= 260100, p <= b,
                        bound_pow(i as int + 1) == 260100 * b, b >= 0, p >= 0, acc >= 0;
            }
            acc = acc * w + (dev * dev) * p;
            p = p * w;
            i = i + 1;
        }
        proof {
            lemma_small_powers(i as int);
            assert(acc <= 4 * bound_pow(4)) by (nonlinear_arith)
                requires acc <= i * bound_pow(i as int), i <= 4, bound_pow(i as int) <= bound_pow(4),
                    bound_pow(i as int) >= 0;
        }
        scores.push(acc);
        prod = p;
        k = k + 1;
    }
    proof {
        assert(samples >= 1) by (nonlinear_arith)
            requires samples == len / channels, len >= channels, channels >= 1;
    }
    (scores, prod)
}


/// The indices of a vector, as integers.
pub open spec fn as_ints(s: Seq<usize>) -> Seq<int> {
    s.map_values(|x: usize| x as int)
}

/// The listed outliers lie in `0 .. n`, in strictly increasing order.
pub proof fn lemma_outlier_list_sorted(mode: OutlierMode, data: Seq<u8>, c: nat, n: int)
    ensures
        outlier_list(mode, data, c, n).len() <= if n < 0 { 0 } else { n },
        forall|j: int|
            0 <= j < outlier_list(mode, data, c, n).len() ==> 0 <= #[trigger] outlier_list(
                mode,
                data,
                c,
                n,
            )[j] < n,
        forall|i: int, j: int|
            0 <= i < j < outlier_list(mode, data, c, n).len() ==> outlier_list(mode, data, c, n)[i]
                < outlier_list(mode, data, c, n)[j],
        forall|j: int|
            0 <= j < outlier_list(mode, data, c, n).len() ==> is_outlier(
                mode,
                data,
                c,
                #[trigger] outlier_list(mode, data, c, n)[j],
            ),
    decreases n,
{
    if n > 0 {
        lemma_outlier_list_sorted(mode, data, c, n - 1);
    }
}

/// The extreme index lies among the first `n` samples.
pub proof fn lemma_extreme_in_range(mode: OutlierMode, data: Seq<u8>, c: nat, n: int)
    requires
        n >= 1,
    ensures
        0 <= extreme_upto(mode, data, c, n).0 < n,
        extreme_upto(mode, data, c, n).1 >= 0,
    decreases n,
{
    assert(extreme_upto(mode, data, c, 0) == (0int, 0int));
    if n > 1 {
        lemma_extreme_in_range(mode, data, c, n - 1);
    }
}

/// What the analysis of one pixel finds: its outliers, the most extreme
/// of them, and the doubled per-channel medians.
pub struct OutlierAnalysis {
    /// The outlier samples, in increasing order.
    pub outliers: Vec<usize>,
    /// The first outlier of greatest distance (0 when no outlier is at a positive distance).
    pub extreme: usize,
    /// Twice the median of each channel.
    pub medians: Vec<u16>,
}

/// The analysis holds what its fields say of the samples.
pub open spec fn analysis_matches(a: OutlierAnalysis, mode: OutlierMode, data: Seq<u8>, c: nat) -> bool {
    let n = num_samples(data, c);
    &&& as_ints(a.outliers@) == outlier_list(mode, data, c, n)
    &&& a.extreme == extreme_upto(mode, data, c, n).0
    &&& a.medians@.len() == c
    &&& forall|i: int| 0 <= i < c ==> #[trigger] a.medians@[i] == channel_median2(data, c, i)
    &&& forall|i: int| 0 <= i < c ==> #[trigger] a.medians@[i] <= 510
}

/// Finds the outliers of one pixel: the samples whose distance from the
/// per-channel medians is at least the threshold.
pub fn outlier_analysis(mode: &OutlierMode, pixel_data: &[u8], channels: usize) -> (a: OutlierAnalysis)
    requires
        outlier_input_ok(pixel_data@, channels as nat),
    ensures
        analysis_matches(a, *mode, pixel_data@, channels as nat),
{
    let (meds, weights) = channel_stats(mode, pixel_data, channels);
    let (scores, prod) = sample_scores(mode, pixel_data, channels, &meds, &weights);
    let t = mode.threshold();
    let relative = mode.is_relative();
    proof {
        lemma_bound_pow_values();
    }
    let factor: u128 = if relative {
        1
    } else {
        65025
    };
    proof {
        if relative {
            assert(factor * prod <= 4576794457040100000000u128);
        } else {
            assert(factor * prod <= 65025 * 256) by (nonlinear_arith)
                requires factor == 65025, prod <= 256;
        }
    }
    let a: u128 = factor * prod;
    let samples = scores.len();
    let mut outs: Vec<usize> = Vec::new();
    let mut max_score: u128 = 0;
    let mut max_index: usize = 0;
    let mut k: usize = 0;
    while k < samples
        invariant
            samples == num_samples(pixel_data@, channels as nat),
            scores@.len() == samples,
            forall|j: int| 0 <= j < samples ==> #[trigger] scores@[j] == score(*mode, pixel_data@, channels as nat, j),
            forall|j: int| 0 <= j < samples ==> #[trigger] scores@[j] <= 4 * bound_pow(4),
            bound_pow(4) == 4576794457040100000000,
            t == mode.spec_threshold(),
            a == threshold_factor(*mode) * weight_product(*mode, pixel_data@, channels as nat, channels as int),
            a <= SQUARE_BOUND,
            0 <= k <= samples,
            as_ints(outs@) == outlier_list(*mode, pixel_data@, channels as nat, k as int),
            max_index == extreme_upto(*mode, pixel_data@, channels as nat, k as int).0,
            max_score == extreme_upto(*mode, pixel_data@, channels as nat, k as int).1,
        decreases samples - k,
    {
        let s = scores[k];
        if t.reaches(s, a) {
            outs.push(k);
            if s > max_score {
                max_score = s;
                max_index = k;
            }
        }
        proof {
            assert(as_ints(outs@) =~= outlier_list(*mode, pixel_data@, channels as nat, k as int + 1));
        }
        k = k + 1;
    }
    OutlierAnalysis { outliers: outs, extreme: max_index, medians: meds }
}


/// A rounded average of bytes is again a byte.
pub proof fn lemma_round_div_byte(sum: int, cnt: int)
    requires
        cnt >= 1,
        0 <= sum <= 255 * cnt,
    ensures
        0 <= round_div(sum, cnt) <= 255,
{
    let q = (2 * sum + cnt) / (2 * cnt);
    assert(0 <= q) by (nonlinear_arith)
        requires q == (2 * sum + cnt) / (2 * cnt), cnt >= 1, sum >= 0;
    assert(q * (2 * cnt) <= 2 * sum + cnt) by (nonlinear_arith)
        requires q == (2 * sum + cnt) / (2 * cnt), cnt >= 1, sum >= 0;
    assert(q <= 255) by (nonlinear_arith)
        requires q * (2 * cnt) <= 2 * sum + cnt, sum <= 255 * cnt, cnt >= 1;
}

/// The rounded per-channel average of the listed samples.
fn average_of(pixel_data: &[u8], channels: usize, idx: &Vec<usize>) -> (res: Vec<u8>)
    requires
        channels >= 1,
        idx@.len() >= 1,
        forall|j: int| 0 <= j < idx@.len() ==> #[trigger] idx@[j] < pixel_data@.len() / (channels as nat),
    ensures
        res@ == average_pixel(pixel_data@, channels as nat, as_ints(idx@)),
{
    let len = pixel_data.len();
    let samples = len / channels;
    let cnt = idx.len();
    let ghost ids = as_ints(idx@);
    proof {
        assert(samples * channels <= len) by (nonlinear_arith)
            requires samples == len / channels, channels > 0;
    }
    let mut res: Vec<u8> = Vec::new();
    let mut ch: usize = 0;
    while ch < channels
        invariant
            channels >= 1,
            len == pixel_data@.len(),
            samples == len / channels,
            samples * channels <= len,
            cnt == idx@.len(),
            cnt >= 1,
            ids == as_ints(idx@),
            forall|j: int| 0 <= j < idx@.len() ==> #[trigger] idx@[j] < samples,
            0 <= ch <= channels,
            res@.len() == ch,
            forall|i: int| 0 <= i < ch ==> #[trigger] res@[i] == average_pixel(pixel_data@, channels as nat, ids)[i],
        decreases channels - ch,
    {
        let mut sum: u128 = 0;
        let mut j: usize = 0;
        while j < cnt
            invariant
                channels >= 1,
                len == pixel_data@.len(),
                samples * channels <= len,
                cnt == idx@.len(),
                ids == as_ints(idx@),
                forall|j: int| 0 <= j < idx@.len() ==> #[trigger] idx@[j] < samples,
                ch < channels,
                0 <= j <= cnt,
                sum == list_sum(pixel_data@, channels as nat, ids.take(j as int), ch as int),
                sum <= 255 * j,
            decreases cnt - j,
        {
            let k = idx[j];
            proof {
                lemma_sample_index(k as int, samples as int, channels as int, ch as int);
                assert(ids.take(j as int + 1).drop_last() =~= ids.take(j as int));
            }
            sum = sum + pixel_data[k * channels + ch] as u128;
            j = j + 1;
        }
        proof {
            assert(ids.take(cnt as int) =~= ids);
            lemma_round_div_byte(sum as int, cnt as int);
        }
        let c2 = 2 * (cnt as u128);
        let v = ((2 * sum + cnt as u128) / c2) as u8;
        res.push(v);
        ch = ch + 1;
    }
    proof {
        assert(res@ =~= average_pixel(pixel_data@, channels as nat, ids));
    }
    res
}

/// The rounded per-channel median, from the doubled medians.
fn median_from(medians: &Vec<u16>, channels: usize) -> (res: Vec<u8>)
    requires
        medians@.len() == channels,
        forall|i: int| 0 <= i < channels ==> #[trigger] medians@[i] <= 510,
    ensures
        res@.len() == channels,
        forall|i: int| 0 <= i < channels ==> #[trigger] res@[i] == (medians@[i] + 1) / 2,
{
    let mut res: Vec<u8> = Vec::new();
    let mut i: usize = 0;
    while i < channels
        invariant
            medians@.len() == channels,
            forall|i: int| 0 <= i < channels ==> #[trigger] medians@[i] <= 510,
            0 <= i <= channels,
            res@.len() == i,
            forall|j: int| 0 <= j < i ==> #[trigger] res@[j] == (medians@[j] + 1) / 2,
        decreases channels - i,
    {
        res.push(((medians[i] + 1) / 2) as u8);
        i = i + 1;
    }
    res
}

/// Builds the pixel from the analysis; `random_index` is used by the random
/// background mode when no outlier is found.
pub fn pixel_from_analysis(
    a: &OutlierAnalysis,
    mode: &OutlierMode,
    sel: OutlierSelectionMode,
    bg: BackgroundMode,
    pixel_data: &[u8],
    channels: usize,
    random_index: usize,
) -> (res: (Vec<u8>, bool))
    requires
        outlier_input_ok(pixel_data@, channels as nat),
        analysis_matches(*a, *mode, pixel_data@, channels as nat),
        random_index < num_samples(pixel_data@, channels as nat),
    ensures
        res.0@ == outlier_pixel(*mode, sel, bg, pixel_data@, channels as nat, random_index as int).0,
        res.1 == outlier_pixel(*mode, sel, bg, pixel_data@, channels as nat, random_index as int).1,
{
    let ghost data = pixel_data@;
    let ghost c = channels as nat;
    let samples = pixel_data.len() / channels;
    let ghost n = samples as int;
    proof {
        lemma_outlier_list_sorted(*mode, data, c, n);
        assert(samples >= 1) by (nonlinear_arith)
            requires samples == pixel_data@.len() / (channels as nat), pixel_data@.len() >= channels, channels >= 1;
        lemma_extreme_in_range(*mode, data, c, n);
        assert(samples * channels <= pixel_data@.len()) by (nonlinear_arith)
            requires samples == pixel_data@.len() / (channels as nat), channels > 0;
        assert(forall|j: int| 0 <= j < a.outliers@.len() ==> #[trigger] a.outliers@[j] == as_ints(a.outliers@)[j]);
    }
    let num_outliers = a.outliers.len();
    if num_outliers > 0 {
        let pixel = match sel {
            OutlierSelectionMode::Average => {
                if num_outliers == 1 {
                    let p = copy_sample(pixel_data, channels, a.outliers[0]);
                    proof {
                        let ids = as_ints(a.outliers@);
                        let k = ids[0];
                        lemma_sample_index(k, n, channels as int, 0);
                        assert forall|ch: int| 0 <= ch < channels implies p@[ch] == average_pixel(data, c, ids)[ch] by {
                            lemma_sample_index(k, n, channels as int, ch);
                            assert(ids.drop_last().len() == 0);
                            assert(list_sum(data, c, ids.drop_last(), ch) == 0);
                            assert(ids.last() == k);
                            assert(list_sum(data, c, ids, ch) == data[k * c + ch]);
                            let v = data[k * c + ch] as int;
                            assert((2 * v + 1) / 2 == v);
                            assert(round_div(v, 1) == v);
                        }
                        assert(p@ =~= average_pixel(data, c, ids));
                    }
                    p
                } else {
                    average_of(pixel_data, channels, &a.outliers)
                }
            },
            OutlierSelectionMode::First => copy_sample(pixel_data, channels, a.outliers[0]),
            OutlierSelectionMode::Last => copy_sample(pixel_data, channels, a.outliers[num_outliers - 1]),
            OutlierSelectionMode::Extreme => copy_sample(pixel_data, channels, a.extreme),
        };
        (pixel, true)
    } else {
        let pixel = match bg {
            BackgroundMode::Average => {
                let mut all: Vec<usize> = Vec::new();
                let mut k: usize = 0;
                while k < samples
                    invariant
                        0 <= k <= samples,
                        all@.len() == k,
                        forall|j: int| 0 <= j < k ==> #[trigger] all@[j] == j,
                    decreases samples - k,
                {
                    all.push(k);
                    k = k + 1;
                }
                proof {
                    assert(as_ints(all@) =~= all_indices(n));
                }
                average_of(pixel_data, channels, &all)
            },
            BackgroundMode::Median => {
                let p = median_from(&a.medians, channels);
                proof {
                    assert(p@ =~= median_pixel(data, c));
                }
                p
            },
            BackgroundMode::First => copy_sample(pixel_data, channels, 0),
            BackgroundMode::Random => copy_sample(pixel_data, channels, random_index),
        };
        (pixel, false)
    }
}

/// Selects the pixel by outlier analysis; `random_index` is the sample that
/// the random background mode takes when no outlier is found.
pub fn select_outlier_pixel(
    mode: &OutlierMode,
    sel: OutlierSelectionMode,
    bg: BackgroundMode,
    pixel_data: &[u8],
    channels: usize,
    random_index: usize,
) -> (res: (Vec<u8>, bool))
    requires
        outlier_input_ok(pixel_data@, channels as nat),
        random_index < num_samples(pixel_data@, channels as nat),
    ensures
        res.0@ == outlier_pixel(*mode, sel, bg, pixel_data@, channels as nat, random_index as int).0,
        res.1 == outlier_pixel(*mode, sel, bg, pixel_data@, channels as nat, random_index as int).1,
{
    let a = outlier_analysis(mode, pixel_data, channels);
    pixel_from_analysis(&a, mode, sel, bg, pixel_data, channels, random_index)
}

/// Selects the pixel value from the values of all samples, and tells whether
/// it was chosen as an outlier; `random_index` is the sample that the random
/// background mode takes.
pub fn select_pixel(
    mode: SelectionMode,
    threshold: &OutlierMode,
    sel: OutlierSelectionMode,
    bg: BackgroundMode,
    pixel_data: &[u8],
    channels: usize,
    random_index: usize,
) -> (res: (Vec<u8>, bool))
    requires
        pixel_input_ok(mode, *threshold, pixel_data@, channels as nat),
        random_index < num_samples(pixel_data@, channels as nat),
    ensures
        res.0@ == spec_pixel(mode, *threshold, sel, bg, pixel_data@, channels as nat, random_index as int).0,
        res.1 == spec_pixel(mode, *threshold, sel, bg, pixel_data@, channels as nat, random_index as int).1,
{
    match mode {
        SelectionMode::Darker => (calc_pixel_darker(pixel_data, channels), false),
        SelectionMode::Lighter => (calc_pixel_lighter(pixel_data, channels), false),
        SelectionMode::Outlier => select_outlier_pixel(threshold, sel, bg, pixel_data, channels, random_index),
    }
}


/// A sample of the buffer has one byte per channel.
pub proof fn lemma_sample_len(data: Seq<u8>, c: nat, k: int)
    requires
        c >= 1,
        0 <= k < num_samples(data, c),
    ensures
        sample(data, c, k).len() == c,
{
    let n = num_samples(data, c);
    lemma_sample_index(k, n, c as int, 0);
    assert(n * c <= data.len()) by (nonlinear_arith)
        requires n == data.len() / c, c > 0;
}

/// The chosen pixel has one byte per channel.
pub proof fn lemma_spec_pixel_len(
    mode: SelectionMode,
    threshold: OutlierMode,
    sel: OutlierSelectionMode,
    bg: BackgroundMode,
    data: Seq<u8>,
    c: nat,
    r: int,
)
    requires
        pixel_input_ok(mode, threshold, data, c),
        0 <= r < num_samples(data, c),
    ensures
        spec_pixel(mode, threshold, sel, bg, data, c, r).0.len() == c,
{
    let n = num_samples(data, c);
    assert(n >= 1) by (nonlinear_arith)
        requires n == data.len() / c, data.len() >= c, c >= 1;
    match mode {
        SelectionMode::Darker => {
            lemma_darkest_is_least(data, c, n);
            lemma_sample_len(data, c, darkest(data, c, n));
        },
        SelectionMode::Lighter => {
            lemma_brightest_is_greatest(data, c, n);
            lemma_sample_len(data, c, brightest(data, c, n));
        },
        SelectionMode::Outlier => {
            let outs = outlier_list(threshold, data, c, n);
            lemma_outlier_list_sorted(threshold, data, c, n);
            lemma_extreme_in_range(threshold, data, c, n);
            if outs.len() > 0 {
                lemma_sample_len(data, c, outs[0]);
                lemma_sample_len(data, c, outs.last());
                lemma_sample_len(data, c, extreme_upto(threshold, data, c, n).0);
            } else {
                lemma_sample_len(data, c, 0);
                lemma_sample_len(data, c, r);
            }
        },
    }
}

} // verus!
