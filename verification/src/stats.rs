//! Order statistics of one colour channel over a stack of samples.
//!
//! Medians and quartiles of byte values are halves of integers, so they are
//! kept doubled: a doubled median of 255 means 127.5.
use vstd::prelude::*;
use vstd::relations::{sorted_by, total_ordering};
use vstd::seq_lib::lemma_sorted_unique;
use crate::arith::lemma_sample_index;

verus! {

/// The order on bytes by which the samples of a channel are sorted.
pub open spec fn byte_leq() -> spec_fn(u8, u8) -> bool {
    |a: u8, b: u8| a <= b
}

/// The values of `s` in ascending order.
pub open spec fn sorted_bytes(s: Seq<u8>) -> Seq<u8> {
    s.sort_by(byte_leq())
}

/// Twice the median of an ascending, non-empty sequence.
pub open spec fn median2_sorted(s: Seq<u8>) -> int {
    let n = s.len() as int;
    if n % 2 == 1 {
        2 * s[n / 2] as int
    } else {
        s[n / 2 - 1] as int + s[n / 2] as int
    }
}

/// Twice the median of a non-empty sequence of bytes.
pub open spec fn median2(s: Seq<u8>) -> int {
    median2_sorted(sorted_bytes(s))
}

/// The element at 1-based position `p` of an ascending, non-empty
/// sequence; positions before the first or after the last element give that
/// end element.
pub open spec fn at_position(s: Seq<u8>, p: int) -> int {
    let n = s.len() as int;
    if p < 1 {
        s[0] as int
    } else if p > n {
        s[n - 1] as int
    } else {
        s[p - 1] as int
    }
}

/// Twice the value at 1-based position `num / 4`: twice the element there
/// when the position is whole, otherwise the sum of the two elements around
/// it (twice their average).
pub open spec fn quartile2_at(s: Seq<u8>, num: int) -> int {
    if num % 4 == 0 {
        2 * at_position(s, num / 4)
    } else {
        at_position(s, num / 4) + at_position(s, num / 4 + 1)
    }
}

/// Twice the first quartile, the median and the third quartile of an
/// ascending, non-empty sequence of length `n`: the quartiles lie at the
/// 1-based positions `(n + 1) / 4` and `3 (n + 1) / 4`, a fractional position
/// taking the average of its two neighbours.
pub open spec fn quartiles2_sorted(s: Seq<u8>) -> (int, int, int) {
    let n = s.len() as int;
    (quartile2_at(s, n + 1), median2_sorted(s), quartile2_at(s, 3 * (n + 1)))
}

/// The values of channel `i` of all samples, samples being `c` bytes long.
pub open spec fn channel_values(data: Seq<u8>, c: nat, i: int) -> Seq<u8> {
    Seq::new(data.len() / c, |k: int| data[k * c + i])
}

pub proof fn lemma_byte_leq_total()
    ensures
        total_ordering(byte_leq()),
{
}

/// Sorting in ascending order: the result is sorted and holds the same values.
pub proof fn lemma_sorted_bytes(s: Seq<u8>)
    ensures
        sorted_by(sorted_bytes(s), byte_leq()),
        sorted_bytes(s).to_multiset() == s.to_multiset(),
        sorted_bytes(s).len() == s.len(),
{
    lemma_byte_leq_total();
    s.lemma_sort_by_ensures(byte_leq());
    s.to_multiset_ensures();
    sorted_bytes(s).to_multiset_ensures();
}

/// The median does not depend on the order of the samples: two sequences
/// that hold the same values have the same median.
pub proof fn lemma_median_permutation_invariant(a: Seq<u8>, b: Seq<u8>)
    requires
        a.to_multiset() == b.to_multiset(),
    ensures
        median2(a) == median2(b),
        sorted_bytes(a) == sorted_bytes(b),
{
    lemma_sorted_bytes(a);
    lemma_sorted_bytes(b);
    lemma_byte_leq_total();
    lemma_sorted_unique(sorted_bytes(a), sorted_bytes(b), byte_leq());
}

/// The median of an ascending sequence lies between its smallest and its largest value.
pub proof fn lemma_median_sorted_bounds(s: Seq<u8>)
    requires
        s.len() > 0,
        sorted_by(s, byte_leq()),
    ensures
        2 * s[0] <= median2_sorted(s) <= 2 * s[s.len() - 1],
{
    let n = s.len() as int;
    if n % 2 == 1 {
        if n / 2 > 0 {
            assert(byte_leq()(s[0], s[n / 2]));
        }
        if n / 2 < n - 1 {
            assert(byte_leq()(s[n / 2], s[n - 1]));
        }
    } else {
        if n / 2 - 1 > 0 {
            assert(byte_leq()(s[0], s[n / 2 - 1]));
        }
        assert(byte_leq()(s[0], s[n / 2]));
        assert(byte_leq()(s[n / 2 - 1], s[n - 1]));
        if n / 2 < n - 1 {
            assert(byte_leq()(s[n / 2], s[n - 1]));
        }
    }
}

/// The median of a channel lies between the smallest and the largest value of that channel.
pub proof fn lemma_median_bounds(s: Seq<u8>)
    requires
        s.len() > 0,
    ensures
        exists|j: int| 0 <= j < s.len() && 2 * s[j] <= median2(s) && (forall|k: int|
            0 <= k < s.len() ==> s[j] <= #[trigger] s[k]),
        exists|j: int| 0 <= j < s.len() && median2(s) <= 2 * s[j] && (forall|k: int|
            0 <= k < s.len() ==> #[trigger] s[k] <= s[j]),
{
    let t = sorted_bytes(s);
    lemma_sorted_bytes(s);
    lemma_median_sorted_bounds(t);
    let lo = t[0];
    let hi = t[t.len() - 1];
    s.to_multiset_ensures();
    t.to_multiset_ensures();
    assert(t.to_multiset().count(lo) > 0);
    assert(s.contains(lo));
    assert(t.to_multiset().count(hi) > 0);
    assert(s.contains(hi));
    let jl = choose|j: int| 0 <= j < s.len() && s[j] == lo;
    let jh = choose|j: int| 0 <= j < s.len() && s[j] == hi;
    assert forall|k: int| 0 <= k < s.len() implies s[jl] <= #[trigger] s[k] && s[k] <= s[jh] by {
        assert(s.to_multiset().count(s[k]) > 0);
        assert(t.contains(s[k]));
        let m = choose|m: int| 0 <= m < t.len() && t[m] == s[k];
        if m > 0 {
            assert(byte_leq()(t[0], t[m]));
        }
        if m < t.len() - 1 {
            assert(byte_leq()(t[m], t[t.len() - 1]));
        }
    }
}

/// Positions further on hold values at least as large.
proof fn lemma_at_position_mono(s: Seq<u8>, p: int, q: int)
    requires
        s.len() > 0,
        sorted_by(s, byte_leq()),
        p <= q,
    ensures
        at_position(s, p) <= at_position(s, q),
{
    let n = s.len() as int;
    let i = if p < 1 { 0 } else if p > n { n - 1 } else { p - 1 };
    let j = if q < 1 { 0 } else if q > n { n - 1 } else { q - 1 };
    if i < j {
        assert(byte_leq()(s[i], s[j]));
    }
}

/// The quartiles are ordered: first quartile <= median <= third quartile.
pub proof fn lemma_quartiles_ordered(s: Seq<u8>)
    requires
        s.len() > 0,
        sorted_by(s, byte_leq()),
    ensures
        quartiles2_sorted(s).0 <= quartiles2_sorted(s).1 <= quartiles2_sorted(s).2,
{
    let n = s.len() as int;
    // the median as the values at two positions
    let (c, d) = if n % 2 == 1 {
        ((n + 1) / 2, (n + 1) / 2)
    } else {
        (n / 2, n / 2 + 1)
    };
    assert(median2_sorted(s) == at_position(s, c) + at_position(s, d));
    // the first quartile
    let (a, b) = if (n + 1) % 4 == 0 {
        ((n + 1) / 4, (n + 1) / 4)
    } else {
        ((n + 1) / 4, (n + 1) / 4 + 1)
    };
    assert(quartile2_at(s, n + 1) == at_position(s, a) + at_position(s, b));
    assert(a <= c && b <= d);
    lemma_at_position_mono(s, a, c);
    lemma_at_position_mono(s, b, d);
    // the third quartile
    let (e, f) = if (3 * (n + 1)) % 4 == 0 {
        ((3 * (n + 1)) / 4, (3 * (n + 1)) / 4)
    } else {
        ((3 * (n + 1)) / 4, (3 * (n + 1)) / 4 + 1)
    };
    assert(quartile2_at(s, 3 * (n + 1)) == at_position(s, e) + at_position(s, f));
    assert(c <= e && d <= f);
    lemma_at_position_mono(s, c, e);
    lemma_at_position_mono(s, d, f);
}

/// `slice::sort_unstable` from std: sorts the bytes in ascending order,
/// keeping the same values.
#[verifier::external_body]
fn sort_unstable_bytes(v: &mut Vec<u8>)
    ensures
        sorted_by(final(v)@, byte_leq()),
        final(v)@.to_multiset() == old(v)@.to_multiset(),
{
    v.sort_unstable();
}

/// Collects channel `i` of all samples and sorts it.
pub fn sorted_channel(pixel_data: &[u8], channels: usize, i: usize) -> (res: Vec<u8>)
    requires
        0 <= i < channels,
    ensures
        res@ == sorted_bytes(channel_values(pixel_data@, channels as nat, i as int)),
        res@.len() == pixel_data@.len() / (channels as nat),
{
    let len = pixel_data.len();
    let samples = len / channels;
    let ghost vals = channel_values(pixel_data@, channels as nat, i as int);
    let mut values: Vec<u8> = Vec::new();
    let mut k: usize = 0;
    while k < samples
        invariant
            len == pixel_data@.len(),
            samples == pixel_data@.len() / (channels as nat),
            0 <= i < channels,
            0 <= k <= samples,
            vals == channel_values(pixel_data@, channels as nat, i as int),
            vals.len() == samples,
            values@ == vals.take(k as int),
        decreases samples - k,
    {
        proof {
            lemma_sample_index(k as int, samples as int, channels as int, i as int);
            assert(samples * channels <= pixel_data@.len()) by (nonlinear_arith)
                requires samples == pixel_data@.len() / (channels as nat), channels > 0;
        }
        values.push(pixel_data[k * channels + i]);
        proof {
            assert(values@ =~= vals.take(k as int + 1));
        }
        k = k + 1;
    }
    proof {
        assert(values@ =~= vals);
    }
    let ghost before = values@;
    sort_unstable_bytes(&mut values);
    proof {
        lemma_sorted_bytes(vals);
        lemma_byte_leq_total();
        lemma_sorted_unique(values@, sorted_bytes(vals), byte_leq());
        values@.to_multiset_ensures();
        vals.to_multiset_ensures();
    }
    values
}

/// Twice the median of an ascending sample.
pub fn median(data: &Vec<u8>) -> (m2: u16)
    requires
        data@.len() > 0,
    ensures
        m2 == median2_sorted(data@),
        m2 <= 510,
{
    let len = data.len();
    if len % 2 == 1 {
        2 * (data[len / 2] as u16)
    } else {
        data[len / 2 - 1] as u16 + data[len / 2] as u16
    }
}

/// The element at 1-based position `p`, clamped to the ends.
fn value_at_position(data: &Vec<u8>, p: u128) -> (v: u16)
    requires
        data@.len() > 0,
    ensures
        v == at_position(data@, p as int),
        v <= 255,
{
    let len = data.len();
    if p < 1 {
        data[0] as u16
    } else if p > len as u128 {
        data[len - 1] as u16
    } else {
        data[(p - 1) as usize] as u16
    }
}

/// Twice the value at 1-based position `num / 4`.
fn quartile_at(data: &Vec<u8>, num: u128) -> (q: u16)
    requires
        data@.len() > 0,
        num < u128::MAX,
    ensures
        q == quartile2_at(data@, num as int),
        q <= 510,
{
    let pos = num / 4;
    if num % 4 == 0 {
        2 * value_at_position(data, pos)
    } else {
        value_at_position(data, pos) + value_at_position(data, pos + 1)
    }
}

/// Twice the first quartile, the median and the third quartile of an
/// ascending sample: the quartiles at the 1-based positions `(n + 1) / 4`
/// and `3 (n + 1) / 4`, fractional positions averaging their neighbours.
pub fn quartiles(data: &Vec<u8>) -> (q: (u16, u16, u16))
    requires
        data@.len() > 0,
    ensures
        q.0 == quartiles2_sorted(data@).0,
        q.1 == quartiles2_sorted(data@).1,
        q.2 == quartiles2_sorted(data@).2,
        q.0 <= 510,
        q.1 <= 510,
        q.2 <= 510,
{
    let len = data.len() as u128;
    let q1 = quartile_at(data, len + 1);
    let med = median(data);
    let q3 = quartile_at(data, 3 * (len + 1));
    (q1, med, q3)
}

} // verus!
