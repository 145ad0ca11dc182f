//! The image processor: applies the pixel selection to every pixel of a time slice.
use vstd::prelude::*;
use rand::Rng;
use rand::rngs::ThreadRng;
use crate::arith::{lemma_row_index, lemma_sample_index};
use crate::modes::{BackgroundMode, Compression, OutlierMode, OutlierSelectionMode, SelectionMode};
use crate::select::{
    calc_pixel_darker, calc_pixel_lighter, lemma_spec_pixel_len, num_samples, outlier_analysis, pixel_from_analysis,
    pixel_input_ok, spec_pixel,
};

verus! {

/// The thread-local random number generator of `rand`.
#[verifier::external_type_specification]
#[verifier::external_body]
pub struct ExThreadRng(ThreadRng);

/// `rand::thread_rng`: a handle to the thread-local generator. Nothing is
/// stated of it; it panics only when the operating system cannot seed it.
#[verifier::external_body]
fn new_thread_rng() -> ThreadRng {
    rand::thread_rng()
}

/// `Rng::gen_range(0, n)` of `rand`: a random index in `0 .. n`. It panics
/// when the range is empty, so `n` must be positive.
#[verifier::external_body]
fn random_index(rng: &mut ThreadRng, n: usize) -> (r: usize)
    requires
        n > 0,
    ensures
        r < n,
{
    rng.gen_range(0, n)
}

/// Geometry of the image rows in a time slice buffer.
#[derive(Debug, Clone, Copy, PartialEq, Eq, Structural)]
pub struct SliceLayout {
    /// Number of pixels in a row.
    pub width: u32,
    /// Number of rows of the output image.
    pub height: u32,
    /// Bytes per pixel (the number of channels).
    pub width_stride: usize,
    /// Bytes per row.
    pub height_stride: usize,
}

/// The values of pixel `col` in all `num_rows` rows of a time slice (one
/// row per image), as interleaved samples: byte `row * c + ch` is channel
/// `ch` of the pixel in row `row`.
pub open spec fn column_data(data: Seq<u8>, layout: SliceLayout, num_rows: nat, col: int) -> Seq<u8> {
    let c = layout.width_stride as int;
    Seq::new(
        num_rows * layout.width_stride as nat,
        |j: int| data[(j / c) * layout.height_stride + col * c + j % c],
    )
}

/// The outlier mask of one pixel: the colour channels are white where the
/// pixel was chosen as an outlier and black elsewhere; further channels
/// (alpha) are always opaque.
pub open spec fn mask_pixel(is_out: bool, c: nat) -> Seq<u8> {
    Seq::new(c, |ch: int| if ch < 3 { if is_out { 255u8 } else { 0u8 } } else { 255u8 })
}

/// Core processor for image analysis of time slices.
pub struct ChronoProcessor {
    mode: SelectionMode,
    threshold: OutlierMode,
    background: BackgroundMode,
    outlier: OutlierSelectionMode,
    compression: Compression,
    rng: ThreadRng,
}

impl ChronoProcessor {
    /// The pixel selection mode.
    pub closed spec fn spec_mode(&self) -> SelectionMode {
        self.mode
    }

    /// The outlier threshold.
    pub closed spec fn spec_threshold(&self) -> OutlierMode {
        self.threshold
    }

    /// The background mode.
    pub closed spec fn spec_background(&self) -> BackgroundMode {
        self.background
    }

    /// The outlier selection mode.
    pub closed spec fn spec_outlier(&self) -> OutlierSelectionMode {
        self.outlier
    }

    /// The compression of the time slice files.
    pub closed spec fn spec_compression(&self) -> Compression {
        self.compression
    }

    /// The pixel chosen by this processor's modes, `r` being the random pick.
    pub open spec fn pixel_of(&self, data: Seq<u8>, c: nat, r: int) -> (Seq<u8>, bool) {
        spec_pixel(
            self.spec_mode(),
            self.spec_threshold(),
            self.spec_outlier(),
            self.spec_background(),
            data,
            c,
            r,
        )
    }

    /// Creates a new image processor.
    pub fn new(
        mode: SelectionMode,
        threshold: OutlierMode,
        bg_mode: BackgroundMode,
        outlier_mode: OutlierSelectionMode,
        compression: Compression,
    ) -> (p: Self)
        ensures
            p.spec_mode() == mode,
            p.spec_threshold() == threshold,
            p.spec_background() == bg_mode,
            p.spec_outlier() == outlier_mode,
            p.spec_compression() == compression,
    {
        ChronoProcessor {
            mode,
            threshold,
            background: bg_mode,
            outlier: outlier_mode,
            compression,
            rng: new_thread_rng(),
        }
    }

    /// The pixel selection mode.
    pub fn mode(&self) -> (m: SelectionMode)
        ensures
            m == self.spec_mode(),
    {
        self.mode
    }

    /// The outlier threshold.
    pub fn threshold(&self) -> (t: OutlierMode)
        ensures
            t == self.spec_threshold(),
    {
        self.threshold
    }

    /// The compression of the time slice files.
    pub fn compression(&self) -> (c: Compression)
        ensures
            c == self.spec_compression(),
    {
        self.compression
    }

    /// Selects the value of one pixel from its values in all images, writes
    /// it to `pixel` (whose length is the number of channels), and tells
    /// whether it was chosen as an outlier.
    pub fn calc_pixel(&mut self, pixel_data: &[u8], pixel: &mut Vec<u8>) -> (is_out: bool)
        requires
            pixel_input_ok(
                old(self).spec_mode(),
                old(self).spec_threshold(),
                pixel_data@,
                old(pixel)@.len(),
            ),
        ensures
            final(self).spec_mode() == old(self).spec_mode(),
            final(self).spec_threshold() == old(self).spec_threshold(),
            final(self).spec_background() == old(self).spec_background(),
            final(self).spec_outlier() == old(self).spec_outlier(),
            final(self).spec_compression() == old(self).spec_compression(),
            final(pixel)@.len() == old(pixel)@.len(),
            exists|r: int|
                0 <= r < num_samples(pixel_data@, old(pixel)@.len()) && final(pixel)@ == old(self).pixel_of(
                    pixel_data@,
                    old(pixel)@.len(),
                    r,
                ).0 && is_out == old(self).pixel_of(pixel_data@, old(pixel)@.len(), r).1,
    {
        let channels = pixel.len();
        let samples = pixel_data.len() / channels;
        proof {
            assert(samples >= 1) by (nonlinear_arith)
                requires samples == pixel_data@.len() / (channels as nat), pixel_data@.len() >= channels, channels >= 1;
        }
        match self.mode {
            SelectionMode::Darker => {
                *pixel = calc_pixel_darker(pixel_data, channels);
                assert(pixel@ == old(self).pixel_of(pixel_data@, channels as nat, 0).0);
                proof {
                    lemma_spec_pixel_len(self.mode, self.threshold, self.outlier, self.background, pixel_data@, channels as nat, 0);
                }
                false
            },
            SelectionMode::Lighter => {
                *pixel = calc_pixel_lighter(pixel_data, channels);
                assert(pixel@ == old(self).pixel_of(pixel_data@, channels as nat, 0).0);
                proof {
                    lemma_spec_pixel_len(self.mode, self.threshold, self.outlier, self.background, pixel_data@, channels as nat, 0);
                }
                false
            },
            SelectionMode::Outlier => {
                let a = outlier_analysis(&self.threshold, pixel_data, channels);
                let r = if a.outliers.len() == 0 && self.background == BackgroundMode::Random {
                    random_index(&mut self.rng, samples)
                } else {
                    0
                };
                let (p, is_out) = pixel_from_analysis(
                    &a,
                    &self.threshold,
                    self.outlier,
                    self.background,
                    pixel_data,
                    channels,
                    r,
                );
                *pixel = p;
                assert(pixel@ == old(self).pixel_of(pixel_data@, channels as nat, r as int).0);
                proof {
                    lemma_spec_pixel_len(self.mode, self.threshold, self.outlier, self.background, pixel_data@, channels as nat, r as int);
                }
                is_out
            },
        }
    }
}


/// What processing a time slice needs: pixels whose channels suit the mode,
/// at least one image row where there is a pixel to compute, the rows of the
/// slice inside `data`, and the output row inside both output buffers.
pub open spec fn slice_input_ok(
    mode: SelectionMode,
    threshold: OutlierMode,
    layout: SliceLayout,
    data_len: nat,
    num_rows: nat,
    out_row: nat,
    out_len: nat,
) -> bool {
    let c = layout.width_stride as int;
    let hs = layout.height_stride as int;
    let w = layout.width as int;
    &&& match mode {
        SelectionMode::Outlier => 1 <= c <= 4,
        _ => c >= 3,
    }
    &&& w > 0 ==> num_rows >= 1
    &&& w > 0 ==> (num_rows - 1) * hs + w * c <= data_len
    &&& out_row * hs + w * c <= out_len
}

/// Where pixel `col` of output row `out_row` starts in the output buffers.
pub open spec fn out_index(layout: SliceLayout, out_row: int, col: int) -> int {
    out_row * layout.height_stride + col * layout.width_stride
}

/// Pixel `col` of output row `out_row` holds, in `buffer` and in `mask`,
/// the pixel that `proc` chooses from the values of that pixel in the slice,
/// `r` being the random pick.
pub open spec fn column_written(
    proc: ChronoProcessor,
    data: Seq<u8>,
    layout: SliceLayout,
    num_rows: nat,
    out_row: int,
    buffer: Seq<u8>,
    mask: Seq<u8>,
    col: int,
    r: int,
) -> bool {
    let px = proc.pixel_of(column_data(data, layout, num_rows, col), layout.width_stride as nat, r);
    let start = out_index(layout, out_row, col);
    &&& buffer.subrange(start, start + layout.width_stride) == px.0
    &&& mask.subrange(start, start + layout.width_stride) == mask_pixel(px.1, layout.width_stride as nat)
}

/// Pixel `col` of output row `out_row` holds the pixel that `proc` chooses
/// for some random pick among the `num_rows` images.
pub open spec fn column_done(
    proc: ChronoProcessor,
    data: Seq<u8>,
    layout: SliceLayout,
    num_rows: nat,
    out_row: int,
    buffer: Seq<u8>,
    mask: Seq<u8>,
    col: int,
) -> bool {
    exists|r: int|
        0 <= r < num_rows && #[trigger] column_written(proc, data, layout, num_rows, out_row, buffer, mask, col, r)
}

/// Writes `pixel` and its mask at `start`, leaving the rest untouched.
fn write_pixel(buffer: &mut Vec<u8>, mask: &mut Vec<u8>, start: usize, pixel: &Vec<u8>, is_out: bool)
    requires
        start + pixel@.len() <= old(buffer)@.len(),
        start + pixel@.len() <= old(mask)@.len(),
    ensures
        final(buffer)@.len() == old(buffer)@.len(),
        final(mask)@.len() == old(mask)@.len(),
        final(buffer)@.subrange(start as int, start + pixel@.len()) == pixel@,
        final(mask)@.subrange(start as int, start + pixel@.len()) == mask_pixel(is_out, pixel@.len()),
        forall|i: int|
            0 <= i < final(buffer)@.len() && !(start <= i < start + pixel@.len()) ==> #[trigger] final(buffer)@[i]
                == old(buffer)@[i],
        forall|i: int|
            0 <= i < final(mask)@.len() && !(start <= i < start + pixel@.len()) ==> #[trigger] final(mask)@[i]
                == old(mask)@[i],
{
    let channels = pixel.len();
    let blen = buffer.len();
    let mut ch: usize = 0;
    while ch < channels
        invariant
            blen == buffer@.len(),
            channels == pixel@.len(),
            start + channels <= buffer@.len(),
            start + channels <= mask@.len(),
            buffer@.len() == old(buffer)@.len(),
            mask@.len() == old(mask)@.len(),
            0 <= ch <= channels,
            forall|j: int| 0 <= j < ch ==> #[trigger] buffer@[start + j] == pixel@[j],
            forall|j: int| 0 <= j < ch ==> #[trigger] mask@[start + j] == mask_pixel(is_out, channels as nat)[j],
            forall|i: int|
                0 <= i < buffer@.len() && !(start <= i < start + ch) ==> #[trigger] buffer@[i] == old(buffer)@[i],
            forall|i: int|
                0 <= i < mask@.len() && !(start <= i < start + ch) ==> #[trigger] mask@[i] == old(mask)@[i],
        decreases channels - ch,
    {
        let idx = start + ch;
        buffer[idx] = pixel[ch];
        mask[idx] = if ch < 3 {
            if is_out {
                255
            } else {
                0
            }
        } else {
            255
        };
        ch = ch + 1;
    }
    proof {
        assert forall|j: int| 0 <= j < channels implies buffer@.subrange(start as int, start + channels)[j] == pixel@[j] by {
            assert(buffer@[start + j] == pixel@[j]);
        }
        assert forall|j: int| 0 <= j < channels implies mask@.subrange(start as int, start + channels)[j] == mask_pixel(is_out, channels as nat)[j] by {
            assert(mask@[start + j] == mask_pixel(is_out, channels as nat)[j]);
        }
        assert(buffer@.subrange(start as int, start + channels) =~= pixel@);
        assert(mask@.subrange(start as int, start + channels) =~= mask_pixel(is_out, channels as nat));
    }
}

/// Row and channel of byte `j` of a column buffer.
proof fn lemma_column_position(row: int, c: int, ch: int)
    requires
        0 <= row,
        0 <= ch < c,
    ensures
        (row * c + ch) / c == row,
        (row * c + ch) % c == ch,
{
    vstd::arithmetic::div_mod::lemma_fundamental_div_mod_converse(row * c + ch, c, row, ch);
}

impl ChronoProcessor {
    /// Gathers the values of pixel `col` in all rows of the slice.
    fn gather_column(data: &[u8], layout: &SliceLayout, num_rows: usize, col: usize) -> (res: Vec<u8>)
        requires
            num_rows >= 1,
            col < layout.width,
            layout.width_stride >= 1,
            (num_rows - 1) * layout.height_stride + layout.width * layout.width_stride <= data@.len(),
        ensures
            res@ == column_data(data@, *layout, num_rows as nat, col as int),
    {
        let channels = layout.width_stride;
        let hs = layout.height_stride;
        let dlen = data.len();
        let ghost target = column_data(data@, *layout, num_rows as nat, col as int);
        let mut res: Vec<u8> = Vec::new();
        let mut row: usize = 0;
        while row < num_rows
            invariant
                dlen == data@.len(),
                channels == layout.width_stride,
                hs == layout.height_stride,
                channels >= 1,
                col < layout.width,
                (num_rows - 1) * hs + layout.width * channels <= data@.len(),
                target == column_data(data@, *layout, num_rows as nat, col as int),
                0 <= row <= num_rows,
                res@.len() == row * channels,
                forall|j: int| 0 <= j < res@.len() ==> #[trigger] res@[j] == target[j],
            decreases num_rows - row,
        {
            proof {
                lemma_sample_index(col as int, layout.width as int, channels as int, 0);
                lemma_row_index(row as int, num_rows as int, hs as int, col * channels, layout.width * channels);
                lemma_sample_index(row as int, num_rows as int, channels as int, 0);
            }
            let base = row * hs + col * channels;
            let mut ch: usize = 0;
            while ch < channels
                invariant
                    dlen == data@.len(),
                    channels == layout.width_stride,
                    hs == layout.height_stride,
                    channels >= 1,
                    col < layout.width,
                    row < num_rows,
                    (num_rows - 1) * hs + layout.width * channels <= data@.len(),
                    base == row * hs + col * channels,
                    target == column_data(data@, *layout, num_rows as nat, col as int),
                    0 <= ch <= channels,
                    res@.len() == row * channels + ch,
                    forall|j: int| 0 <= j < res@.len() ==> #[trigger] res@[j] == target[j],
                decreases channels - ch,
            {
                proof {
                    lemma_sample_index(col as int, layout.width as int, channels as int, ch as int);
                    lemma_row_index(
                        row as int,
                        num_rows as int,
                        hs as int,
                        col * channels + ch,
                        layout.width * channels,
                    );
                    lemma_column_position(row as int, channels as int, ch as int);
                    lemma_sample_index(row as int, num_rows as int, channels as int, ch as int);
                }
                res.push(data[base + ch]);
                ch = ch + 1;
            }
            row = row + 1;
        }
        proof {
            assert(res@ =~= target);
        }
        res
    }

    /// Computes one output row from a time slice: the slice holds, for each
    /// image, one row of `layout.width` pixels (`num_rows` rows, one per
    /// image, `layout.height_stride` bytes apart). Pixel `col` of output row
    /// `out_row` is selected from the values of pixel `col` in all images,
    /// and the outlier mask records whether it was an outlier.
    pub fn process_slice(
        &mut self,
        layout: &SliceLayout,
        data: &[u8],
        num_rows: usize,
        out_row: usize,
        buffer: &mut Vec<u8>,
        outlier_mask: &mut Vec<u8>,
    )
        requires
            slice_input_ok(
                old(self).spec_mode(),
                old(self).spec_threshold(),
                *layout,
                data@.len(),
                num_rows as nat,
                out_row as nat,
                old(buffer)@.len(),
            ),
            old(outlier_mask)@.len() == old(buffer)@.len(),
        ensures
            final(self).spec_mode() == old(self).spec_mode(),
            final(self).spec_threshold() == old(self).spec_threshold(),
            final(self).spec_background() == old(self).spec_background(),
            final(self).spec_outlier() == old(self).spec_outlier(),
            final(self).spec_compression() == old(self).spec_compression(),
            final(buffer)@.len() == old(buffer)@.len(),
            final(outlier_mask)@.len() == old(outlier_mask)@.len(),
            forall|col: int|
                0 <= col < layout.width ==> #[trigger] column_done(
                    *old(self),
                    data@,
                    *layout,
                    num_rows as nat,
                    out_row as int,
                    final(buffer)@,
                    final(outlier_mask)@,
                    col,
                ),
            forall|i: int|
                0 <= i < final(buffer)@.len() && !(out_index(*layout, out_row as int, 0) <= i < out_index(
                    *layout,
                    out_row as int,
                    layout.width as int,
                )) ==> #[trigger] final(buffer)@[i] == old(buffer)@[i],
            forall|i: int|
                0 <= i < final(outlier_mask)@.len() && !(out_index(*layout, out_row as int, 0) <= i < out_index(
                    *layout,
                    out_row as int,
                    layout.width as int,
                )) ==> #[trigger] final(outlier_mask)@[i] == old(outlier_mask)@[i],
    {
        let channels = layout.width_stride;
        let width = layout.width as usize;
        let ghost proc = *old(self);
        let ghost c = channels as nat;
        let ghost base = out_index(*layout, out_row as int, 0);
        let ghost mut picks: Seq<int> = Seq::empty();
        proof {
            assert(out_row * layout.height_stride >= 0) by (nonlinear_arith)
                requires out_row >= 0, layout.height_stride >= 0;
        }
        let mut pixel: Vec<u8> = Vec::new();
        let mut k: usize = 0;
        while k < channels
            invariant
                pixel@.len() == k,
                k <= channels,
            decreases channels - k,
        {
            pixel.push(0);
            k = k + 1;
        }
        let mut col: usize = 0;
        while col < width
            invariant
                width == layout.width,
                channels == layout.width_stride,
                c == channels,
                slice_input_ok(
                    proc.spec_mode(),
                    proc.spec_threshold(),
                    *layout,
                    data@.len(),
                    num_rows as nat,
                    out_row as nat,
                    old(buffer)@.len(),
                ),
                self.spec_mode() == proc.spec_mode(),
                self.spec_threshold() == proc.spec_threshold(),
                self.spec_background() == proc.spec_background(),
                self.spec_outlier() == proc.spec_outlier(),
                self.spec_compression() == proc.spec_compression(),
                proc == *old(self),
                buffer@.len() == old(buffer)@.len(),
                outlier_mask@.len() == old(outlier_mask)@.len(),
                old(outlier_mask)@.len() == old(buffer)@.len(),
                pixel@.len() == channels,
                base == out_index(*layout, out_row as int, 0),
                base == out_row * layout.height_stride,
                0 <= col <= width,
                picks.len() == col,
                forall|j: int|
                    0 <= j < col ==> 0 <= #[trigger] picks[j] < num_rows && column_written(
                        proc,
                        data@,
                        *layout,
                        num_rows as nat,
                        out_row as int,
                        buffer@,
                        outlier_mask@,
                        j,
                        picks[j],
                    ),
                forall|i: int|
                    0 <= i < buffer@.len() && !(base <= i < out_index(*layout, out_row as int, col as int))
                        ==> #[trigger] buffer@[i] == old(buffer)@[i],
                forall|i: int|
                    0 <= i < outlier_mask@.len() && !(base <= i < out_index(*layout, out_row as int, col as int))
                        ==> #[trigger] outlier_mask@[i] == old(outlier_mask)@[i],
            decreases width - col,
        {
            let column = Self::gather_column(data, layout, num_rows, col);
            proof {
                assert(column@.len() == num_rows * channels);
                assert(column@.len() / c == num_rows) by (nonlinear_arith)
                    requires column@.len() == num_rows * channels, channels >= 1, c == channels;
                assert(column@.len() % c == 0) by (nonlinear_arith)
                    requires column@.len() == num_rows * channels, channels >= 1, c == channels;
                assert(column@.len() >= c) by (nonlinear_arith)
                    requires column@.len() == num_rows * channels, num_rows >= 1, c == channels;
            }
            let ghost pre = *self;
            let is_out = self.calc_pixel(&column, &mut pixel);
            let ghost r = choose|r: int|
                0 <= r < num_samples(column@, c) && pixel@ == pre.pixel_of(column@, c, r).0 && is_out
                    == pre.pixel_of(column@, c, r).1;
            proof {
                assert(pre.pixel_of(column@, c, r) == proc.pixel_of(column@, c, r));
            }
            proof {
                lemma_sample_index(col as int, width as int, channels as int, 0);
                assert(out_index(*layout, out_row as int, col as int) == base + col * channels);
                assert(out_index(*layout, out_row as int, col as int + 1) == base + col * channels + channels);
            }
            let blen = buffer.len();
            proof {
                assert(base + width * channels <= blen);
                assert(col * channels + channels <= width * channels);
            }
            let start = out_row * layout.height_stride + col * channels;
            let ghost prev_buffer = buffer@;
            let ghost prev_mask = outlier_mask@;
            write_pixel(buffer, outlier_mask, start, &pixel, is_out);
            proof {
                assert forall|j: int|
                    0 <= j < col + 1 implies 0 <= #[trigger] picks.push(r)[j] < num_rows && column_written(
                        proc,
                        data@,
                        *layout,
                        num_rows as nat,
                        out_row as int,
                        buffer@,
                        outlier_mask@,
                        j,
                        picks.push(r)[j],
                    ) by {
                    if j < col {
                        lemma_sample_index(j, col as int, channels as int, 0);
                        let st = out_index(*layout, out_row as int, j);
                        assert(st == base + j * channels);
                        assert(buffer@.subrange(st, st + channels) =~= prev_buffer.subrange(st, st + channels));
                        assert(outlier_mask@.subrange(st, st + channels) =~= prev_mask.subrange(st, st + channels));
                    } else {
                        assert(picks.push(r)[j] == r);
                        assert(out_index(*layout, out_row as int, j) == start);
                    }
                }
                picks = picks.push(r);
            }
            col = col + 1;
        }
        proof {
            assert forall|j: int| 0 <= j < layout.width implies #[trigger] column_done(
                proc,
                data@,
                *layout,
                num_rows as nat,
                out_row as int,
                buffer@,
                outlier_mask@,
                j,
            ) by {
                assert(0 <= picks[j] < num_rows);
                assert(column_written(proc, data@, *layout, num_rows as nat, out_row as int, buffer@, outlier_mask@, j, picks[j]));
            }
        }
    }
}

} // verus!
