use vstd::prelude::*;

use crate::ffms::{FFMS_Frame, VidInf};
use crate::pack::MAX_WIDTH;

verus! {

/// How many frames the crop detector samples.
#[derive(Debug, Clone, Copy)]
pub struct CropDetectConfig {
    pub sample_count: usize,
    pub min_black_pixels: usize,
}

/// Insets, in pixels, of the picture from each edge of the frame.
#[derive(Debug, Clone, Copy, PartialEq, Eq, Structural)]
pub struct CropResult {
    pub top: u32,
    pub bottom: u32,
    pub left: u32,
    pub right: u32,
}

/// `x` rounded down to an even value.
pub open spec fn even_down(x: u32) -> u32 {
    (x - x % 2) as u32
}

pub open spec fn min_u32(a: u32, b: u32) -> u32 {
    if a < b {
        a
    } else {
        b
    }
}

impl CropResult {
    pub fn no_crop() -> (r: Self)
        ensures
            r == (CropResult { top: 0, bottom: 0, left: 0, right: 0 }),
    {
        Self { top: 0, bottom: 0, left: 0, right: 0 }
    }

    pub fn has_crop(&self) -> (r: bool)
        ensures
            r <==> (self.top > 0 || self.bottom > 0 || self.left > 0 || self.right > 0),
    {
        self.top > 0 || self.bottom > 0 || self.left > 0 || self.right > 0
    }

    /// The symmetric, even crop `(vertical, horizontal)`: the smaller inset
    /// of each pair of opposite edges, rounded down to an even value.
    pub fn to_tuple(self) -> (r: (u32, u32))
        ensures
            r == (even_down(min_u32(self.top, self.bottom)), even_down(min_u32(self.left, self.right))),
    {
        let v = if self.top < self.bottom {
            self.top
        } else {
            self.bottom
        };
        let h = if self.left < self.right {
            self.left
        } else {
            self.right
        };
        let v_even = v & !1u32;
        let h_even = h & !1u32;
        assert(v & !1u32 == v - v % 2) by (bit_vector);
        assert(h & !1u32 == h - h % 2) by (bit_vector);
        (v_even, h_even)
    }
}

/// Bytes per luma sample.
pub open spec fn pix_size(is_10bit: bool) -> int {
    if is_10bit {
        2
    } else {
        1
    }
}

/// `(dark, variance, clamp)` thresholds of the detector for a bit depth.
pub open spec fn thresholds(is_10bit: bool) -> (u64, u64, u64) {
    if is_10bit {
        (128, 64, 64)
    } else {
        (32, 16, 16)
    }
}

/// The luma sample at byte `pos`: one byte, or two little-endian bytes.
pub open spec fn sample_at(data: Seq<u8>, pos: int, is_10bit: bool) -> u64 {
    if is_10bit {
        ((data[pos] as u64) + 256 * (data[pos + 1] as u64)) as u64
    } else {
        data[pos] as u64
    }
}

/// The sample at `pos`, raised to the black clamp.
pub open spec fn clamped_at(data: Seq<u8>, pos: int, is_10bit: bool) -> u64 {
    let v = sample_at(data, pos, is_10bit);
    let c = thresholds(is_10bit).2;
    if v < c {
        c
    } else {
        v
    }
}

/// Sum of the first `n` clamped samples of the line starting at `base`,
/// `step` bytes apart.
pub open spec fn line_sum(data: Seq<u8>, base: int, step: int, n: nat, is_10bit: bool) -> u64
    decreases n,
{
    if n == 0 {
        0
    } else {
        (line_sum(data, base, step, (n - 1) as nat, is_10bit) + clamped_at(
            data,
            base + (n - 1) * step,
            is_10bit,
        )) as u64
    }
}

pub open spec fn abs_diff(a: u64, b: u64) -> u64 {
    if a < b {
        (b - a) as u64
    } else {
        (a - b) as u64
    }
}

/// The line of `count` samples at `base`, `step` bytes apart, ends the
/// black border: its clamped mean reaches the dark threshold, or one of its
/// clamped samples strays from the mean by more than the variance
/// threshold.
pub open spec fn line_ends_border(
    data: Seq<u8>,
    base: int,
    step: int,
    count: nat,
    is_10bit: bool,
) -> bool {
    let mean = line_sum(data, base, step, count, is_10bit) / (count as u64);
    let (dark, variance, _) = thresholds(is_10bit);
    mean >= dark || exists|i: int|
        0 <= i < count && abs_diff(#[trigger] clamped_at(data, base + i * step, is_10bit), mean)
            > variance
}

/// The luma plane holds `height` rows of `width` samples, rows `stride`
/// bytes apart.
pub open spec fn luma_fits(len: int, width: int, height: int, stride: int, is_10bit: bool) -> bool {
    &&& 0 < width <= MAX_WIDTH
    &&& 0 < height <= MAX_WIDTH
    &&& (height - 1) * stride + width * pix_size(is_10bit) <= len
}

proof fn lemma_sum_bound(data: Seq<u8>, base: int, step: int, n: nat, is_10bit: bool)
    requires
        n <= MAX_WIDTH,
    ensures
        line_sum(data, base, step, n, is_10bit) <= n * 65535,
        line_sum(data, base, step, n, is_10bit) as int == if n == 0 {
            0
        } else {
            line_sum(data, base, step, (n - 1) as nat, is_10bit) + clamped_at(
                data,
                base + (n - 1) * step,
                is_10bit,
            )
        },
    decreases n,
{
    if n > 0 {
        lemma_sum_bound(data, base, step, (n - 1) as nat, is_10bit);
        assert(clamped_at(data, base + (n - 1) * step, is_10bit) <= 65535);
    }
}

fn read_sample(data: &[u8], pos: usize, is_10bit: bool) -> (r: u64)
    requires
        pos + pix_size(is_10bit) <= data@.len(),
    ensures
        r == clamped_at(data@, pos as int, is_10bit),
{
    let clamp: u64 = if is_10bit {
        64
    } else {
        16
    };
    let v: u64 = if is_10bit {
        ((data[pos] as u64) + 256 * (data[pos + 1] as u64)) as u64
    } else {
        data[pos] as u64
    };
    if v < clamp {
        clamp
    } else {
        v
    }
}

/// Whether the line of `count` samples at `base`, `step` bytes apart, ends
/// the black border.
pub fn line_ends_border_check(data: &[u8], base: usize, step: usize, count: usize, is_10bit: bool) -> (r:
    bool)
    requires
        0 < count <= MAX_WIDTH,
        base + (count - 1) * step + pix_size(is_10bit) <= data@.len(),
    ensures
        r == line_ends_border(data@, base as int, step as int, count as nat, is_10bit),
{
    let (dark, variance): (u64, u64) = if is_10bit {
        (128, 64)
    } else {
        (32, 16)
    };
    let _len = data.len();
    let mut sum: u64 = 0;
    let mut i: usize = 0;
    while i < count
        invariant
            0 < count <= MAX_WIDTH,
            base + (count - 1) * step + pix_size(is_10bit) <= data@.len(),
            data@.len() <= usize::MAX,
            i <= count,
            sum == line_sum(data@, base as int, step as int, i as nat, is_10bit),
        decreases count - i,
    {
        proof {
            lemma_sum_bound(data@, base as int, step as int, (i + 1) as nat, is_10bit);
            lemma_sum_bound(data@, base as int, step as int, i as nat, is_10bit);
            assert(i * step <= (count - 1) * step) by (nonlinear_arith)
                requires
                    i <= count - 1,
            ;
        }
        sum = sum + read_sample(data, base + i * step, is_10bit);
        i = i + 1;
    }
    let mean = sum / (count as u64);
    if mean >= dark {
        return true;
    }
    let mut j: usize = 0;
    while j < count
        invariant
            0 < count <= MAX_WIDTH,
            base + (count - 1) * step + pix_size(is_10bit) <= data@.len(),
            data@.len() <= usize::MAX,
            j <= count,
            mean == line_sum(data@, base as int, step as int, count as nat, is_10bit) / (count as u64),
            variance == thresholds(is_10bit).1,
            forall|k: int|
                0 <= k < j ==> abs_diff(
                    #[trigger] clamped_at(data@, base + k * step, is_10bit),
                    mean,
                ) <= variance,
        decreases count - j,
    {
        proof {
            assert(j * step <= (count - 1) * step) by (nonlinear_arith)
                requires
                    j <= count - 1,
            ;
        }
        let v = read_sample(data, base + j * step, is_10bit);
        let diff = if v < mean {
            mean - v
        } else {
            v - mean
        };
        if diff > variance {
            return true;
        }
        j = j + 1;
    }
    false
}

/// Number of lines from an edge: rows for top (0) and bottom (1), columns
/// for left (2) and right (3).
pub open spec fn edge_depth(width: int, height: int, edge: int) -> int {
    if edge < 2 {
        height
    } else {
        width
    }
}

/// Line `k` counted inward from `edge` ends the black border.
pub open spec fn edge_line_ends(
    data: Seq<u8>,
    width: int,
    height: int,
    stride: int,
    is_10bit: bool,
    edge: int,
    k: int,
) -> bool {
    let px = pix_size(is_10bit);
    if edge == 0 {
        line_ends_border(data, k * stride, px, width as nat, is_10bit)
    } else if edge == 1 {
        line_ends_border(data, (height - 1 - k) * stride, px, width as nat, is_10bit)
    } else if edge == 2 {
        line_ends_border(data, k * px, stride, height as nat, is_10bit)
    } else {
        line_ends_border(data, (width - 1 - k) * px, stride, height as nat, is_10bit)
    }
}

/// `k` is the inset of the picture from `edge`: line `k` is the first,
/// walking inward, that ends the black border.
pub open spec fn is_inset(
    data: Seq<u8>,
    width: int,
    height: int,
    stride: int,
    is_10bit: bool,
    edge: int,
    k: int,
) -> bool {
    &&& 0 <= k < edge_depth(width, height, edge)
    &&& edge_line_ends(data, width, height, stride, is_10bit, edge, k)
    &&& forall|j: int|
        0 <= j < k ==> !#[trigger] edge_line_ends(data, width, height, stride, is_10bit, edge, j)
}

/// The result of walking inward from `edge`: the inset, or `None` when no
/// line ends the border.
pub open spec fn edge_result(
    data: Seq<u8>,
    width: int,
    height: int,
    stride: int,
    is_10bit: bool,
    edge: int,
    r: Option<u32>,
) -> bool {
    match r {
        Some(k) => is_inset(data, width, height, stride, is_10bit, edge, k as int),
        None => forall|j: int|
            0 <= j < edge_depth(width, height, edge) ==> !#[trigger] edge_line_ends(
                data,
                width,
                height,
                stride,
                is_10bit,
                edge,
                j,
            ),
    }
}

/// Walks inward from `edge` (0 top, 1 bottom, 2 left, 3 right) one line at
/// a time and returns the inset of the first line that ends the border.
fn detect_edge(data: &[u8], width: usize, height: usize, stride: usize, is_10bit: bool, edge: u8) -> (r:
    Option<u32>)
    requires
        luma_fits(data@.len() as int, width as int, height as int, stride as int, is_10bit),
        edge < 4,
    ensures
        edge_result(data@, width as int, height as int, stride as int, is_10bit, edge as int, r),
{
    let px: usize = if is_10bit {
        2
    } else {
        1
    };
    let depth = if edge < 2 {
        height
    } else {
        width
    };
    let _len = data.len();
    let mut k: usize = 0;
    while k < depth
        invariant
            luma_fits(data@.len() as int, width as int, height as int, stride as int, is_10bit),
            data@.len() <= usize::MAX,
            edge < 4,
            px == pix_size(is_10bit),
            depth == edge_depth(width as int, height as int, edge as int),
            k <= depth,
            forall|j: int|
                0 <= j < k ==> !#[trigger] edge_line_ends(
                    data@,
                    width as int,
                    height as int,
                    stride as int,
                    is_10bit,
                    edge as int,
                    j,
                ),
        decreases depth - k,
    {
        let ends = if edge < 2 {
            let row = if edge == 0 {
                k
            } else {
                height - 1 - k
            };
            assert(row * stride <= (height - 1) * stride) by (nonlinear_arith)
                requires
                    row <= height - 1,
            ;
            line_ends_border_check(data, row * stride, px, width, is_10bit)
        } else {
            let col = if edge == 2 {
                k
            } else {
                width - 1 - k
            };
            assert(col * px + px <= width * px) by (nonlinear_arith)
                requires
                    col <= width - 1,
            ;
            line_ends_border_check(data, col * px, stride, height, is_10bit)
        };
        if ends {
            return Some(k as u32);
        }
        k = k + 1;
    }
    None
}

/// Rows of black border at the top of the luma plane.
pub fn detect_top_crop(data: &[u8], width: usize, height: usize, stride: usize, is_10bit: bool) -> (r:
    Option<u32>)
    requires
        luma_fits(data@.len() as int, width as int, height as int, stride as int, is_10bit),
    ensures
        edge_result(data@, width as int, height as int, stride as int, is_10bit, 0, r),
{
    detect_edge(data, width, height, stride, is_10bit, 0)
}

/// Rows of black border at the bottom of the luma plane.
pub fn detect_bottom_crop(data: &[u8], width: usize, height: usize, stride: usize, is_10bit: bool) -> (r:
    Option<u32>)
    requires
        luma_fits(data@.len() as int, width as int, height as int, stride as int, is_10bit),
    ensures
        edge_result(data@, width as int, height as int, stride as int, is_10bit, 1, r),
{
    detect_edge(data, width, height, stride, is_10bit, 1)
}

/// Columns of black border at the left of the luma plane.
pub fn detect_left_crop(data: &[u8], width: usize, height: usize, stride: usize, is_10bit: bool) -> (r:
    Option<u32>)
    requires
        luma_fits(data@.len() as int, width as int, height as int, stride as int, is_10bit),
    ensures
        edge_result(data@, width as int, height as int, stride as int, is_10bit, 2, r),
{
    detect_edge(data, width, height, stride, is_10bit, 2)
}

/// Columns of black border at the right of the luma plane.
pub fn detect_right_crop(data: &[u8], width: usize, height: usize, stride: usize, is_10bit: bool) -> (r:
    Option<u32>)
    requires
        luma_fits(data@.len() as int, width as int, height as int, stride as int, is_10bit),
    ensures
        edge_result(data@, width as int, height as int, stride as int, is_10bit, 3, r),
{
    detect_edge(data, width, height, stride, is_10bit, 3)
}

/// The four insets of one frame's luma plane, when every edge has one.
pub open spec fn frame_crop_result(frame: FFMS_Frame, inf: VidInf, r: Option<CropResult>) -> bool {
    let (d, w, h, s, b) = (
        frame.data[0]@,
        inf.width as int,
        inf.height as int,
        frame.linesize[0] as int,
        inf.is_10bit,
    );
    match r {
        Some(c) => is_inset(d, w, h, s, b, 0, c.top as int) && is_inset(d, w, h, s, b, 1, c.bottom as int)
            && is_inset(d, w, h, s, b, 2, c.left as int) && is_inset(d, w, h, s, b, 3, c.right as int),
        None => exists|e: int|
            0 <= e < 4 && #[trigger] edge_result(d, w, h, s, b, e, None),
    }
}

/// Detects the black border of one decoded frame from its luma plane.
/// `None` when some edge has no line that ends the border, or when the
/// frame does not hold a `width`×`height` luma plane.
pub fn detect_frame_crop(frame: &FFMS_Frame, inf: &VidInf) -> (r: Option<CropResult>)
    ensures
        luma_fits(
            frame.data[0]@.len() as int,
            inf.width as int,
            inf.height as int,
            frame.linesize[0] as int,
            inf.is_10bit,
        ) ==> frame_crop_result(*frame, *inf, r),
        !luma_fits(
            frame.data[0]@.len() as int,
            inf.width as int,
            inf.height as int,
            frame.linesize[0] as int,
            inf.is_10bit,
        ) ==> r is None,
{
    let data = frame.data[0].as_slice();
    let width = inf.width as usize;
    let height = inf.height as usize;
    let stride = frame.linesize[0];
    let px: usize = if inf.is_10bit {
        2
    } else {
        1
    };
    if width == 0 || height == 0 || width > MAX_WIDTH || height > MAX_WIDTH {
        return None;
    }
    let span = crate::plane::wide_mul((height - 1) as u64, stride as u64);
    if span + (width * px) as u128 > data.len() as u128 {
        return None;
    }
    let top = detect_top_crop(data, width, height, stride, inf.is_10bit);
    let bottom = detect_bottom_crop(data, width, height, stride, inf.is_10bit);
    let left = detect_left_crop(data, width, height, stride, inf.is_10bit);
    let right = detect_right_crop(data, width, height, stride, inf.is_10bit);
    let ghost (d, w, h, s, b) = (data@, width as int, height as int, stride as int, inf.is_10bit);
    match (top, bottom, left, right) {
        (Some(top), Some(bottom), Some(left), Some(right)) => Some(
            CropResult { top, bottom, left, right },
        ),
        _ => {
            proof {
                if top is None {
                    assert(edge_result(d, w, h, s, b, 0, None));
                } else if bottom is None {
                    assert(edge_result(d, w, h, s, b, 1, None));
                } else if left is None {
                    assert(edge_result(d, w, h, s, b, 2, None));
                } else {
                    assert(edge_result(d, w, h, s, b, 3, None));
                }
            }
            None
        },
    }
}

/// The smallest of the values; 0 when there are none.
pub open spec fn min_of(s: Seq<u32>) -> u32
    decreases s.len(),
{
    if s.len() == 0 {
        0
    } else if s.len() == 1 {
        s[0]
    } else {
        min_u32(min_of(s.drop_last()), s.last())
    }
}

/// The per-edge minimum over the detections, each rounded down to an even
/// value; no crop when there are no detections.
pub open spec fn spec_min_crop(samples: Seq<CropResult>) -> CropResult {
    CropResult {
        top: even_down(min_of(samples.map_values(|c: CropResult| c.top))),
        bottom: even_down(min_of(samples.map_values(|c: CropResult| c.bottom))),
        left: even_down(min_of(samples.map_values(|c: CropResult| c.left))),
        right: even_down(min_of(samples.map_values(|c: CropResult| c.right))),
    }
}

/// Combines the per-frame detections: on each edge the smallest inset,
/// rounded down to an even value.
pub fn min_crop(samples: &[CropResult]) -> (r: CropResult)
    ensures
        r == spec_min_crop(samples@),
{
    if samples.len() == 0 {
        let r = CropResult::no_crop();
        assert(samples@.map_values(|c: CropResult| c.top).len() == 0);
        return r;
    }
    let mut top = samples[0].top;
    let mut bottom = samples[0].bottom;
    let mut left = samples[0].left;
    let mut right = samples[0].right;
    let mut i: usize = 1;
    while i < samples.len()
        invariant
            1 <= i <= samples@.len(),
            top == min_of(samples@.subrange(0, i as int).map_values(|c: CropResult| c.top)),
            bottom == min_of(samples@.subrange(0, i as int).map_values(|c: CropResult| c.bottom)),
            left == min_of(samples@.subrange(0, i as int).map_values(|c: CropResult| c.left)),
            right == min_of(samples@.subrange(0, i as int).map_values(|c: CropResult| c.right)),
        decreases samples@.len() - i,
    {
        let c = samples[i];
        let ghost prev = samples@.subrange(0, i as int);
        let ghost next = samples@.subrange(0, i + 1);
        assert(next.map_values(|c: CropResult| c.top).drop_last() =~= prev.map_values(|c: CropResult| c.top));
        assert(next.map_values(|c: CropResult| c.bottom).drop_last() =~= prev.map_values(|c: CropResult| c.bottom));
        assert(next.map_values(|c: CropResult| c.left).drop_last() =~= prev.map_values(|c: CropResult| c.left));
        assert(next.map_values(|c: CropResult| c.right).drop_last() =~= prev.map_values(|c: CropResult| c.right));
        if c.top < top {
            top = c.top;
        }
        if c.bottom < bottom {
            bottom = c.bottom;
        }
        if c.left < left {
            left = c.left;
        }
        if c.right < right {
            right = c.right;
        }
        i = i + 1;
    }
    assert(samples@.subrange(0, i as int) =~= samples@);
    proof {
        assert(top & !1u32 == top - top % 2) by (bit_vector);
        assert(bottom & !1u32 == bottom - bottom % 2) by (bit_vector);
        assert(left & !1u32 == left - left % 2) by (bit_vector);
        assert(right & !1u32 == right - right % 2) by (bit_vector);
    }
    CropResult { top: top & !1u32, bottom: bottom & !1u32, left: left & !1u32, right: right & !1u32 }
}

/// Sample `i` (from 1) of `count` spread over `total` frames:
/// `i·total/(count+1)` rounded to the nearest frame, halves up, and no
/// later than the last frame.
pub open spec fn sample_frame(i: int, total: int, count: int) -> int {
    let q = i * total / (count + 1);
    let r = i * total % (count + 1);
    let rounded = if 2 * r >= count + 1 {
        q + 1
    } else {
        q
    };
    if rounded < total - 1 {
        rounded
    } else {
        total - 1
    }
}

/// The frames the crop detector samples: all of them when there are no
/// more than `sample_count`, else `sample_count` frames evenly spread.
pub fn calculate_sample_frames(total_frames: usize, sample_count: usize) -> (r: Vec<usize>)
    ensures
        total_frames <= sample_count ==> r@ == Seq::new(total_frames as nat, |i: int| i as usize),
        total_frames > sample_count ==> r@.len() == sample_count && forall|i: int|
            0 <= i < sample_count ==> #[trigger] r@[i] as int == sample_frame(
                i + 1,
                total_frames as int,
                sample_count as int,
            ),
{
    let mut frames: Vec<usize> = Vec::new();
    if total_frames <= sample_count {
        let mut i: usize = 0;
        while i < total_frames
            invariant
                i <= total_frames,
                frames@ == Seq::new(i as nat, |k: int| k as usize),
            decreases total_frames - i,
        {
            frames.push(i);
            assert(frames@ =~= Seq::new((i + 1) as nat, |k: int| k as usize));
            i = i + 1;
        }
        return frames;
    }
    let n = sample_count as u128 + 1;
    let mut i: usize = 1;
    while i <= sample_count
        invariant
            sample_count < total_frames,
            n == sample_count + 1,
            1 <= i <= sample_count + 1,
            frames@.len() == i - 1,
            forall|k: int|
                0 <= k < i - 1 ==> #[trigger] frames@[k] as int == sample_frame(
                    k + 1,
                    total_frames as int,
                    sample_count as int,
                ),
        decreases sample_count + 1 - i,
    {
        let prod = crate::plane::wide_mul(i as u64, total_frames as u64);
        let q = prod / n;
        let r = prod % n;
        proof {
            assert(q <= prod) by (nonlinear_arith)
                requires
                    q == prod / n,
                    n >= 1,
            ;
            assert(r < n);
        }
        let rounded = if 2 * r >= n {
            q + 1
        } else {
            q
        };
        let last = (total_frames - 1) as u128;
        let v = if rounded < last {
            rounded as usize
        } else {
            total_frames - 1
        };
        frames.push(v);
        i = i + 1;
    }
    frames
}

} // verus!
