use vstd::prelude::*;

use crate::chunk::Chunk;
use crate::ffms::{DecodeError, DecodeStrat, FFMS_Frame, VidInf};
use crate::pack::{packed_row_len, MAX_WIDTH};
use crate::plane::{lemma_window_matches_tight, lemma_packed_rows_len, lemma_stride_matches_tight, copy_with_stride, rows_fit_check, wide_mul, pack_stride_rem, packed_rows, plane_rows, rows_fit};

verus! {

/// Offsets and lengths for cutting a centred crop out of a frame, worked out
/// once per run.
#[derive(Clone, Copy, Debug)]
pub struct CropCalc {
    pub new_w: u32,
    pub new_h: u32,
    pub y_stride: usize,
    pub uv_stride: usize,
    pub y_start: usize,
    pub u_start: usize,
    pub v_start: usize,
    pub y_len: usize,
    pub uv_len: usize,
    pub uv_off: usize,
    pub crop_v: u32,
    pub crop_h: u32,
}

impl CropCalc {
    /// The crop of `crop = (vertical, horizontal)` pixels off each side of a
    /// `w`×`h` frame of `pix_sz`-byte samples.
    pub open spec fn spec_new(w: u32, h: u32, crop: (u32, u32), pix_sz: usize) -> CropCalc {
        let (cv, ch) = crop;
        let uv_off = ((cv / 2 * w / 2 + ch / 2) * pix_sz) as usize;
        let new_w = (w - 2 * ch) as u32;
        CropCalc {
            new_w,
            new_h: (h - 2 * cv) as u32,
            y_stride: (w * pix_sz) as usize,
            uv_stride: (w / 2 * pix_sz) as usize,
            y_start: ((cv * w + ch) * pix_sz) as usize,
            u_start: (w * h * pix_sz + uv_off) as usize,
            v_start: (w * h * pix_sz + (w / 2 * h / 2) * pix_sz + uv_off) as usize,
            y_len: (new_w * pix_sz) as usize,
            uv_len: (new_w / 2 * pix_sz) as usize,
            uv_off,
            crop_v: cv,
            crop_h: ch,
        }
    }

    /// Bytes of the tight frame (Y, then U, then V, no padding) that the
    /// crop copier reads.
    pub open spec fn spec_crop_bytes(&self, src: Seq<u8>) -> Seq<u8> {
        plane_rows(src, self.y_start as int, self.y_stride as int, self.y_len as int, self.new_h as nat)
            + plane_rows(
            src,
            self.u_start as int,
            self.uv_stride as int,
            self.uv_len as int,
            (self.new_h / 2) as nat,
        ) + plane_rows(
            src,
            self.v_start as int,
            self.uv_stride as int,
            self.uv_len as int,
            (self.new_h / 2) as nat,
        )
    }

    /// Every row the crop copier reads lies inside `len` bytes.
    pub open spec fn fits(&self, len: int) -> bool {
        &&& rows_fit(len, self.y_start as int, self.y_stride as int, self.y_len as int, self.new_h as int)
        &&& rows_fit(
            len,
            self.u_start as int,
            self.uv_stride as int,
            self.uv_len as int,
            (self.new_h / 2) as int,
        )
        &&& rows_fit(
            len,
            self.v_start as int,
            self.uv_stride as int,
            self.uv_len as int,
            (self.new_h / 2) as int,
        )
    }

    /// Works out the crop of `crop = (vertical, horizontal)` pixels off each
    /// side of a frame of `pix_sz`-byte samples. The crop is even, as 4:2:0
    /// chroma halves it, and leaves a picture.
    pub fn new(inf: &VidInf, crop: (u32, u32), pix_sz: usize) -> (r: Self)
        requires
            inf.dims_ok(),
            crop.0 % 2 == 0,
            crop.1 % 2 == 0,
            2 * crop.0 < inf.height,
            2 * crop.1 < inf.width,
            pix_sz == 1 || pix_sz == 2,
        ensures
            r.new_w > 0,
            r.new_h > 0,
            r.new_w + 2 * crop.1 == inf.width,
            r.new_h + 2 * crop.0 == inf.height,
            inf.width % 2 == 0 ==> r.new_w % 2 == 0,
            inf.height % 2 == 0 ==> r.new_h % 2 == 0,
            r.crop_v == crop.0,
            r.crop_h == crop.1,
            r.y_stride == inf.width * pix_sz,
            r.uv_stride == inf.width / 2 * pix_sz,
            r.y_start == (crop.0 * inf.width + crop.1) * pix_sz,
            r.uv_off == (crop.0 / 2 * inf.width / 2 + crop.1 / 2) * pix_sz,
            r.u_start == inf.width * inf.height * pix_sz + r.uv_off,
            r.v_start == inf.width * inf.height * pix_sz + (inf.width / 2 * inf.height / 2) * pix_sz
                + r.uv_off,
            r.y_len == r.new_w * pix_sz,
            r.uv_len == r.new_w / 2 * pix_sz,
            r == Self::spec_new(inf.width, inf.height, crop, pix_sz),
    {
        let (cv, ch) = crop;
        let w = inf.width as usize;
        let h = inf.height as usize;
        let new_w = inf.width - ch * 2;
        let new_h = inf.height - cv * 2;
        proof {
            assert(cv * w <= w * h) by (nonlinear_arith)
                requires
                    cv <= h,
            ;
            assert(w * h <= 0x1000_0000);
            assert(w / 2 * h / 2 <= w * h) by (nonlinear_arith);
            assert(cv / 2 * w / 2 <= w * h) by (nonlinear_arith)
                requires
                    cv <= h,
            ;
        }
        let y_stride = w * pix_sz;
        let uv_stride = w / 2 * pix_sz;
        let y_start = (cv as usize * w + ch as usize) * pix_sz;
        let y_plane = w * h * pix_sz;
        let uv_plane = (w / 2 * h / 2) * pix_sz;
        let uv_off = (cv as usize / 2 * w / 2 + ch as usize / 2) * pix_sz;
        let u_start = y_plane + uv_off;
        let v_start = y_plane + uv_plane + uv_off;
        let y_len = new_w as usize * pix_sz;
        let uv_len = new_w as usize / 2 * pix_sz;
        CropCalc {
            new_w,
            new_h,
            y_stride,
            uv_stride,
            y_start,
            u_start,
            v_start,
            y_len,
            uv_len,
            uv_off,
            crop_v: cv,
            crop_h: ch,
        }
    }

    /// Whether every row the crop copier reads lies inside `len` bytes.
    pub fn fits_in(&self, len: usize) -> (r: bool)
        ensures
            r == self.fits(len as int),
    {
        rows_fit_check(len, self.y_start, self.y_stride, self.y_len, self.new_h as usize)
            && rows_fit_check(len, self.u_start, self.uv_stride, self.uv_len, (self.new_h / 2) as usize)
            && rows_fit_check(len, self.v_start, self.uv_stride, self.uv_len, (self.new_h / 2) as usize)
    }

    /// Copies the crop out of a tight frame `src` (Y, then U, then V, no
    /// padding): each plane row by row, each row one contiguous run.
    pub fn crop(&self, src: &[u8], dst: &mut Vec<u8>)
        requires
            self.fits(src@.len() as int),
        ensures
            final(dst)@ == old(dst)@ + self.spec_crop_bytes(src@),
    {
        copy_with_stride(src, self.y_start, self.y_stride, self.y_len, self.new_h as usize, dst);
        copy_with_stride(src, self.u_start, self.uv_stride, self.uv_len, self.new_h as usize / 2, dst);
        copy_with_stride(src, self.v_start, self.uv_stride, self.uv_len, self.new_h as usize / 2, dst);
        assert(dst@ =~= old(dst)@ + self.spec_crop_bytes(src@));
    }
}

/// Where one plane's rows lie in a decoded plane buffer: the first at
/// `start`, each next `stride` bytes further, `row_bytes` long, `rows` of them.
#[derive(Clone, Copy, Debug)]
pub struct PlaneCut {
    pub start: usize,
    pub stride: usize,
    pub row_bytes: usize,
    pub rows: usize,
}

/// The strategy packs 10-bit samples.
pub open spec fn is_packed(strat: DecodeStrat) -> bool {
    match strat {
        DecodeStrat::B8Fast | DecodeStrat::B8Stride | DecodeStrat::B8Crop { .. }
        | DecodeStrat::B8CropFast { .. } | DecodeStrat::B8CropStride { .. } => false,
        _ => true,
    }
}

/// `(start, stride, row_bytes, rows)` of plane `plane` (0 = Y, 1 = U, 2 = V)
/// for a `w`×`h` source whose plane rows are `ls` bytes apart. For
/// `B8CropStride` this is the tight copy that the crop is then taken from.
pub open spec fn spec_plane_cut(strat: DecodeStrat, w: int, h: int, ls: int, plane: int) -> (
    int,
    int,
    int,
    int,
) {
    let luma = plane == 0;
    match strat {
        DecodeStrat::B10Fast | DecodeStrat::B10FastRem => if luma {
            (0, 2 * w, 2 * w, h)
        } else {
            (0, w / 2 * 2, w / 2 * 2, h / 2)
        },
        DecodeStrat::B10Stride | DecodeStrat::B10StrideRem => if luma {
            (0, ls, 2 * w, h)
        } else {
            (0, ls, w / 2 * 2, h / 2)
        },
        DecodeStrat::B10CropFast { cc } | DecodeStrat::B10CropFastRem { cc } => if luma {
            (cc.y_start as int, cc.y_len as int, cc.y_len as int, cc.new_h as int)
        } else {
            (cc.uv_off as int, cc.uv_len as int, cc.uv_len as int, (cc.new_h / 2) as int)
        },
        DecodeStrat::B10Crop { cc } | DecodeStrat::B10CropRem { cc } => if luma {
            (cc.y_start as int, ls, cc.y_len as int, cc.new_h as int)
        } else {
            (cc.uv_off as int, ls, cc.uv_len as int, (cc.new_h / 2) as int)
        },
        DecodeStrat::B10CropStride { cc } | DecodeStrat::B10CropStrideRem { cc } => if luma {
            (cc.crop_h * 2 + cc.crop_v * ls, ls, cc.y_len as int, cc.new_h as int)
        } else {
            (cc.crop_h / 2 * 2 + cc.crop_v / 2 * ls, ls, cc.uv_len as int, (cc.new_h / 2) as int)
        },
        DecodeStrat::B8Fast => if luma {
            (0, w, w, h)
        } else {
            (0, w / 2, w / 2, h / 2)
        },
        DecodeStrat::B8Stride | DecodeStrat::B8CropStride { .. } => if luma {
            (0, ls, w, h)
        } else {
            (0, ls, w / 2, h / 2)
        },
        DecodeStrat::B8CropFast { cc } => if luma {
            (cc.y_start as int, cc.y_len as int, cc.y_len as int, cc.new_h as int)
        } else {
            (cc.uv_off as int, cc.uv_len as int, cc.uv_len as int, (cc.new_h / 2) as int)
        },
        DecodeStrat::B8Crop { cc } => if luma {
            (cc.y_start as int, cc.y_stride as int, cc.y_len as int, cc.new_h as int)
        } else {
            (cc.uv_off as int, cc.uv_stride as int, cc.uv_len as int, (cc.new_h / 2) as int)
        },
    }
}

/// The bytes cut out of one plane buffer: its rows copied, or packed.
pub open spec fn cut_bytes(src: Seq<u8>, c: (int, int, int, int), packed: bool) -> Seq<u8> {
    if packed {
        packed_rows(src, c.0, c.1, c.2, c.3 as nat)
    } else {
        plane_rows(src, c.0, c.1, c.2, c.3 as nat)
    }
}

/// The cut of plane `p` of `frame` under `strat`.
pub open spec fn frame_cut(strat: DecodeStrat, inf: VidInf, frame: FFMS_Frame, p: int) -> (
    int,
    int,
    int,
    int,
) {
    spec_plane_cut(strat, inf.width as int, inf.height as int, frame.linesize[p] as int, p)
}

/// The planes of `frame` cut under `strat`, Y then U then V.
pub open spec fn planes_bytes(strat: DecodeStrat, inf: VidInf, frame: FFMS_Frame) -> Seq<u8> {
    cut_bytes(frame.data[0]@, frame_cut(strat, inf, frame, 0), is_packed(strat)) + cut_bytes(
        frame.data[1]@,
        frame_cut(strat, inf, frame, 1),
        is_packed(strat),
    ) + cut_bytes(frame.data[2]@, frame_cut(strat, inf, frame, 2), is_packed(strat))
}

/// The bytes one frame contributes to a work packet under `strat`.
pub open spec fn spec_frame_bytes(strat: DecodeStrat, inf: VidInf, frame: FFMS_Frame) -> Seq<u8> {
    match strat {
        DecodeStrat::B8CropStride { cc } => cc.spec_crop_bytes(planes_bytes(strat, inf, frame)),
        _ => planes_bytes(strat, inf, frame),
    }
}

/// A cut can be taken from a plane buffer of `len` bytes: its rows lie
/// inside, its rows are at most `2·MAX_WIDTH` bytes, and packed rows hold
/// whole samples.
pub open spec fn cut_ok(len: int, c: (int, int, int, int), packed: bool) -> bool {
    &&& rows_fit(len, c.0, c.1, c.2, c.3)
    &&& 0 <= c.2 <= 2 * MAX_WIDTH
    &&& packed ==> c.2 % 2 == 0
}

/// Every row the strategy reads lies inside `frame`'s planes.
pub open spec fn frame_fits(strat: DecodeStrat, inf: VidInf, frame: FFMS_Frame) -> bool {
    &&& cut_ok(frame.data[0]@.len() as int, frame_cut(strat, inf, frame, 0), is_packed(strat))
    &&& cut_ok(frame.data[1]@.len() as int, frame_cut(strat, inf, frame, 1), is_packed(strat))
    &&& cut_ok(frame.data[2]@.len() as int, frame_cut(strat, inf, frame, 2), is_packed(strat))
    &&& match strat {
        DecodeStrat::B8CropStride { cc } => cc.fits(planes_bytes(strat, inf, frame).len() as int),
        _ => true,
    }
}

/// Whether the strategy packs 10-bit samples.
pub fn strat_is_packed(strat: &DecodeStrat) -> (r: bool)
    ensures
        r == is_packed(*strat),
{
    match strat {
        DecodeStrat::B8Fast | DecodeStrat::B8Stride | DecodeStrat::B8Crop { .. }
        | DecodeStrat::B8CropFast { .. } | DecodeStrat::B8CropStride { .. } => false,
        _ => true,
    }
}

/// Plane `plane`'s cut under `strat`, if it can be taken from a buffer of
/// `len` bytes whose rows are `ls` bytes apart.
pub fn plane_cut(strat: &DecodeStrat, inf: &VidInf, ls: usize, plane: usize, len: usize) -> (r:
    Option<PlaneCut>)
    requires
        inf.dims_ok(),
    ensures
        ({
            let c = spec_plane_cut(*strat, inf.width as int, inf.height as int, ls as int, plane as int);
            &&& r is Some <==> cut_ok(len as int, c, is_packed(*strat))
            &&& r matches Some(pc) ==> pc.stride == c.1 && pc.row_bytes == c.2 && pc.rows == c.3 && (
            pc.rows > 0 ==> pc.start == c.0)
        }),
{
    let w = inf.width as usize;
    let h = inf.height as usize;
    let luma = plane == 0;
    let (start, stride, row_bytes, rows): (u128, usize, usize, usize) = match strat {
        DecodeStrat::B10Fast | DecodeStrat::B10FastRem => if luma {
            (0, 2 * w, 2 * w, h)
        } else {
            (0, w / 2 * 2, w / 2 * 2, h / 2)
        },
        DecodeStrat::B10Stride | DecodeStrat::B10StrideRem => if luma {
            (0, ls, 2 * w, h)
        } else {
            (0, ls, w / 2 * 2, h / 2)
        },
        DecodeStrat::B10CropFast { cc } | DecodeStrat::B10CropFastRem { cc } => if luma {
            (cc.y_start as u128, cc.y_len, cc.y_len, cc.new_h as usize)
        } else {
            (cc.uv_off as u128, cc.uv_len, cc.uv_len, (cc.new_h / 2) as usize)
        },
        DecodeStrat::B10Crop { cc } | DecodeStrat::B10CropRem { cc } => if luma {
            (cc.y_start as u128, ls, cc.y_len, cc.new_h as usize)
        } else {
            (cc.uv_off as u128, ls, cc.uv_len, (cc.new_h / 2) as usize)
        },
        DecodeStrat::B10CropStride { cc } | DecodeStrat::B10CropStrideRem { cc } => if luma {
            (
                (cc.crop_h as u128) * 2 + wide_mul(cc.crop_v as u64, ls as u64),
                ls,
                cc.y_len,
                cc.new_h as usize,
            )
        } else {
            (
                (cc.crop_h / 2) as u128 * 2 + wide_mul((cc.crop_v / 2) as u64, ls as u64),
                ls,
                cc.uv_len,
                (cc.new_h / 2) as usize,
            )
        },
        DecodeStrat::B8Fast => if luma {
            (0, w, w, h)
        } else {
            (0, w / 2, w / 2, h / 2)
        },
        DecodeStrat::B8Stride | DecodeStrat::B8CropStride { .. } => if luma {
            (0, ls, w, h)
        } else {
            (0, ls, w / 2, h / 2)
        },
        DecodeStrat::B8CropFast { cc } => if luma {
            (cc.y_start as u128, cc.y_len, cc.y_len, cc.new_h as usize)
        } else {
            (cc.uv_off as u128, cc.uv_len, cc.uv_len, (cc.new_h / 2) as usize)
        },
        DecodeStrat::B8Crop { cc } => if luma {
            (cc.y_start as u128, cc.y_stride, cc.y_len, cc.new_h as usize)
        } else {
            (cc.uv_off as u128, cc.uv_stride, cc.uv_len, (cc.new_h / 2) as usize)
        },
    };
    if row_bytes > 2 * MAX_WIDTH || (strat_is_packed(strat) && row_bytes % 2 != 0) {
        return None;
    }
    if rows == 0 {
        return Some(PlaneCut { start: 0, stride, row_bytes, rows });
    }
    if start > len as u128 {
        return None;
    }
    let start = start as usize;
    if rows_fit_check(len, start, stride, row_bytes, rows) {
        Some(PlaneCut { start, stride, row_bytes, rows })
    } else {
        None
    }
}

/// Appends plane `src`'s cut: its rows copied, or packed.
pub fn cut_plane(src: &[u8], c: &PlaneCut, packed: bool, out: &mut Vec<u8>)
    requires
        cut_ok(
            src@.len() as int,
            (c.start as int, c.stride as int, c.row_bytes as int, c.rows as int),
            packed,
        ),
    ensures
        final(out)@ == old(out)@ + cut_bytes(
            src@,
            (c.start as int, c.stride as int, c.row_bytes as int, c.rows as int),
            packed,
        ),
{
    if packed {
        pack_stride_rem(src, c.start, c.stride, c.row_bytes / 2, c.rows, out);
    } else {
        copy_with_stride(src, c.start, c.stride, c.row_bytes, c.rows, out);
    }
}

/// Cuts one decoded frame under `strat` and appends its bytes to `out`.
/// Fails, leaving `out` as it was, when the frame's planes do not hold the
/// rows the strategy reads.
pub fn extract_frame(strat: &DecodeStrat, frame: &FFMS_Frame, inf: &VidInf, out: &mut Vec<u8>) -> (r:
    Result<(), DecodeError>)
    requires
        inf.dims_ok(),
    ensures
        r is Ok <==> frame_fits(*strat, *inf, *frame),
        r is Ok ==> final(out)@ == old(out)@ + spec_frame_bytes(*strat, *inf, *frame),
        r is Err ==> r == Err::<(), DecodeError>(DecodeError::FrameFetch) && final(out)@ == old(out)@,
{
    let packed = strat_is_packed(strat);
    let y = frame.data[0].as_slice();
    let u = frame.data[1].as_slice();
    let v = frame.data[2].as_slice();
    let cy = plane_cut(strat, inf, frame.linesize[0], 0, y.len());
    let cu = plane_cut(strat, inf, frame.linesize[1], 1, u.len());
    let cv = plane_cut(strat, inf, frame.linesize[2], 2, v.len());
    let (cy, cu, cv) = match (cy, cu, cv) {
        (Some(a), Some(b), Some(c)) => (a, b, c),
        _ => {
            return Err(DecodeError::FrameFetch);
        },
    };
    match strat {
        DecodeStrat::B8CropStride { cc } => {
            let mut tight: Vec<u8> = Vec::new();
            cut_plane(y, &cy, packed, &mut tight);
            cut_plane(u, &cu, packed, &mut tight);
            cut_plane(v, &cv, packed, &mut tight);
            assert(tight@ =~= planes_bytes(*strat, *inf, *frame));
            if !cc.fits_in(tight.len()) {
                return Err(DecodeError::FrameFetch);
            }
            cc.crop(tight.as_slice(), out);
        },
        _ => {
            cut_plane(y, &cy, packed, out);
            cut_plane(u, &cu, packed, out);
            cut_plane(v, &cv, packed, out);
            assert(out@ =~= old(out)@ + planes_bytes(*strat, *inf, *frame));
        },
    }
    Ok(())
}

/// A strategy that reads padded rows, and the one that reads the same
/// planes laid out tightly.
pub open spec fn stride_pair(stride: DecodeStrat, fast: DecodeStrat) -> bool {
    (stride == DecodeStrat::B8Stride && fast == DecodeStrat::B8Fast) || (stride
        == DecodeStrat::B10Stride && fast == DecodeStrat::B10Fast) || (stride
        == DecodeStrat::B10StrideRem && fast == DecodeStrat::B10FastRem)
}

/// For a plane whose rows are at least a row's bytes apart, the stride
/// strategy cuts the same bytes out of it as the tight strategy cuts out of
/// a tight copy of its rows.
pub proof fn lemma_stride_cut_matches_tight(
    stride: DecodeStrat,
    fast: DecodeStrat,
    inf: VidInf,
    frame: FFMS_Frame,
    p: int,
)
    requires
        stride_pair(stride, fast),
        0 <= p < 3,
        cut_ok(frame.data[p]@.len() as int, frame_cut(stride, inf, frame, p), is_packed(stride)),
        frame.linesize[p] >= frame_cut(stride, inf, frame, p).2,
    ensures
        ({
            let c = frame_cut(stride, inf, frame, p);
            let tight = plane_rows(frame.data[p]@, c.0, c.1, c.2, c.3 as nat);
            &&& c.0 == 0
            &&& spec_plane_cut(fast, inf.width as int, inf.height as int, 0, p) == (0int, c.2, c.2, c.3)
            &&& cut_bytes(frame.data[p]@, c, is_packed(stride)) == cut_bytes(
                tight,
                spec_plane_cut(fast, inf.width as int, inf.height as int, 0, p),
                is_packed(fast),
            )
        }),
{
    let c = frame_cut(stride, inf, frame, p);
    lemma_stride_matches_tight(frame.data[p]@, c.1, c.2, c.3 as nat);
}

/// Each of the crop strategies with padded rows of 10-bit samples gives
/// frames of `packed_row_len(w)·h + 2·packed_row_len(w/2)·(h/2)` bytes,
/// for the cropped `w`×`h`.
pub proof fn lemma_crop_rem_frame_len(strat: DecodeStrat, cc: CropCalc, inf: VidInf, frame: FFMS_Frame)
    requires
        strat == (DecodeStrat::B10CropFastRem { cc }) || strat == (DecodeStrat::B10CropRem { cc })
            || strat == (DecodeStrat::B10CropStrideRem { cc }),
        cc.y_len == 2 * cc.new_w,
        cc.uv_len == 2 * (cc.new_w / 2),
        frame_fits(strat, inf, frame),
    ensures
        spec_frame_bytes(strat, inf, frame).len() == packed_row_len(cc.new_w as nat) * cc.new_h + 2
            * packed_row_len((cc.new_w / 2) as nat) * (cc.new_h / 2),
{
    let c0 = frame_cut(strat, inf, frame, 0);
    let c1 = frame_cut(strat, inf, frame, 1);
    let c2 = frame_cut(strat, inf, frame, 2);
    lemma_packed_rows_len(frame.data[0]@, c0.0, c0.1, cc.new_w as int, c0.3 as nat);
    lemma_packed_rows_len(frame.data[1]@, c1.0, c1.1, (cc.new_w / 2) as int, c1.3 as nat);
    lemma_packed_rows_len(frame.data[2]@, c2.0, c2.1, (cc.new_w / 2) as int, c2.3 as nat);
    assert(2 * packed_row_len((cc.new_w / 2) as nat) * (cc.new_h / 2) == (cc.new_h / 2)
        * packed_row_len((cc.new_w / 2) as nat) + (cc.new_h / 2) * packed_row_len(
        (cc.new_w / 2) as nat,
    )) by (nonlinear_arith);
    assert(cc.new_h * packed_row_len(cc.new_w as nat) == packed_row_len(cc.new_w as nat) * cc.new_h)
        by (nonlinear_arith);
}

/// One chunk's frames, packed back to back, handed to a worker.
pub struct WorkPkg {
    pub chunk: Chunk,
    pub frames: Vec<u8>,
    pub frame_count: usize,
    pub width: u32,
    pub height: u32,
}

impl WorkPkg {
    pub fn new(chunk: Chunk, frames: Vec<u8>, frame_count: usize, width: u32, height: u32) -> (r: Self)
        ensures
            r.chunk == chunk,
            r.frames@ == frames@,
            r.frame_count == frame_count,
            r.width == width,
            r.height == height,
    {
        WorkPkg { chunk, frames, frame_count, width, height }
    }
}

/// Frame `i` of a packet whose frames are `frame_size` bytes each.
pub fn get_frame(frames: &[u8], i: usize, frame_size: usize) -> (r: &[u8])
    requires
        (i + 1) * frame_size <= frames@.len(),
    ensures
        r@ == frames@.subrange(i * frame_size, (i + 1) * frame_size),
{
    let _len = frames.len();
    proof {
        assert(i * frame_size <= (i + 1) * frame_size) by (nonlinear_arith);
        assert((i + 1) * frame_size == i * frame_size + frame_size) by (nonlinear_arith);
    }
    let start = i * frame_size;
    let end = start + frame_size;
    let r = &frames[start..end];
    r
}

/// `(full_row, full_rows, top, off)` of plane `p` under a 10-bit crop: the
/// plane's tight row length and row count, and the window's first row and
/// first byte in it.
pub open spec fn crop_window(inf: VidInf, cc: CropCalc, p: int) -> (int, int, int, int) {
    if p == 0 {
        (2 * inf.width, inf.height as int, cc.crop_v as int, 2 * cc.crop_h)
    } else {
        (2 * (inf.width / 2), (inf.height / 2) as int, (cc.crop_v / 2) as int, 2 * (cc.crop_h / 2))
    }
}

/// For the 10-bit crop strategies with padded rows, each plane's bytes are
/// the crop window of a tight copy of that plane, packed: the same as
/// cropping a tight frame and packing it.
pub proof fn lemma_crop_stride_matches_tight(
    strat: DecodeStrat,
    cc: CropCalc,
    inf: VidInf,
    frame: FFMS_Frame,
    p: int,
)
    requires
        strat == (DecodeStrat::B10CropStride { cc }) || strat == (DecodeStrat::B10CropStrideRem { cc }),
        cc == CropCalc::spec_new(inf.width, inf.height, (cc.crop_v, cc.crop_h), 2),
        cc.crop_v % 2 == 0,
        cc.crop_h % 2 == 0,
        2 * cc.crop_v < inf.height,
        2 * cc.crop_h < inf.width,
        0 <= p < 3,
        rows_fit(
            frame.data[p]@.len() as int,
            0,
            frame.linesize[p] as int,
            crop_window(inf, cc, p).0,
            crop_window(inf, cc, p).1,
        ),
        frame.linesize[p] >= crop_window(inf, cc, p).0,
    ensures
        ({
            let (full_row, full_rows, top, off) = crop_window(inf, cc, p);
            let c = frame_cut(strat, inf, frame, p);
            let tight = plane_rows(frame.data[p]@, 0, frame.linesize[p] as int, full_row, full_rows as nat);
            cut_bytes(frame.data[p]@, c, true) == packed_rows(
                tight,
                top * full_row + off,
                full_row,
                c.2,
                c.3 as nat,
            )
        }),
{
    let (full_row, full_rows, top, off) = crop_window(inf, cc, p);
    let c = frame_cut(strat, inf, frame, p);
    let ls = frame.linesize[p] as int;
    assert(c.0 == top * ls + off);
    assert(c.1 == ls);
    assert(top + c.3 <= full_rows);
    assert(off + c.2 <= full_row);
    lemma_window_matches_tight(frame.data[p]@, ls, full_row, full_rows as nat, top, off, c.2, c.3 as nat);
}

} // verus!
