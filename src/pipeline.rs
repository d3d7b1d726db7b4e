use vstd::prelude::*;

use crate::decode::{
    cut_bytes, frame_cut, frame_fits, is_packed, planes_bytes, spec_frame_bytes, CropCalc,
};
use crate::ffms::{calc_8bit_size, calc_packed_size, DecodeStrat, FFMS_Frame, VidInf, MAX_PIXELS};
use crate::pack::{packed_row_len, unpacked_seq, widen_seq, MAX_WIDTH};
use crate::plane::{lemma_packed_rows_len, lemma_plane_rows_len, conv_to_10bit, unpack_10bit_rem, unpacked_frame};

verus! {

/// How a packet frame is turned into the encoder's 16-bit input.
#[derive(Clone, Copy, Debug, PartialEq, Eq, Structural)]
pub enum UnpackMode {
    /// 8-bit samples, each widened to `v << 2`.
    Widen8,
    /// Packed 10-bit samples, width a multiple of 8.
    Packed,
    /// Packed 10-bit samples, each row padded to whole groups.
    PackedRem,
}

/// Sizes and conversion for feeding one run's packets to the encoder.
#[derive(Clone, Copy, Debug)]
pub struct Pipeline {
    pub final_w: usize,
    pub final_h: usize,
    pub frame_size: usize,
    pub y_size: usize,
    pub uv_size: usize,
    pub conv_buf_size: usize,
    pub unpack: UnpackMode,
}

pub open spec fn min_int(a: int, b: int) -> int {
    if a <= b {
        a
    } else {
        b
    }
}

/// Bytes of one frame of `w`×`h` in a packet: the luma plane and two
/// chroma planes of `w/2`×`h/2`, each row packed for a 10-bit strategy.
pub open spec fn frame_len(strat: DecodeStrat, w: u32, h: u32) -> int {
    if crate::decode::is_packed(strat) {
        packed_row_len(w as nat) * (h as int) + 2 * packed_row_len((w / 2) as nat) * ((h / 2) as int)
    } else {
        (w as int) * (h as int) + 2 * ((w / 2) as int) * ((h / 2) as int)
    }
}

/// The crop a strategy carries is the one `CropCalc::new` works out for
/// the source, with samples of the strategy's bit depth.
pub open spec fn strat_wf(inf: VidInf, strat: DecodeStrat) -> bool {
    match strat_crop(strat) {
        Some(cc) => {
            let px: usize = if is_packed(strat) {
                2
            } else {
                1
            };
            &&& 2 * cc.crop_v < inf.height
            &&& 2 * cc.crop_h < inf.width
            &&& cc == CropCalc::spec_new(inf.width, inf.height, (cc.crop_v, cc.crop_h), px)
        },
        None => true,
    }
}

/// The crop a strategy carries, if any.
pub open spec fn strat_crop(strat: DecodeStrat) -> Option<CropCalc> {
    match strat {
        DecodeStrat::B10CropFast { cc }
        | DecodeStrat::B10CropFastRem { cc }
        | DecodeStrat::B10Crop { cc }
        | DecodeStrat::B10CropRem { cc }
        | DecodeStrat::B10CropStride { cc }
        | DecodeStrat::B10CropStrideRem { cc }
        | DecodeStrat::B8CropFast { cc }
        | DecodeStrat::B8Crop { cc }
        | DecodeStrat::B8CropStride { cc } => Some(cc),
        _ => None,
    }
}

/// The dimensions of the frames the strategy produces.
pub open spec fn final_dims(inf: VidInf, strat: DecodeStrat) -> (u32, u32) {
    match strat_crop(strat) {
        Some(cc) => (cc.new_w, cc.new_h),
        None => (inf.width, inf.height),
    }
}

/// The produced frames are within what the frame arithmetic takes.
pub open spec fn final_dims_ok(inf: VidInf, strat: DecodeStrat) -> bool {
    let (w, h) = final_dims(inf, strat);
    w as int <= MAX_WIDTH && h as int <= MAX_WIDTH && (w as int) * (h as int) <= MAX_PIXELS
}

/// The dimensions of the frames the strategy produces.
pub fn output_dims(inf: &VidInf, strat: &DecodeStrat) -> (r: (u32, u32))
    ensures
        r == final_dims(*inf, *strat),
{
    match strat {
        DecodeStrat::B10CropFast { cc }
        | DecodeStrat::B10CropFastRem { cc }
        | DecodeStrat::B10Crop { cc }
        | DecodeStrat::B10CropRem { cc }
        | DecodeStrat::B10CropStride { cc }
        | DecodeStrat::B10CropStrideRem { cc }
        | DecodeStrat::B8CropFast { cc }
        | DecodeStrat::B8Crop { cc }
        | DecodeStrat::B8CropStride { cc } => (cc.new_w, cc.new_h),
        _ => (inf.width, inf.height),
    }
}

/// Whether the strategy's frames are within what the frame arithmetic
/// takes.
pub fn output_dims_fit(inf: &VidInf, strat: &DecodeStrat) -> (r: bool)
    ensures
        r == final_dims_ok(*inf, *strat),
{
    let (w, h) = output_dims(inf, strat);
    w as usize <= MAX_WIDTH && h as usize <= MAX_WIDTH && crate::plane::wide_mul(w as u64, h as u64) <= MAX_PIXELS as u128
}

impl Pipeline {
    pub fn new(inf: &VidInf, strat: DecodeStrat) -> (r: Self)
        requires
            final_dims_ok(*inf, strat),
        ensures
            ({
                let (w, h) = final_dims(*inf, strat);
                let px: int = if inf.is_10bit {
                    2
                } else {
                    1
                };
                &&& r.final_w == w && r.final_h == h
                &&& r.frame_size == frame_len(strat, w, h)
                &&& r.y_size == (w as int) * (h as int) * px
                &&& r.uv_size == r.y_size / 4
                &&& r.conv_buf_size == (w as int) * (h as int) * 3 / 2 * 2
                &&& r.unpack == if !inf.is_10bit {
                    UnpackMode::Widen8
                } else if w % 8 != 0 {
                    UnpackMode::PackedRem
                } else {
                    UnpackMode::Packed
                }
            }),
    {
        let (fw, fh) = output_dims(inf, &strat);
        let frame_size = if crate::decode::strat_is_packed(&strat) {
            calc_packed_size(fw, fh)
        } else {
            calc_8bit_size(fw, fh)
        };
        let final_w = fw as usize;
        let final_h = fh as usize;
        let pixel_size: usize = if inf.is_10bit {
            2
        } else {
            1
        };
        let y_size = final_w * final_h * pixel_size;
        let uv_size = y_size / 4;
        let conv_buf_size = final_w * final_h * 3 / 2 * 2;
        let has_rem = inf.is_10bit && (final_w % 8) != 0;
        let unpack = if !inf.is_10bit {
            UnpackMode::Widen8
        } else if has_rem {
            UnpackMode::PackedRem
        } else {
            UnpackMode::Packed
        };
        Pipeline { final_w, final_h, frame_size, y_size, uv_size, conv_buf_size, unpack }
    }

    /// The encoder input for a packet frame: `conv_buf_size` bytes of 16-bit
    /// samples, converted as `unpack` says, zero where the frame gives
    /// nothing.
    pub open spec fn spec_encoder_frame(&self, frame: Seq<u8>) -> Seq<u8> {
        match self.unpack {
            UnpackMode::PackedRem => unpacked_frame(frame, self.final_w as nat, self.final_h as nat),
            UnpackMode::Packed => {
                let groups = min_int((frame.len() / 5) as int, (self.conv_buf_size / 8) as int);
                Seq::new(
                    self.conv_buf_size as nat,
                    |j: int|
                        if j < 8 * groups {
                            unpacked_seq(frame)[j]
                        } else {
                            0u8
                        },
                )
            },
            UnpackMode::Widen8 => {
                let n = min_int(frame.len() as int, (self.conv_buf_size / 2) as int);
                Seq::new(
                    self.conv_buf_size as nat,
                    |j: int|
                        if j < 2 * n {
                            widen_seq(frame)[j]
                        } else {
                            0u8
                        },
                )
            },
        }
    }

    /// Converts one packet frame into the encoder's 16-bit input.
    pub fn encoder_frame(&self, frame: &[u8]) -> (r: Vec<u8>)
        requires
            self.final_w <= MAX_WIDTH,
            self.final_h <= MAX_WIDTH,
            self.unpack == UnpackMode::PackedRem ==> packed_row_len(self.final_w as nat)
                * self.final_h + 2 * packed_row_len((self.final_w / 2) as nat) * (self.final_h / 2)
                <= frame@.len(),
        ensures
            r@ == self.spec_encoder_frame(frame@),
    {
        match self.unpack {
            UnpackMode::PackedRem => {
                let mut out: Vec<u8> = Vec::new();
                unpack_10bit_rem(frame, &mut out, self.final_w, self.final_h);
                assert(out@ =~= self.spec_encoder_frame(frame@));
                out
            },
            UnpackMode::Packed => {
                let mut out: Vec<u8> = vec![0u8; self.conv_buf_size];
                crate::pack::unpack_10bit(frame, out.as_mut_slice(), self.final_w, self.final_h);
                assert(out@ =~= self.spec_encoder_frame(frame@));
                out
            },
            UnpackMode::Widen8 => {
                let mut out: Vec<u8> = vec![0u8; self.conv_buf_size];
                conv_to_10bit(frame, out.as_mut_slice());
                assert(out@ =~= self.spec_encoder_frame(frame@));
                out
            },
        }
    }
}

proof fn lemma_cut_len(src: Seq<u8>, c: (int, int, int, int), packed: bool, w: int)
    requires
        crate::decode::cut_ok(src.len() as int, c, packed),
        c.2 == if packed { 2 * w } else { w },
        w >= 0,
        c.3 >= 0,
    ensures
        cut_bytes(src, c, packed).len() == c.3 * if packed {
            packed_row_len(w as nat) as int
        } else {
            w
        },
{
    if packed {
        lemma_packed_rows_len(src, c.0, c.1, w, c.3 as nat);
    } else {
        lemma_plane_rows_len(src, c.0, c.1, c.2, c.3 as nat);
    }
}

/// Every frame a well-formed strategy cuts from a frame that holds the rows
/// it reads is `frame_len` bytes for the strategy's output size: the size
/// `Pipeline::new` slices packets by.
pub proof fn lemma_frame_len(inf: VidInf, strat: DecodeStrat, frame: FFMS_Frame)
    requires
        strat_wf(inf, strat),
        frame_fits(strat, inf, frame),
    ensures
        spec_frame_bytes(strat, inf, frame).len() == frame_len(
            strat,
            final_dims(inf, strat).0,
            final_dims(inf, strat).1,
        ),
{
    let packed = is_packed(strat);
    let (w, h) = final_dims(inf, strat);
    let c0 = frame_cut(strat, inf, frame, 0);
    let c1 = frame_cut(strat, inf, frame, 1);
    let c2 = frame_cut(strat, inf, frame, 2);
    match strat {
        DecodeStrat::B8CropStride { cc } => {
            lemma_cut_len(frame.data[0]@, c0, packed, inf.width as int);
            lemma_cut_len(frame.data[1]@, c1, packed, (inf.width / 2) as int);
            lemma_cut_len(frame.data[2]@, c2, packed, (inf.width / 2) as int);
            let tight = planes_bytes(strat, inf, frame);
            lemma_plane_rows_len(tight, cc.y_start as int, cc.y_stride as int, cc.y_len as int, cc.new_h as nat);
            lemma_plane_rows_len(tight, cc.u_start as int, cc.uv_stride as int, cc.uv_len as int, (cc.new_h / 2) as nat);
            lemma_plane_rows_len(tight, cc.v_start as int, cc.uv_stride as int, cc.uv_len as int, (cc.new_h / 2) as nat);
        },
        _ => {
            let wy: int = w as int;
            let wc: int = (w / 2) as int;
            lemma_cut_len(frame.data[0]@, c0, packed, wy);
            lemma_cut_len(frame.data[1]@, c1, packed, wc);
            lemma_cut_len(frame.data[2]@, c2, packed, wc);
        },
    }
    if packed {
        assert(2 * packed_row_len((w / 2) as nat) * ((h / 2) as int) == ((h / 2) as int) * packed_row_len((w / 2) as nat) + ((h / 2) as int) * packed_row_len((w / 2) as nat)) by (nonlinear_arith);
        assert((h as int) * packed_row_len(w as nat) == packed_row_len(w as nat) * (h as int)) by (nonlinear_arith);
    } else {
        assert(2 * ((w / 2) as int) * ((h / 2) as int) == ((h / 2) as int) * ((w / 2) as int) + ((h / 2) as int) * ((w / 2) as int)) by (nonlinear_arith);
        assert((h as int) * (w as int) == (w as int) * (h as int)) by (nonlinear_arith);
    }
}

} // verus!
