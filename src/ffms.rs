use vstd::prelude::*;

use crate::decode::CropCalc;
use crate::pack::{packed_row_len, packed_row_size, MAX_WIDTH};

verus! {

/// Largest `width × height` the frame arithmetic takes.
pub const MAX_PIXELS: u64 = 0x1000_0000;

/// What the decoder reports of the source video.
pub struct VidInf {
    pub width: u32,
    pub height: u32,
    pub fps_num: u32,
    pub fps_den: u32,
    pub frames: usize,
    pub color_primaries: Option<i32>,
    pub transfer_characteristics: Option<i32>,
    pub matrix_coefficients: Option<i32>,
    pub is_10bit: bool,
    pub color_range: Option<i32>,
    pub chroma_sample_position: Option<i32>,
    pub mastering_display: Option<String>,
    pub content_light: Option<String>,
}

impl VidInf {
    /// The frame dimensions are within what the frame arithmetic takes.
    pub open spec fn dims_ok(&self) -> bool {
        &&& self.width as int <= MAX_WIDTH
        &&& self.height as int <= MAX_WIDTH
        &&& (self.width as int) * (self.height as int) <= MAX_PIXELS
    }

    /// Whether the frame dimensions are within what the frame arithmetic
    /// takes.
    pub fn dims_fit(&self) -> (r: bool)
        ensures
            r == self.dims_ok(),
    {
        self.width as usize <= MAX_WIDTH && self.height as usize <= MAX_WIDTH && crate::plane::wide_mul(
            self.width as u64,
            self.height as u64,
        ) <= MAX_PIXELS as u128
    }
}

/// A decoded frame: the Y, U and V planes as the decoder laid them out,
/// each with its row stride in bytes, and the frame's own properties.
pub struct FFMS_Frame {
    pub data: [Vec<u8>; 3],
    pub linesize: [usize; 3],
    pub encoded_width: i32,
    pub encoded_height: i32,
    pub color_range: i32,
    pub color_primaries: i32,
    pub transfer_characteristics: i32,
    pub matrix_coefficients: i32,
    pub chroma_location: i32,
}

/// Bytes of an 8-bit 4:2:0 frame as the extractor lays it out: `h` luma
/// rows of `w` bytes, then two chroma planes of `h/2` rows of `w/2` bytes.
pub fn calc_8bit_size(w: u32, h: u32) -> (r: usize)
    requires
        (w as int) * (h as int) <= MAX_PIXELS,
    ensures
        r == (w as int) * (h as int) + 2 * ((w / 2) as int) * ((h / 2) as int),
{
    let hw = (w / 2) as u64;
    let hh = (h / 2) as u64;
    proof {
        assert(2 * (hw * hh) <= (w as int) * (h as int)) by (nonlinear_arith)
            requires
                2 * hw <= w,
                hh <= h,
        ;
        assert(hw * hh <= 0x1000_0000);
        assert(2 * (hw * hh) == 2 * hw * hh) by (nonlinear_arith);
    }
    let y = (w as u64) * (h as u64);
    let uv = hw * hh;
    (y + 2 * uv) as usize
}

/// Bytes of a packed 10-bit frame as the extractor lays it out: `h` packed
/// luma rows of `w` samples, then two chroma planes of `h/2` packed rows of
/// `w/2` samples.
pub fn calc_packed_size(w: u32, h: u32) -> (r: usize)
    requires
        w as int <= MAX_WIDTH,
        h as int <= MAX_WIDTH,
        (w as int) * (h as int) <= MAX_PIXELS,
    ensures
        r == packed_row_len(w as nat) * (h as int) + 2 * packed_row_len((w / 2) as nat) * ((h
            / 2) as int),
{
    let y_row = packed_row_size(w as usize);
    let uv_row = packed_row_size(w as usize / 2);
    proof {
        crate::pack::lemma_packed_row_len(w as nat);
        crate::pack::lemma_packed_row_len((w / 2) as nat);
    }
    let hh = (h / 2) as u64;
    proof {
        assert(uv_row * hh <= 0x2000_0000 && y_row * h <= 0x4000_0000 && 2 * (uv_row * hh)
            == 2 * uv_row * hh) by (nonlinear_arith)
            requires
                y_row <= 2 * w + 5,
                uv_row <= w + 5,
                hh <= h,
                h <= 65536,
                w * h <= 0x1000_0000,
        ;
    }
    let y = (y_row as u64) * (h as u64);
    let uv = (uv_row as u64) * hh;
    (y + 2 * uv) as usize
}

/// How frames are cut out of the decoder's planes: bit depth × crop or not ×
/// row padding or not × (10-bit only) width a multiple of 8 or not. The
/// crop variants carry their precomputed `CropCalc`.
#[derive(Clone, Copy)]
pub enum DecodeStrat {
    B10Fast,
    B10FastRem,
    B10Stride,
    B10StrideRem,
    B10Crop { cc: CropCalc },
    B10CropRem { cc: CropCalc },
    B10CropFast { cc: CropCalc },
    B10CropFastRem { cc: CropCalc },
    B10CropStride { cc: CropCalc },
    B10CropStrideRem { cc: CropCalc },
    B8Fast,
    B8Stride,
    B8Crop { cc: CropCalc },
    B8CropFast { cc: CropCalc },
    B8CropStride { cc: CropCalc },
}

/// Why a frame could not be decoded or cut.
#[derive(Clone, Copy, Debug, PartialEq, Eq, Structural)]
pub enum DecodeError {
    /// The crop leaves no picture, or a picture of odd width or height.
    BadCropDims,
    /// A decoded frame's planes do not hold the rows the strategy reads.
    FrameFetch,
}

/// The crop `(vertical, horizontal)` cannot be applied: it is not `(0, 0)`,
/// and it is odd or leaves an empty or odd-sized picture.
pub open spec fn bad_crop(w: u32, h: u32, crop: (u32, u32)) -> bool {
    crop != (0u32, 0u32) && (crop.0 % 2 != 0 || crop.1 % 2 != 0 || 2 * crop.1 >= w || 2 * crop.0
        >= h || (w - 2 * crop.1) % 2 != 0 || (h - 2 * crop.0) % 2 != 0)
}

/// The strategy for a source of this kind whose luma rows are `y_linesize`
/// bytes apart, under a crop that is not bad.
pub open spec fn spec_decode_strat(inf: VidInf, crop: (u32, u32), y_linesize: usize) -> DecodeStrat {
    let pix_sz: usize = if inf.is_10bit {
        2
    } else {
        1
    };
    let has_pad = y_linesize != inf.width * pix_sz;
    let has_crop = crop != (0u32, 0u32);
    let h_crop = crop.1 != 0;
    let final_w = if has_crop {
        inf.width - 2 * crop.1
    } else {
        inf.width as int
    };
    let has_rem = inf.is_10bit && final_w % 8 != 0;
    let cc = CropCalc::spec_new(inf.width, inf.height, crop, pix_sz);
    if inf.is_10bit {
        if !has_crop {
            if !has_pad {
                if has_rem {
                    DecodeStrat::B10FastRem
                } else {
                    DecodeStrat::B10Fast
                }
            } else {
                if has_rem {
                    DecodeStrat::B10StrideRem
                } else {
                    DecodeStrat::B10Stride
                }
            }
        } else if has_pad {
            if has_rem {
                DecodeStrat::B10CropStrideRem { cc }
            } else {
                DecodeStrat::B10CropStride { cc }
            }
        } else if h_crop {
            if has_rem {
                DecodeStrat::B10CropRem { cc }
            } else {
                DecodeStrat::B10Crop { cc }
            }
        } else {
            if has_rem {
                DecodeStrat::B10CropFastRem { cc }
            } else {
                DecodeStrat::B10CropFast { cc }
            }
        }
    } else {
        if !has_crop {
            if has_pad {
                DecodeStrat::B8Stride
            } else {
                DecodeStrat::B8Fast
            }
        } else if has_pad {
            DecodeStrat::B8CropStride { cc }
        } else if h_crop {
            DecodeStrat::B8Crop { cc }
        } else {
            DecodeStrat::B8CropFast { cc }
        }
    }
}

/// Picks the decode strategy for a source whose first frame's luma rows
/// are `y_linesize` bytes apart, cropping `crop = (vertical, horizontal)`
/// off each side.
pub fn select_decode_strat(inf: &VidInf, crop: (u32, u32), y_linesize: usize) -> (r: Result<
    DecodeStrat,
    DecodeError,
>)
    requires
        inf.dims_ok(),
    ensures
        r is Err <==> bad_crop(inf.width, inf.height, crop),
        r is Err ==> r == Err::<DecodeStrat, DecodeError>(DecodeError::BadCropDims),
        r is Ok ==> r->Ok_0 == spec_decode_strat(*inf, crop, y_linesize),
        r is Ok ==> crate::pipeline::strat_wf(*inf, r->Ok_0),
        r is Ok ==> crate::pipeline::final_dims_ok(*inf, r->Ok_0),
{
    let has_crop = crop.0 != 0 || crop.1 != 0;
    if has_crop && (crop.0 % 2 != 0 || crop.1 % 2 != 0 || crop.1 as u64 * 2 >= inf.width as u64 || crop.0 as u64 * 2 >= inf.height as u64
        || (inf.width - crop.1 * 2) % 2 != 0 || (inf.height - crop.0 * 2) % 2 != 0) {
        return Err(DecodeError::BadCropDims);
    }
    proof {
        if has_crop {
            let (nw, nh) = ((inf.width - 2 * crop.1) as int, (inf.height - 2 * crop.0) as int);
            assert(nw * nh <= (inf.width as int) * (inf.height as int)) by (nonlinear_arith)
                requires
                    0 <= nw <= inf.width,
                    0 <= nh <= inf.height,
            ;
        }
    }
    let pix_sz: usize = if inf.is_10bit {
        2
    } else {
        1
    };
    let has_pad = y_linesize != inf.width as usize * pix_sz;
    let h_crop = crop.1 != 0;
    let final_w = if has_crop {
        inf.width - crop.1 * 2
    } else {
        inf.width
    };
    let has_rem = inf.is_10bit && final_w % 8 != 0;
    if inf.is_10bit {
        if !has_crop {
            if !has_pad {
                if has_rem {
                    Ok(DecodeStrat::B10FastRem)
                } else {
                    Ok(DecodeStrat::B10Fast)
                }
            } else {
                if has_rem {
                    Ok(DecodeStrat::B10StrideRem)
                } else {
                    Ok(DecodeStrat::B10Stride)
                }
            }
        } else {
            let cc = CropCalc::new(inf, crop, 2);
            if has_pad {
                if has_rem {
                    Ok(DecodeStrat::B10CropStrideRem { cc })
                } else {
                    Ok(DecodeStrat::B10CropStride { cc })
                }
            } else if h_crop {
                if has_rem {
                    Ok(DecodeStrat::B10CropRem { cc })
                } else {
                    Ok(DecodeStrat::B10Crop { cc })
                }
            } else {
                if has_rem {
                    Ok(DecodeStrat::B10CropFastRem { cc })
                } else {
                    Ok(DecodeStrat::B10CropFast { cc })
                }
            }
        }
    } else {
        if !has_crop {
            if has_pad {
                Ok(DecodeStrat::B8Stride)
            } else {
                Ok(DecodeStrat::B8Fast)
            }
        } else {
            let cc = CropCalc::new(inf, crop, 1);
            if has_pad {
                Ok(DecodeStrat::B8CropStride { cc })
            } else if h_crop {
                Ok(DecodeStrat::B8Crop { cc })
            } else {
                Ok(DecodeStrat::B8CropFast { cc })
            }
        }
    }
}

/// `t` starts with `prefix`.
pub open spec fn starts_with(t: Seq<u8>, prefix: Seq<u8>) -> bool {
    prefix.len() <= t.len() && t.subrange(0, prefix.len() as int) == prefix
}

fn has_prefix(t: &[u8], prefix: &[u8]) -> (r: bool)
    ensures
        r == starts_with(t@, prefix@),
{
    if prefix.len() > t.len() {
        return false;
    }
    let mut i: usize = 0;
    while i < prefix.len()
        invariant
            prefix@.len() <= t@.len(),
            i <= prefix@.len(),
            forall|k: int| 0 <= k < i ==> t@[k] == prefix@[k],
        decreases prefix@.len() - i,
    {
        if t[i] != prefix[i] {
            return false;
        }
        i = i + 1;
    }
    assert(t@.subrange(0, prefix@.len() as int) =~= prefix@);
    true
}

/// `chroma_location=left` as bytes.
pub open spec fn probe_left() -> Seq<u8> {
    seq![0x63u8, 0x68u8, 0x72u8, 0x6fu8, 0x6du8, 0x61u8, 0x5fu8, 0x6cu8, 0x6fu8, 0x63u8, 0x61u8, 0x74u8, 0x69u8, 0x6fu8, 0x6eu8, 0x3du8, 0x6cu8, 0x65u8, 0x66u8, 0x74u8]
}

/// `chroma_location=topleft` as bytes.
pub open spec fn probe_topleft() -> Seq<u8> {
    seq![0x63u8, 0x68u8, 0x72u8, 0x6fu8, 0x6du8, 0x61u8, 0x5fu8, 0x6cu8, 0x6fu8, 0x63u8, 0x61u8, 0x74u8, 0x69u8, 0x6fu8, 0x6eu8, 0x3du8, 0x74u8, 0x6fu8, 0x70u8, 0x6cu8, 0x65u8, 0x66u8, 0x74u8]
}

/// The chroma sample position the encoder is given: the prober's answer
/// (`left` is 1, `topleft` is 3), else the frame's own non-zero code; then
/// 1 stays 1, 3 becomes 2, and any other code gives none.
pub open spec fn chroma_loc_spec(probe: Seq<u8>, frame_chroma: i32) -> Option<i32> {
    let found: Option<i32> = if starts_with(probe, probe_left()) {
        Some(1)
    } else if starts_with(probe, probe_topleft()) {
        Some(3)
    } else if frame_chroma != 0 {
        Some(frame_chroma)
    } else {
        None
    };
    match found {
        Some(1) => Some(1),
        Some(3) => Some(2),
        _ => None,
    }
}

/// Maps the prober's output (`probe`) and the frame's chroma location to
/// the chroma sample position the encoder is given.
pub fn get_chroma_loc(probe: &[u8], frame_chroma: i32) -> (r: Option<i32>)
    ensures
        r == chroma_loc_spec(probe@, frame_chroma),
{
    let left: [u8; 20] = [0x63u8, 0x68u8, 0x72u8, 0x6fu8, 0x6du8, 0x61u8, 0x5fu8, 0x6cu8, 0x6fu8, 0x63u8, 0x61u8, 0x74u8, 0x69u8, 0x6fu8, 0x6eu8, 0x3du8, 0x6cu8, 0x65u8, 0x66u8, 0x74u8];
    let topleft: [u8; 23] = [0x63u8, 0x68u8, 0x72u8, 0x6fu8, 0x6du8, 0x61u8, 0x5fu8, 0x6cu8, 0x6fu8, 0x63u8, 0x61u8, 0x74u8, 0x69u8, 0x6fu8, 0x6eu8, 0x3du8, 0x74u8, 0x6fu8, 0x70u8, 0x6cu8, 0x65u8, 0x66u8, 0x74u8];
    assert(left@ =~= probe_left());
    assert(topleft@ =~= probe_topleft());
    let found = if has_prefix(probe, left.as_slice()) {
        Some(1i32)
    } else if has_prefix(probe, topleft.as_slice()) {
        Some(3i32)
    } else if frame_chroma != 0 {
        Some(frame_chroma)
    } else {
        None
    };
    match found {
        Some(1) => Some(1),
        Some(3) => Some(2),
        _ => None,
    }
}

/// The matrix coefficients the encoder is given: the frame's, or the
/// stream's colour space when the frame says "unspecified" (3); code 0
/// becomes 2.
pub open spec fn matrix_spec(frame_matrix: i32, color_space: i32) -> i32 {
    let m = if frame_matrix == 3 {
        color_space
    } else {
        frame_matrix
    };
    if m == 0 {
        2
    } else {
        m
    }
}

/// The stream properties the decoder reports, besides the first frame.
#[derive(Clone, Copy, Debug)]
pub struct StreamProps {
    pub fps_numerator: i32,
    pub fps_denominator: i32,
    pub num_frames: i32,
    pub color_space: i32,
}

/// Builds the video description from the stream properties, the first
/// decoded frame and what was probed beside them.
pub fn vid_inf_from(
    props: &StreamProps,
    frame: &FFMS_Frame,
    chroma_sample_position: Option<i32>,
    mastering_display: Option<String>,
    content_light: Option<String>,
) -> (r: VidInf)
    ensures
        r.width == frame.encoded_width as u32,
        r.height == frame.encoded_height as u32,
        r.fps_num == props.fps_numerator as u32,
        r.fps_den == props.fps_denominator as u32,
        r.frames == props.num_frames as usize,
        r.color_primaries == Some(frame.color_primaries),
        r.transfer_characteristics == Some(frame.transfer_characteristics),
        r.matrix_coefficients == Some(matrix_spec(frame.matrix_coefficients, props.color_space)),
        r.is_10bit == (frame.linesize[0] >= 2 * (frame.encoded_width as u32)),
        r.color_range == (if frame.color_range == 1 {
            Some(0i32)
        } else if frame.color_range == 2 {
            Some(1i32)
        } else {
            None
        }),
        r.chroma_sample_position == chroma_sample_position,
        r.mastering_display == mastering_display,
        r.content_light == content_light,
{
    let m = if frame.matrix_coefficients == 3 {
        props.color_space
    } else {
        frame.matrix_coefficients
    };
    let matrix = if m == 0 {
        2
    } else {
        m
    };
    let width = frame.encoded_width as u32;
    let height = frame.encoded_height as u32;
    let is_10bit = frame.linesize[0] as u128 >= (width as u128) * 2;
    let color_range = if frame.color_range == 1 {
        Some(0i32)
    } else if frame.color_range == 2 {
        Some(1i32)
    } else {
        None
    };
    VidInf {
        width,
        height,
        fps_num: props.fps_numerator as u32,
        fps_den: props.fps_denominator as u32,
        frames: props.num_frames as usize,
        color_primaries: Some(frame.color_primaries),
        transfer_characteristics: Some(frame.transfer_characteristics),
        matrix_coefficients: Some(matrix),
        is_10bit,
        color_range,
        chroma_sample_position,
        mastering_display,
        content_light,
    }
}

} // verus!
