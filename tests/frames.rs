use xav::crop::{
    calculate_sample_frames, detect_bottom_crop, detect_frame_crop, detect_left_crop,
    detect_right_crop, detect_top_crop, min_crop, CropResult,
};
use xav::decode::{extract_frame, get_frame, CropCalc, WorkPkg};
use xav::chunk::Chunk;
use xav::ffms::{
    get_chroma_loc, select_decode_strat, vid_inf_from, DecodeError, DecodeStrat, FFMS_Frame,
    StreamProps, VidInf,
};
use xav::pack::packed_row_size;
use xav::pipeline::{Pipeline, UnpackMode};

fn info(w: u32, h: u32, ten: bool) -> VidInf {
    VidInf {
        width: w,
        height: h,
        fps_num: 24,
        fps_den: 1,
        frames: 100,
        color_primaries: None,
        transfer_characteristics: None,
        matrix_coefficients: None,
        is_10bit: ten,
        color_range: None,
        chroma_sample_position: None,
        mastering_display: None,
        content_light: None,
    }
}

fn frame(planes: [Vec<u8>; 3], linesize: [usize; 3], w: i32, h: i32) -> FFMS_Frame {
    FFMS_Frame {
        data: planes,
        linesize,
        encoded_width: w,
        encoded_height: h,
        color_range: 0,
        color_primaries: 1,
        transfer_characteristics: 1,
        matrix_coefficients: 1,
        chroma_location: 0,
    }
}

/// A plane of `rows` rows of `row_bytes` bytes, `stride` bytes apart; byte
/// `c` of row `r` is `seed + 7r + c`, padding bytes are 0xEE.
fn plane(rows: usize, row_bytes: usize, stride: usize, seed: u8) -> Vec<u8> {
    let mut v = vec![0xEEu8; rows * stride];
    for r in 0..rows {
        for c in 0..row_bytes {
            v[r * stride + c] = seed.wrapping_add((7 * r + c) as u8);
        }
    }
    v
}

fn tight(p: &[u8], rows: usize, row_bytes: usize, stride: usize) -> Vec<u8> {
    let mut v = Vec::new();
    for r in 0..rows {
        v.extend_from_slice(&p[r * stride..r * stride + row_bytes]);
    }
    v
}

#[test]
fn crop_rectangle_even_rounding() {
    let samples = vec![
        CropResult { top: 5, bottom: 7, left: 9, right: 3 },
        CropResult { top: 6, bottom: 6, left: 8, right: 4 },
    ];
    let c = min_crop(&samples);
    assert_eq!(c, CropResult { top: 4, bottom: 6, left: 8, right: 2 });
    assert_eq!(c.to_tuple(), (4, 2));
    assert!(c.has_crop());
    assert_eq!(min_crop(&[]), CropResult::no_crop());
    assert!(!CropResult::no_crop().has_crop());
}

#[test]
fn sample_frames_spread() {
    assert_eq!(calculate_sample_frames(5, 13), vec![0, 1, 2, 3, 4]);
    assert_eq!(calculate_sample_frames(100, 3), vec![25, 50, 75]);
    // 1·10/4 = 2.5 rounds up to 3; 3·10/4 = 7.5 to 8.
    assert_eq!(calculate_sample_frames(10, 3), vec![3, 5, 8]);
    let f = calculate_sample_frames(1400, 13);
    assert_eq!(f.len(), 13);
    assert_eq!(f[0], 100);
    assert_eq!(f[12], 1300);
}

/// An 8-bit luma plane of `w`×`h` with a black border of the given insets
/// and a bright picture inside.
fn bordered(w: usize, h: usize, stride: usize, t: usize, b: usize, l: usize, r: usize) -> Vec<u8> {
    let mut v = vec![0u8; h * stride];
    for y in 0..h {
        for x in 0..w {
            let inside = y >= t && y < h - b && x >= l && x < w - r;
            v[y * stride + x] = if inside { 200 } else { 16 };
        }
    }
    v
}

#[test]
fn detects_black_borders() {
    let (w, h, s) = (16, 12, 20);
    let p = bordered(w, h, s, 2, 3, 4, 1);
    assert_eq!(detect_top_crop(&p, w, h, s, false), Some(2));
    assert_eq!(detect_bottom_crop(&p, w, h, s, false), Some(3));
    assert_eq!(detect_left_crop(&p, w, h, s, false), Some(4));
    assert_eq!(detect_right_crop(&p, w, h, s, false), Some(1));
    let black = vec![0u8; h * s];
    assert_eq!(detect_top_crop(&black, w, h, s, false), None);
}

#[test]
fn detects_border_of_frame() {
    let (w, h) = (16usize, 12usize);
    let y = bordered(w, h, w, 2, 2, 0, 0);
    let f = frame([y, vec![128; 48], vec![128; 48]], [w, 8, 8], 16, 12);
    let c = detect_frame_crop(&f, &info(16, 12, false)).unwrap();
    assert_eq!(c, CropResult { top: 2, bottom: 2, left: 0, right: 0 });
    let short = frame([vec![0u8; 10], vec![], vec![]], [16, 8, 8], 16, 12);
    assert_eq!(detect_frame_crop(&short, &info(16, 12, false)), None);
}

#[test]
fn detects_border_10bit() {
    let (w, h) = (8usize, 6usize);
    let mut p = vec![0u8; w * 2 * h];
    for y in 0..h {
        for x in 0..w {
            let v: u16 = if y >= 1 { 800 } else { 64 };
            p[y * w * 2 + 2 * x..y * w * 2 + 2 * x + 2].copy_from_slice(&v.to_le_bytes());
        }
    }
    assert_eq!(detect_top_crop(&p, w, h, w * 2, true), Some(1));
    assert_eq!(detect_left_crop(&p, w, h, w * 2, true), Some(0));
}

#[test]
fn crop_calc_dimensions() {
    let inf = info(1920, 1080, false);
    let cc = CropCalc::new(&inf, (140, 0), 1);
    assert_eq!((cc.new_w, cc.new_h), (1920, 800));
    assert_eq!(cc.new_h + 2 * cc.crop_v, 1080);
    assert_eq!(cc.y_start, 140 * 1920);
    assert_eq!(cc.uv_off, 70 * 960);
    assert_eq!(cc.u_start, 1920 * 1080 + 70 * 960);
    assert_eq!(cc.v_start, 1920 * 1080 + 960 * 540 + 70 * 960);
    let cc10 = CropCalc::new(&inf, (2, 4), 2);
    assert_eq!((cc10.new_w, cc10.new_h), (1912, 1076));
    assert_eq!(cc10.y_len, 1912 * 2);
    assert_eq!(cc10.uv_len, 956 * 2);
    assert_eq!(cc10.y_start, (2 * 1920 + 4) * 2);
}

fn kind(s: DecodeStrat) -> &'static str {
    match s {
        DecodeStrat::B10Fast => "B10Fast",
        DecodeStrat::B10FastRem => "B10FastRem",
        DecodeStrat::B10Stride => "B10Stride",
        DecodeStrat::B10StrideRem => "B10StrideRem",
        DecodeStrat::B10Crop { .. } => "B10Crop",
        DecodeStrat::B10CropRem { .. } => "B10CropRem",
        DecodeStrat::B10CropFast { .. } => "B10CropFast",
        DecodeStrat::B10CropFastRem { .. } => "B10CropFastRem",
        DecodeStrat::B10CropStride { .. } => "B10CropStride",
        DecodeStrat::B10CropStrideRem { .. } => "B10CropStrideRem",
        DecodeStrat::B8Fast => "B8Fast",
        DecodeStrat::B8Stride => "B8Stride",
        DecodeStrat::B8Crop { .. } => "B8Crop",
        DecodeStrat::B8CropFast { .. } => "B8CropFast",
        DecodeStrat::B8CropStride { .. } => "B8CropStride",
    }
}

#[test]
fn strategy_table() {
    let i8b = info(1920, 1080, false);
    let i10 = info(1920, 1080, true);
    let i10r = info(1366, 768, true);
    let pick = |i: &VidInf, c: (u32, u32), ls: usize| kind(select_decode_strat(i, c, ls).ok().unwrap());
    assert_eq!(pick(&i8b, (0, 0), 1920), "B8Fast");
    assert_eq!(pick(&i8b, (0, 0), 2048), "B8Stride");
    assert_eq!(pick(&i8b, (140, 0), 1920), "B8CropFast");
    assert_eq!(pick(&i8b, (140, 2), 1920), "B8Crop");
    assert_eq!(pick(&i8b, (140, 2), 2048), "B8CropStride");
    assert_eq!(pick(&i10, (0, 0), 3840), "B10Fast");
    assert_eq!(pick(&i10, (0, 0), 4096), "B10Stride");
    assert_eq!(pick(&i10, (2, 0), 3840), "B10CropFast");
    assert_eq!(pick(&i10, (2, 4), 3840), "B10Crop");
    assert_eq!(pick(&i10, (2, 4), 4096), "B10CropStride");
    assert_eq!(pick(&i10, (2, 2), 3840), "B10CropRem");
    assert_eq!(pick(&i10, (2, 2), 4096), "B10CropStrideRem");
    assert_eq!(pick(&i10r, (0, 0), 2732), "B10FastRem");
    assert_eq!(pick(&i10r, (0, 0), 2752), "B10StrideRem");
    assert_eq!(pick(&i10r, (2, 0), 2732), "B10CropFastRem");
    assert_eq!(select_decode_strat(&i8b, (600, 0), 1920).err(), Some(DecodeError::BadCropDims));
    assert_eq!(select_decode_strat(&info(1921, 1080, false), (2, 0), 1921).err(), Some(DecodeError::BadCropDims));
}

#[test]
fn no_crop_8bit_chunk_length() {
    let (w, h) = (320usize, 240usize);
    let inf = info(320, 240, false);
    let strat = select_decode_strat(&inf, (0, 0), w).ok().unwrap();
    let mut dat = Vec::new();
    let mut expect = Vec::new();
    for i in 0..10u8 {
        let y = plane(h, w, w, i);
        let u = plane(h / 2, w / 2, w / 2, i + 50);
        let v = plane(h / 2, w / 2, w / 2, i + 100);
        expect.extend_from_slice(&y);
        expect.extend_from_slice(&u);
        expect.extend_from_slice(&v);
        let f = frame([y, u, v], [w, w / 2, w / 2], 320, 240);
        assert_eq!(extract_frame(&strat, &f, &inf, &mut dat), Ok(()));
    }
    assert_eq!(dat.len(), 1_152_000);
    assert_eq!(dat, expect);
    let pkg = WorkPkg::new(Chunk { idx: 0, start: 0, end: 10 }, dat, 10, 320, 240);
    assert_eq!(get_frame(&pkg.frames, 3, 115_200), &expect[3 * 115_200..4 * 115_200]);
}

#[test]
fn stride_extract_matches_tight_copy() {
    let (w, h, pad) = (16usize, 8usize, 8usize);
    for ten in [false, true] {
        let px = if ten { 2 } else { 1 };
        let inf = info(16, 8, ten);
        let (ys, us) = (w * px + pad, w / 2 * px + pad);
        let y = plane(h, w * px, ys, 1);
        let u = plane(h / 2, w / 2 * px, us, 2);
        let v = plane(h / 2, w / 2 * px, us, 3);
        let mut a = Vec::new();
        let sa = select_decode_strat(&inf, (0, 0), ys).ok().unwrap();
        let fa = frame([y.clone(), u.clone(), v.clone()], [ys, us, us], 16, 8);
        extract_frame(&sa, &fa, &inf, &mut a).unwrap();
        let mut b = Vec::new();
        let sb = select_decode_strat(&inf, (0, 0), w * px).ok().unwrap();
        let fb = frame(
            [tight(&y, h, w * px, ys), tight(&u, h / 2, w / 2 * px, us), tight(&v, h / 2, w / 2 * px, us)],
            [w * px, w / 2 * px, w / 2 * px],
            16,
            8,
        );
        extract_frame(&sb, &fb, &inf, &mut b).unwrap();
        assert_eq!(a, b);
    }
}

#[test]
fn crop_stride_8bit_matches_crop_of_tight_frame() {
    let (w, h, ys, us) = (16usize, 8usize, 24usize, 12usize);
    let inf = info(16, 8, false);
    let y = plane(h, w, ys, 9);
    let u = plane(h / 2, w / 2, us, 19);
    let v = plane(h / 2, w / 2, us, 29);
    let strat = select_decode_strat(&inf, (2, 2), ys).ok().unwrap();
    assert_eq!(kind(strat), "B8CropStride");
    let mut out = Vec::new();
    extract_frame(&strat, &frame([y.clone(), u.clone(), v.clone()], [ys, us, us], 16, 8), &inf, &mut out).unwrap();
    let mut expect = Vec::new();
    for r in 2..6 {
        expect.extend_from_slice(&y[r * ys + 2..r * ys + 14]);
    }
    for p in [&u, &v] {
        for r in 1..3 {
            expect.extend_from_slice(&p[r * us + 1..r * us + 7]);
        }
    }
    assert_eq!(out, expect);
    let cc = CropCalc::new(&inf, (2, 2), 1);
    let mut whole = tight(&y, h, w, ys);
    whole.extend(tight(&u, h / 2, w / 2, us));
    whole.extend(tight(&v, h / 2, w / 2, us));
    let mut again = Vec::new();
    cc.crop(&whole, &mut again);
    assert_eq!(again, expect);
}

#[test]
fn crop_rem_packed_frame_length() {
    let inf = info(32, 8, true);
    // Horizontal crop 2 leaves 28 samples: not a multiple of 8.
    let (ys, us) = (64usize, 32usize);
    let y = plane(8, 64, ys, 1).iter().enumerate().map(|(i, b)| if i % 2 == 1 { b & 3 } else { *b }).collect::<Vec<u8>>();
    let u = plane(4, 32, us, 2).iter().enumerate().map(|(i, b)| if i % 2 == 1 { b & 3 } else { *b }).collect::<Vec<u8>>();
    let v = u.clone();
    let strat = select_decode_strat(&inf, (2, 2), ys).ok().unwrap();
    assert_eq!(kind(strat), "B10CropRem");
    let mut out = Vec::new();
    extract_frame(&strat, &frame([y, u, v], [ys, us, us], 32, 8), &inf, &mut out).unwrap();
    assert_eq!(out.len(), packed_row_size(28) * 4 + 2 * packed_row_size(14) * 2);
    let pipe = Pipeline::new(&inf, strat);
    assert_eq!(pipe.unpack, UnpackMode::PackedRem);
    assert_eq!((pipe.final_w, pipe.final_h), (28, 4));
    let back = pipe.encoder_frame(&out);
    assert_eq!(back.len(), 28 * 4 * 2 + 2 * 14 * 2 * 2);
}

#[test]
fn frame_too_small_is_rejected() {
    let inf = info(16, 8, false);
    let strat = select_decode_strat(&inf, (0, 0), 16).ok().unwrap();
    let mut out = vec![1u8];
    let f = frame([vec![0u8; 100], vec![0u8; 32], vec![0u8; 32]], [16, 8, 8], 16, 8);
    assert_eq!(extract_frame(&strat, &f, &inf, &mut out), Err(DecodeError::FrameFetch));
    assert_eq!(out, vec![1u8]);
}

#[test]
fn pipeline_for_8bit() {
    let inf = info(320, 240, false);
    let strat = select_decode_strat(&inf, (0, 0), 320).ok().unwrap();
    let pipe = Pipeline::new(&inf, strat);
    assert_eq!(pipe.frame_size, 115_200);
    assert_eq!(pipe.conv_buf_size, 230_400);
    assert_eq!(pipe.unpack, UnpackMode::Widen8);
    let f = vec![1u8; 115_200];
    let out = pipe.encoder_frame(&f);
    assert_eq!(out.len(), 230_400);
    assert_eq!(&out[..4], &[4, 0, 4, 0]);
}

#[test]
fn chroma_location_mapping() {
    assert_eq!(get_chroma_loc(b"chroma_location=left\n", 0), Some(1));
    assert_eq!(get_chroma_loc(b"chroma_location=topleft\n", 0), Some(2));
    assert_eq!(get_chroma_loc(b"", 3), Some(2));
    assert_eq!(get_chroma_loc(b"chroma_location=center", 2), None);
    assert_eq!(get_chroma_loc(b"", 0), None);
}

#[test]
fn video_info_from_probe() {
    let props = StreamProps { fps_numerator: 24000, fps_denominator: 1001, num_frames: 500, color_space: 1 };
    let mut f = frame([vec![], vec![], vec![]], [3840, 1920, 1920], 1920, 1080);
    f.matrix_coefficients = 3;
    f.color_range = 1;
    let inf = vid_inf_from(&props, &f, Some(1), None, None);
    assert_eq!((inf.width, inf.height, inf.frames), (1920, 1080, 500));
    assert!(inf.is_10bit);
    assert_eq!(inf.matrix_coefficients, Some(1));
    assert_eq!(inf.color_range, Some(0));
}

#[test]
fn odd_crop_is_rejected() {
    let inf = info(1920, 1080, false);
    assert_eq!(select_decode_strat(&inf, (3, 0), 1920).err(), Some(DecodeError::BadCropDims));
    assert_eq!(select_decode_strat(&inf, (0, 5), 1920).err(), Some(DecodeError::BadCropDims));
    assert_eq!(select_decode_strat(&inf, (540, 0), 1920).err(), Some(DecodeError::BadCropDims));
}

#[test]
fn odd_height_frames_match_frame_size() {
    for ten in [false, true] {
        let (w, h) = (8usize, 3usize);
        let px = if ten { 2 } else { 1 };
        let inf = info(8, 3, ten);
        let strat = select_decode_strat(&inf, (0, 0), w * px).ok().unwrap();
        let pipe = Pipeline::new(&inf, strat);
        assert_eq!(xav::pipeline::output_dims(&inf, &strat), (8, 3));
        let mut dat = Vec::new();
        for _ in 0..2 {
            let y = vec![1u8; w * px * h];
            let u = vec![2u8; w / 2 * px];
            let v = vec![3u8; w / 2 * px];
            extract_frame(&strat, &frame([y, u, v], [w * px, w / 2 * px, w / 2 * px], 8, 3), &inf, &mut dat).unwrap();
        }
        assert_eq!(dat.len(), 2 * pipe.frame_size);
        assert_eq!(get_frame(&dat, 1, pipe.frame_size)[0], 1);
    }
}

#[test]
fn padded_crop_10bit_matches_tight_crop() {
    let (w, h, pad) = (32usize, 8usize, 16usize);
    let inf = info(32, 8, true);
    let mask = |v: Vec<u8>| v.iter().enumerate().map(|(i, b)| if i % 2 == 1 { b & 3 } else { *b }).collect::<Vec<u8>>();
    let (ys, us) = (2 * w + pad, w + pad);
    let y = mask(plane(h, 2 * w, ys, 5));
    let u = mask(plane(h / 2, w, us, 6));
    let v = mask(plane(h / 2, w, us, 7));
    let padded = select_decode_strat(&inf, (2, 2), ys).ok().unwrap();
    assert_eq!(kind(padded), "B10CropStrideRem");
    let mut a = Vec::new();
    extract_frame(&padded, &frame([y.clone(), u.clone(), v.clone()], [ys, us, us], 32, 8), &inf, &mut a).unwrap();
    let tight_strat = select_decode_strat(&inf, (2, 2), 2 * w).ok().unwrap();
    assert_eq!(kind(tight_strat), "B10CropRem");
    let mut b = Vec::new();
    let tf = frame(
        [tight(&y, h, 2 * w, ys), tight(&u, h / 2, w, us), tight(&v, h / 2, w, us)],
        [2 * w, w, w],
        32,
        8,
    );
    extract_frame(&tight_strat, &tf, &inf, &mut b).unwrap();
    assert_eq!(a, b);
    assert_eq!(a.len(), Pipeline::new(&inf, padded).frame_size);
}
