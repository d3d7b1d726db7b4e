use xav::args::{parse_quoted_args, quote_args};
use xav::encoder::{chroma_pos_str, color_primaries_str, matrix_coeff_str, transfer_char_str, Encoder};
use xav::merge::concat_ivf;
use xav::progs::{bar_cells, get_frame_cnt};

#[test]
fn encoder_names() {
    assert_eq!(Encoder::from_str("SVT-AV1"), Some(Encoder::SvtAv1));
    assert_eq!(Encoder::from_str("avm"), Some(Encoder::Avm));
    assert_eq!(Encoder::from_str("AvM"), Some(Encoder::Avm));
    assert_eq!(Encoder::from_str("x264"), None);
    assert_eq!(Encoder::from_lowercase("AVM"), None);
}

#[test]
fn colour_names() {
    assert_eq!(color_primaries_str(9), "bt2020");
    assert_eq!(color_primaries_str(2), "unspecified");
    assert_eq!(transfer_char_str(16), "smpte2084");
    assert_eq!(matrix_coeff_str(0), "identity");
    assert_eq!(chroma_pos_str(3), "topleft");
}

#[test]
fn quoted_command_line_round_trip() {
    let args: Vec<String> =
        vec!["xav".into(), "-p".into(), "--scm 0 --lp 5".into(), "in put.mkv".into()];
    let line = quote_args(&args);
    assert_eq!(line, "xav -p \"--scm 0 --lp 5\" \"in put.mkv\"");
    assert_eq!(parse_quoted_args(&line), args);
    assert_eq!(parse_quoted_args("  a   b "), vec!["a".to_string(), "b".to_string()]);
}

#[test]
fn progress_frame_counter() {
    assert_eq!(get_frame_cnt("Encoding: 42 Frames @ 3.1 fps"), Some(42));
    assert_eq!(get_frame_cnt("Encoding: 17/240 Frames"), Some(17));
    assert_eq!(get_frame_cnt("no counter here"), None);
    assert_eq!(get_frame_cnt(" Frames"), None);
}

#[test]
fn progress_bar_cells() {
    assert_eq!(bar_cells(50, 100, 65), 32);
    assert_eq!(bar_cells(200, 100, 65), 65);
    assert_eq!(bar_cells(5, 0, 65), 0);
}

fn ivf(frames: u32, payload: &[u8]) -> Vec<u8> {
    let mut v: Vec<u8> = (0..32u8).collect();
    v[24..28].copy_from_slice(&frames.to_le_bytes());
    v.extend_from_slice(payload);
    v
}

#[test]
fn ivf_concat_patches_frame_count() {
    let a = ivf(100, &[1, 2, 3]);
    let b = ivf(100, &[4, 5]);
    let out = concat_ivf(&[a.clone(), b]).unwrap();
    assert_eq!(&out[24..28], &200u32.to_le_bytes());
    assert_eq!(&out[..24], &a[..24]);
    assert_eq!(&out[28..32], &a[28..32]);
    assert_eq!(&out[32..], &[1, 2, 3, 4, 5]);
    assert_eq!(concat_ivf(&[]), None);
    assert_eq!(concat_ivf(&[vec![0u8; 10]]), None);
    assert_eq!(concat_ivf(&[ivf(u32::MAX, &[]), ivf(1, &[])]), None);
}
