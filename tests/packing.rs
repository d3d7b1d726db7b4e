use xav::pack::{pack_10bit, pack_4_pix_10bit, packed_row_size, unpack_10bit, unpack_4_pix_10bit};
use xav::plane::{conv_to_10bit, pack_10bit_rem, unpack_10bit_rem};
use xav::ffms::{calc_8bit_size, calc_packed_size};

fn samples_to_bytes(s: &[u16]) -> Vec<u8> {
    let mut v = Vec::new();
    for x in s {
        v.extend_from_slice(&x.to_le_bytes());
    }
    v
}

#[test]
fn pack_four_samples_exact() {
    let input = samples_to_bytes(&[1, 2, 3, 1023]);
    let arr: [u8; 8] = input.try_into().unwrap();
    let mut out = [0u8; 5];
    pack_4_pix_10bit(arr, &mut out);
    let word: u64 = 1 | (2 << 10) | (3 << 20) | (1023 << 30);
    assert_eq!(out, [
        word as u8,
        (word >> 8) as u8,
        (word >> 16) as u8,
        (word >> 24) as u8,
        (word >> 32) as u8
    ]);
}

#[test]
fn unpack_four_samples_exact() {
    let word: u64 = 512 | (7 << 10) | (1000 << 20) | (0 << 30);
    let packed = [word as u8, (word >> 8) as u8, (word >> 16) as u8, (word >> 24) as u8, (word >> 32) as u8];
    let mut out = [0u8; 8];
    unpack_4_pix_10bit(packed, &mut out);
    assert_eq!(out.to_vec(), samples_to_bytes(&[512, 7, 1000, 0]));
}

#[test]
fn pack_then_unpack_is_identity() {
    let samples: Vec<u16> = (0..64u16).map(|i| (i * 37) % 1024).collect();
    let input = samples_to_bytes(&samples);
    let mut packed = vec![0u8; input.len() / 8 * 5];
    pack_10bit(&input, &mut packed);
    assert_ne!(packed, vec![0u8; packed.len()]);
    let mut back = vec![0u8; input.len()];
    unpack_10bit(&packed, &mut back, 8, 8);
    assert_eq!(back, input);
}

#[test]
fn pack_leaves_tail_of_output_alone() {
    let input = samples_to_bytes(&[5, 6, 7, 8]);
    let mut out = vec![0xAAu8; 7];
    pack_10bit(&input, &mut out);
    assert_eq!(&out[5..], &[0xAA, 0xAA]);
}

#[test]
fn packed_row_size_of_1366() {
    // 1366 samples are 2732 bytes: 341 whole groups and a remainder of 4 bytes.
    assert_eq!(1366 * 2 % 8, 4);
    assert_eq!(packed_row_size(1366), 1710);
    assert_eq!(packed_row_size(1366) % 5, 0);
    assert_eq!(packed_row_size(1920), 2400);
    assert_eq!(packed_row_size(683), 855);
}

#[test]
fn remainder_rows_have_constant_length() {
    let w = 6usize;
    let h = 3usize;
    let samples: Vec<u16> = (0..(w * h) as u16).map(|i| i * 11 % 1024).collect();
    let input = samples_to_bytes(&samples);
    let mut out = Vec::new();
    pack_10bit_rem(&input, &mut out, w, h);
    assert_eq!(out.len(), packed_row_size(w) * h);
    assert_eq!(packed_row_size(w), 10);
}

#[test]
fn remainder_frame_round_trip() {
    let w = 6usize;
    let h = 4usize;
    let y: Vec<u16> = (0..(w * h) as u16).map(|i| (i * 13) % 1024).collect();
    let u: Vec<u16> = (0..(w / 2 * h / 2) as u16).map(|i| 1000 - i).collect();
    let v: Vec<u16> = (0..(w / 2 * h / 2) as u16).map(|i| 3 * i).collect();
    let mut packed = Vec::new();
    pack_10bit_rem(&samples_to_bytes(&y), &mut packed, w, h);
    pack_10bit_rem(&samples_to_bytes(&u), &mut packed, w / 2, h / 2);
    pack_10bit_rem(&samples_to_bytes(&v), &mut packed, w / 2, h / 2);
    let mut back = Vec::new();
    unpack_10bit_rem(&packed, &mut back, w, h);
    let mut expect = samples_to_bytes(&y);
    expect.extend(samples_to_bytes(&u));
    expect.extend(samples_to_bytes(&v));
    assert_eq!(back, expect);
}

#[test]
fn widen_8bit_to_10bit() {
    let input = [0u8, 1, 255];
    let mut out = [0u8; 6];
    conv_to_10bit(&input, &mut out);
    assert_eq!(out, [0, 0, 4, 0, 0xFC, 0x03]);
}

#[test]
fn frame_sizes() {
    assert_eq!(calc_8bit_size(320, 240), 115_200);
    assert_eq!(calc_8bit_size(320, 240) * 10, 1_152_000);
    assert_eq!(calc_packed_size(1920, 1080), 2400 * 1080 + 2 * 1200 * 540);
    assert_eq!(calc_packed_size(1366, 768), 1710 * 768 + 2 * packed_row_size(683) * 384);
    // Odd sizes: chroma planes of h/2 rows of w/2 samples.
    assert_eq!(calc_8bit_size(7, 5), 35 + 2 * 3 * 2);
    assert_eq!(calc_packed_size(8, 1), 10);
    assert_eq!(calc_packed_size(8, 3), 30 + 2 * 5);
}
