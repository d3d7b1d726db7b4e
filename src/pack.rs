use vstd::prelude::*;

verus! {

/// The 16-bit little-endian sample held in two bytes.
pub open spec fn sample16(lo: u8, hi: u8) -> u64 {
    (lo as u64) | ((hi as u64) << 8u64)
}

/// The 40-bit word that four 16-bit little-endian samples pack into:
/// `s0 | s1 << 10 | s2 << 20 | s3 << 30`.
pub open spec fn pack_word(b: Seq<u8>) -> u64
    recommends
        b.len() >= 8,
{
    sample16(b[0], b[1]) | (sample16(b[2], b[3]) << 10u64) | (sample16(b[4], b[5]) << 20u64)
        | (sample16(b[6], b[7]) << 30u64)
}

/// The low five bytes of a word, least significant first.
pub open spec fn low5_le(w: u64) -> Seq<u8> {
    seq![w as u8, (w >> 8u64) as u8, (w >> 16u64) as u8, (w >> 24u64) as u8, (w >> 32u64) as u8]
}

/// Four samples (eight bytes) packed into five bytes.
pub open spec fn pack_group(b: Seq<u8>) -> Seq<u8>
    recommends
        b.len() >= 8,
{
    low5_le(pack_word(b))
}

/// The 40-bit little-endian word held in five bytes.
pub open spec fn packed_word(p: Seq<u8>) -> u64
    recommends
        p.len() >= 5,
{
    (p[0] as u64) | ((p[1] as u64) << 8u64) | ((p[2] as u64) << 16u64) | ((p[3] as u64) << 24u64)
        | ((p[4] as u64) << 32u64)
}

/// The 10-bit sample `k` (0 to 3) of a packed word.
pub open spec fn field10(w: u64, k: u64) -> u64 {
    (w >> (10 * k)) & 0x3ffu64
}

/// Five packed bytes spread back into four 16-bit little-endian samples.
pub open spec fn unpack_group(p: Seq<u8>) -> Seq<u8>
    recommends
        p.len() >= 5,
{
    let w = packed_word(p);
    seq![
        field10(w, 0) as u8,
        (field10(w, 0) >> 8u64) as u8,
        field10(w, 1) as u8,
        (field10(w, 1) >> 8u64) as u8,
        field10(w, 2) as u8,
        (field10(w, 2) >> 8u64) as u8,
        field10(w, 3) as u8,
        (field10(w, 3) >> 8u64) as u8,
    ]
}

/// Every whole eight-byte group of `s` packed, group after group.
pub open spec fn packed_seq(s: Seq<u8>) -> Seq<u8> {
    Seq::new(
        5 * (s.len() / 8),
        |j: int| pack_group(s.subrange(8 * (j / 5), 8 * (j / 5) + 8))[j % 5],
    )
}

/// Every whole five-byte group of `p` unpacked, group after group.
pub open spec fn unpacked_seq(p: Seq<u8>) -> Seq<u8> {
    Seq::new(
        8 * (p.len() / 5),
        |j: int| unpack_group(p.subrange(5 * (j / 8), 5 * (j / 8) + 5))[j % 8],
    )
}

/// Each byte of an 8-bit plane widened to a 10-bit sample (`v << 2`), as
/// two little-endian bytes.
pub open spec fn widen_seq(s: Seq<u8>) -> Seq<u8> {
    Seq::new(
        2 * s.len(),
        |j: int|
            if j % 2 == 0 {
                (((s[j / 2] as u16) << 2u16) as u8)
            } else {
                ((((s[j / 2] as u16) << 2u16) >> 8u16) as u8)
            },
    )
}

/// All samples of `s` fit in ten bits: every high byte is below 4.
pub open spec fn samples_fit_10bit(s: Seq<u8>) -> bool {
    forall|i: int| 0 <= i < s.len() && i % 2 == 1 ==> #[trigger] s[i] < 4
}

/// Bytes per packed row of `w` 10-bit samples: the packed length of `2·w`
/// bytes (five bytes per eight), rounded up to whole five-byte groups.
pub open spec fn packed_row_len(w: nat) -> nat {
    let bytes = (w * 2 * 5 + 7) / 8;
    if bytes % 5 == 0 {
        bytes
    } else {
        (bytes + (5 - bytes % 5)) as nat
    }
}

/// `packed_row_len(w)` is five bytes for each started group of four samples.
pub proof fn lemma_packed_row_len(w: nat)
    ensures
        packed_row_len(w) == 5 * ((2 * w + 7) / 8),
{
    let q = (2 * w) / 8;
    let r = (2 * w) % 8;
    assert(2 * w == 8 * q + r);
    assert(w * 2 * 5 == 40 * q + 5 * r) by (nonlinear_arith)
        requires
            2 * w == 8 * q + r,
    ;
    assert((w * 2 * 5 + 7) / 8 == 5 * q + (5 * r + 7) / 8) by (nonlinear_arith)
        requires
            w * 2 * 5 == 40 * q + 5 * r,
    ;
    assert((2 * w + 7) / 8 == q + (r + 7) / 8) by (nonlinear_arith)
        requires
            2 * w == 8 * q + r,
    ;
}

/// Largest frame dimension, in samples: AV1's limit.
pub const MAX_WIDTH: usize = 65536;

pub fn packed_row_size(w: usize) -> (r: usize)
    requires
        w <= MAX_WIDTH,
    ensures
        r == packed_row_len(w as nat),
{
    let bytes = (w * 2 * 5 + 7) / 8;
    if bytes % 5 == 0 {
        bytes
    } else {
        bytes + (5 - bytes % 5)
    }
}

proof fn lemma_group_round_trip(a: Seq<u8>)
    requires
        a.len() == 8,
        a[1] < 4,
        a[3] < 4,
        a[5] < 4,
        a[7] < 4,
    ensures
        unpack_group(pack_group(a)) == a,
{
    let (a0, a1, a2, a3, a4, a5, a6, a7) = (a[0], a[1], a[2], a[3], a[4], a[5], a[6], a[7]);
    let w = pack_word(a);
    let p = pack_group(a);
    let v = packed_word(p);
    assert(v == w) by (bit_vector)
        requires
            a1 < 4 && a3 < 4 && a5 < 4 && a7 < 4,
            w == ((a0 as u64) | ((a1 as u64) << 8u64)) | (((a2 as u64) | ((a3 as u64) << 8u64))
                << 10u64) | (((a4 as u64) | ((a5 as u64) << 8u64)) << 20u64) | (((a6 as u64) | ((
            a7 as u64) << 8u64)) << 30u64),
            v == ((w as u8) as u64) | ((((w >> 8u64) as u8) as u64) << 8u64) | ((((w
                >> 16u64) as u8) as u64) << 16u64) | ((((w >> 24u64) as u8) as u64) << 24u64) | ((((w
                >> 32u64) as u8) as u64) << 32u64),
    ;
    assert(field10(w, 0) as u8 == a0 && (field10(w, 0) >> 8u64) as u8 == a1 && field10(w, 1) as u8
        == a2 && (field10(w, 1) >> 8u64) as u8 == a3 && field10(w, 2) as u8 == a4 && (field10(w, 2)
        >> 8u64) as u8 == a5 && field10(w, 3) as u8 == a6 && (field10(w, 3) >> 8u64) as u8 == a7)
        by (bit_vector)
        requires
            a1 < 4 && a3 < 4 && a5 < 4 && a7 < 4,
            w == ((a0 as u64) | ((a1 as u64) << 8u64)) | (((a2 as u64) | ((a3 as u64) << 8u64))
                << 10u64) | (((a4 as u64) | ((a5 as u64) << 8u64)) << 20u64) | (((a6 as u64) | ((
            a7 as u64) << 8u64)) << 30u64),
    ;
    assert(unpack_group(p) =~= a);
}


/// Packs four 16-bit little-endian samples into five bytes.
pub fn pack_4_pix_10bit(input: [u8; 8], output: &mut [u8; 5])
    ensures
        final(output)@ == pack_group(input@),
{
    let s0 = (input[0] as u64) | ((input[1] as u64) << 8u64);
    let s1 = (input[2] as u64) | ((input[3] as u64) << 8u64);
    let s2 = (input[4] as u64) | ((input[5] as u64) << 8u64);
    let s3 = (input[6] as u64) | ((input[7] as u64) << 8u64);
    let packed: u64 = s0 | (s1 << 10u64) | (s2 << 20u64) | (s3 << 30u64);
    output[0] = packed as u8;
    output[1] = (packed >> 8u64) as u8;
    output[2] = (packed >> 16u64) as u8;
    output[3] = (packed >> 24u64) as u8;
    output[4] = (packed >> 32u64) as u8;
    assert(final(output)@ =~= pack_group(input@));
}

/// Spreads five packed bytes back into four 16-bit little-endian samples.
pub fn unpack_4_pix_10bit(input: [u8; 5], output: &mut [u8; 8])
    ensures
        final(output)@ == unpack_group(input@),
{
    let packed = (input[0] as u64) | ((input[1] as u64) << 8u64) | ((input[2] as u64) << 16u64)
        | ((input[3] as u64) << 24u64) | ((input[4] as u64) << 32u64);
    let s0 = packed & 0x3ffu64;
    let s1 = (packed >> 10u64) & 0x3ffu64;
    let s2 = (packed >> 20u64) & 0x3ffu64;
    let s3 = (packed >> 30u64) & 0x3ffu64;
    output[0] = s0 as u8;
    output[1] = (s0 >> 8u64) as u8;
    output[2] = s1 as u8;
    output[3] = (s1 >> 8u64) as u8;
    output[4] = s2 as u8;
    output[5] = (s2 >> 8u64) as u8;
    output[6] = s3 as u8;
    output[7] = (s3 >> 8u64) as u8;
    assert(packed >> 0u64 == packed) by (bit_vector);
    assert(final(output)@ =~= unpack_group(input@));
}

/// Reads the eight bytes at `at` into an array.
pub(crate) fn group8(s: &[u8], at: usize) -> (r: [u8; 8])
    requires
        at + 8 <= s@.len(),
    ensures
        r@ == s@.subrange(at as int, at + 8),
{
    let r = [s[at], s[at + 1], s[at + 2], s[at + 3], s[at + 4], s[at + 5], s[at + 6], s[at + 7]];
    assert(r@ =~= s@.subrange(at as int, at + 8));
    r
}

/// Reads the five bytes at `at` into an array.
pub(crate) fn group5(s: &[u8], at: usize) -> (r: [u8; 5])
    requires
        at + 5 <= s@.len(),
    ensures
        r@ == s@.subrange(at as int, at + 5),
{
    let r = [s[at], s[at + 1], s[at + 2], s[at + 3], s[at + 4]];
    assert(r@ =~= s@.subrange(at as int, at + 5));
    r
}

/// Packs each whole eight-byte group of `input` into the matching five-byte
/// group of `output`, as many groups as both hold; the rest of `output` is
/// left as it was.
pub fn pack_10bit(input: &[u8], output: &mut [u8])
    ensures
        final(output)@.len() == old(output)@.len(),
        ({
            let n = if input@.len() / 8 <= old(output)@.len() / 5 {
                input@.len() / 8
            } else {
                old(output)@.len() / 5
            };
            &&& forall|j: int|
                0 <= j < 5 * n ==> #[trigger] final(output)@[j] == packed_seq(input@)[j]
            &&& forall|j: int|
                5 * n <= j < old(output)@.len() ==> #[trigger] final(output)@[j] == old(
                    output,
                )@[j]
        }),
{
    let n = if input.len() / 8 <= output.len() / 5 {
        input.len() / 8
    } else {
        output.len() / 5
    };
    let mut g: usize = 0;
    while g < n
        invariant
            8 * n <= input@.len(),
            input@.len() <= usize::MAX,
            5 * n <= old(output)@.len(),
            g <= n,
            output@.len() == old(output)@.len(),
            forall|j: int| 0 <= j < 5 * g ==> #[trigger] output@[j] == packed_seq(input@)[j],
            forall|j: int| 5 * g <= j < old(output)@.len() ==> #[trigger] output@[j] == old(output)@[j],
        decreases n - g,
    {
        let i_arr = group8(input, 8 * g);
        let mut o_arr = [0u8; 5];
        pack_4_pix_10bit(i_arr, &mut o_arr);
        output[5 * g] = o_arr[0];
        output[5 * g + 1] = o_arr[1];
        output[5 * g + 2] = o_arr[2];
        output[5 * g + 3] = o_arr[3];
        output[5 * g + 4] = o_arr[4];
        assert forall|j: int| 0 <= j < 5 * (g + 1) implies #[trigger] output@[j] == packed_seq(input@)[j] by {
            if j >= 5 * g {
                assert(j / 5 == g as int);
            }
        }
        g = g + 1;
    }
}

/// Unpacks each whole five-byte group of `input` into the matching
/// eight-byte group of `output`, as many groups as both hold; the rest of
/// `output` is left as it was. The frame dimensions are not needed.
pub fn unpack_10bit(input: &[u8], output: &mut [u8], _w: usize, _h: usize)
    ensures
        final(output)@.len() == old(output)@.len(),
        ({
            let n = if input@.len() / 5 <= old(output)@.len() / 8 {
                input@.len() / 5
            } else {
                old(output)@.len() / 8
            };
            &&& forall|j: int|
                0 <= j < 8 * n ==> #[trigger] final(output)@[j] == unpacked_seq(input@)[j]
            &&& forall|j: int|
                8 * n <= j < old(output)@.len() ==> #[trigger] final(output)@[j] == old(
                    output,
                )@[j]
        }),
{
    let n = if input.len() / 5 <= output.len() / 8 {
        input.len() / 5
    } else {
        output.len() / 8
    };
    let mut g: usize = 0;
    while g < n
        invariant
            5 * n <= input@.len(),
            input@.len() <= usize::MAX,
            old(output)@.len() <= usize::MAX,
            8 * n <= old(output)@.len(),
            g <= n,
            output@.len() == old(output)@.len(),
            forall|j: int| 0 <= j < 8 * g ==> #[trigger] output@[j] == unpacked_seq(input@)[j],
            forall|j: int| 8 * g <= j < old(output)@.len() ==> #[trigger] output@[j] == old(output)@[j],
        decreases n - g,
    {
        let i_arr = group5(input, 5 * g);
        let mut o_arr = [0u8; 8];
        unpack_4_pix_10bit(i_arr, &mut o_arr);
        output[8 * g] = o_arr[0];
        output[8 * g + 1] = o_arr[1];
        output[8 * g + 2] = o_arr[2];
        output[8 * g + 3] = o_arr[3];
        output[8 * g + 4] = o_arr[4];
        output[8 * g + 5] = o_arr[5];
        output[8 * g + 6] = o_arr[6];
        output[8 * g + 7] = o_arr[7];
        assert forall|j: int| 0 <= j < 8 * (g + 1) implies #[trigger] output@[j] == unpacked_seq(input@)[j] by {
            if j >= 8 * g {
                assert(j / 8 == g as int);
            }
        }
        g = g + 1;
    }
}

/// Packing then unpacking gives back every sample that fits in ten bits.
pub proof fn lemma_pack_unpack_round_trip(s: Seq<u8>)
    requires
        s.len() % 8 == 0,
        samples_fit_10bit(s),
    ensures
        unpacked_seq(packed_seq(s)) == s,
{
    let p = packed_seq(s);
    assert(p.len() / 5 == s.len() / 8);
    assert forall|j: int| 0 <= j < s.len() implies #[trigger] unpacked_seq(p)[j] == s[j] by {
        let g = j / 8;
        let a = s.subrange(8 * g, 8 * g + 8);
        assert(a[1] == s[8 * g + 1] && a[3] == s[8 * g + 3] && a[5] == s[8 * g + 5] && a[7] == s[8 * g + 7]);
        lemma_group_round_trip(a);
        assert(p.subrange(5 * g, 5 * g + 5) =~= pack_group(a)) by {
            assert forall|k: int| 0 <= k < 5 implies #[trigger] p.subrange(5 * g, 5 * g + 5)[k] == pack_group(a)[k] by {
                assert((5 * g + k) / 5 == g);
                assert((5 * g + k) % 5 == k);
            }
        }
    }
    assert(unpacked_seq(p) =~= s);
}

} // verus!
