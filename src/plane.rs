use vstd::prelude::*;

use crate::pack::{
    lemma_packed_row_len, packed_row_len, packed_row_size, MAX_WIDTH,
    group5, group8, pack_4_pix_10bit, pack_group, packed_seq, unpack_4_pix_10bit, unpack_group,
    unpacked_seq,
};

verus! {

/// Row `r` of a plane whose first row starts at `start`, each next row
/// `stride` bytes further, each row `row_bytes` long.
pub open spec fn plane_row(src: Seq<u8>, start: int, stride: int, row_bytes: int, r: int) -> Seq<
    u8,
> {
    src.subrange(start + r * stride, start + r * stride + row_bytes)
}

/// Every row of the plane lies inside `len` bytes.
pub open spec fn rows_fit(len: int, start: int, stride: int, row_bytes: int, rows: int) -> bool {
    rows == 0 || (0 <= start && 0 <= stride && 0 <= row_bytes && start + (rows - 1) * stride
        + row_bytes <= len)
}

/// The first `rows` rows of a plane, copied back to back.
pub open spec fn plane_rows(src: Seq<u8>, start: int, stride: int, row_bytes: int, rows: nat) -> Seq<
    u8,
>
    decreases rows,
{
    if rows == 0 {
        Seq::empty()
    } else {
        plane_rows(src, start, stride, row_bytes, (rows - 1) as nat) + plane_row(
            src,
            start,
            stride,
            row_bytes,
            rows - 1,
        )
    }
}

/// A row padded with zero bytes to a whole number of eight-byte groups.
pub open spec fn pad8(row: Seq<u8>) -> Seq<u8> {
    row + Seq::new(((8 - row.len() % 8) % 8) as nat, |i: int| 0u8)
}

/// A row of 16-bit samples packed, its last partial group padded with zeros.
pub open spec fn pack_row(row: Seq<u8>) -> Seq<u8> {
    packed_seq(pad8(row))
}

/// The first `rows` rows of a plane, each packed, back to back.
pub open spec fn packed_rows(src: Seq<u8>, start: int, stride: int, row_bytes: int, rows: nat) -> Seq<
    u8,
>
    decreases rows,
{
    if rows == 0 {
        Seq::empty()
    } else {
        packed_rows(src, start, stride, row_bytes, (rows - 1) as nat) + pack_row(
            plane_row(src, start, stride, row_bytes, rows - 1),
        )
    }
}

/// A packed row spread back into `row_bytes` bytes of 16-bit samples.
pub open spec fn unpack_row(prow: Seq<u8>, row_bytes: int) -> Seq<u8> {
    unpacked_seq(prow).subrange(0, row_bytes)
}

/// The first `rows` packed rows of `prow_len` bytes each, the first at
/// `start`, unpacked to `row_bytes` bytes each, back to back.
pub open spec fn unpacked_rows(
    src: Seq<u8>,
    start: int,
    prow_len: int,
    row_bytes: int,
    rows: nat,
) -> Seq<u8>
    decreases rows,
{
    if rows == 0 {
        Seq::empty()
    } else {
        unpacked_rows(src, start, prow_len, row_bytes, (rows - 1) as nat) + unpack_row(
            plane_row(src, start, prow_len, prow_len, rows - 1),
            row_bytes,
        )
    }
}

proof fn lemma_row_in_bounds(len: int, start: int, stride: int, row_bytes: int, rows: int, r: int)
    requires
        rows_fit(len, start, stride, row_bytes, rows),
        0 <= r < rows,
    ensures
        0 <= start + r * stride,
        start + r * stride + row_bytes <= len,
{
    assert(r * stride <= (rows - 1) * stride) by (nonlinear_arith)
        requires
            0 <= r <= rows - 1,
            0 <= stride,
    ;
    assert(0 <= r * stride) by (nonlinear_arith)
        requires
            0 <= r,
            0 <= stride,
    ;
}

/// The product of two 64-bit values, which cannot overflow 128 bits.
pub fn wide_mul(a: u64, b: u64) -> (r: u128)
    ensures
        r == a * b,
        r <= 0xffff_ffff_ffff_ffff * 0xffff_ffff_ffff_ffffu128,
{
    proof {
        assert(a * b <= 0xffff_ffff_ffff_ffff * 0xffff_ffff_ffff_ffffu128) by (nonlinear_arith)
            requires
                a <= 0xffff_ffff_ffff_ffffu64,
                b <= 0xffff_ffff_ffff_ffffu64,
        ;
    }
    (a as u128) * (b as u128)
}

/// Whether every row of the plane lies inside `len` bytes.
pub fn rows_fit_check(len: usize, start: usize, stride: usize, row_bytes: usize, rows: usize) -> (r:
    bool)
    ensures
        r == rows_fit(len as int, start as int, stride as int, row_bytes as int, rows as int),
{
    if rows == 0 {
        return true;
    }
    let span = wide_mul((rows - 1) as u64, stride as u64);
    (start as u128) + span + (row_bytes as u128) <= len as u128
}

/// Appends `src[at .. at + n]` to `out`.
pub fn push_range(out: &mut Vec<u8>, src: &[u8], at: usize, n: usize)
    requires
        at + n <= src@.len(),
    ensures
        final(out)@ == old(out)@ + src@.subrange(at as int, at + n),
{
    let _len = src.len();
    let mut i: usize = 0;
    while i < n
        invariant
            at + n <= src@.len(),
            src@.len() <= usize::MAX,
            i <= n,
            out@ == old(out)@ + src@.subrange(at as int, at + i),
        decreases n - i,
    {
        out.push(src[at + i]);
        assert(src@.subrange(at as int, at + i + 1) =~= src@.subrange(at as int, at + i).push(
            src@[at + i],
        ));
        i = i + 1;
    }
}

/// Appends `rows` rows of `row_bytes` bytes, the first at `start` and each
/// next one `stride` bytes further.
pub fn copy_with_stride(
    src: &[u8],
    start: usize,
    stride: usize,
    row_bytes: usize,
    rows: usize,
    out: &mut Vec<u8>,
)
    requires
        rows_fit(src@.len() as int, start as int, stride as int, row_bytes as int, rows as int),
    ensures
        final(out)@ == old(out)@ + plane_rows(
            src@,
            start as int,
            stride as int,
            row_bytes as int,
            rows as nat,
        ),
{
    let _len = src.len();
    let mut r: usize = 0;
    while r < rows
        invariant
            rows_fit(src@.len() as int, start as int, stride as int, row_bytes as int, rows as int),
            r <= rows,
            src@.len() <= usize::MAX,
            out@ == old(out)@ + plane_rows(
                src@,
                start as int,
                stride as int,
                row_bytes as int,
                r as nat,
            ),
        decreases rows - r,
    {
        proof {
            lemma_row_in_bounds(
                src@.len() as int,
                start as int,
                stride as int,
                row_bytes as int,
                rows as int,
                r as int,
            );
        }
        let at = start + r * stride;
        push_range(out, src, at, row_bytes);
        assert(out@ =~= old(out)@ + plane_rows(
            src@,
            start as int,
            stride as int,
            row_bytes as int,
            (r + 1) as nat,
        ));
        r = r + 1;
    }
}

proof fn lemma_packed_seq_group(s: Seq<u8>, g: int)
    requires
        0 <= g < s.len() / 8,
    ensures
        packed_seq(s).subrange(5 * g, 5 * g + 5) == pack_group(s.subrange(8 * g, 8 * g + 8)),
{
    assert forall|k: int| 0 <= k < 5 implies #[trigger] packed_seq(s).subrange(
        5 * g,
        5 * g + 5,
    )[k] == pack_group(s.subrange(8 * g, 8 * g + 8))[k] by {
        assert((5 * g + k) / 5 == g);
        assert((5 * g + k) % 5 == k);
    }
    assert(packed_seq(s).subrange(5 * g, 5 * g + 5) =~= pack_group(s.subrange(8 * g, 8 * g + 8)));
}

proof fn lemma_unpacked_seq_group(p: Seq<u8>, g: int)
    requires
        0 <= g < p.len() / 5,
    ensures
        unpacked_seq(p).subrange(8 * g, 8 * g + 8) == unpack_group(p.subrange(5 * g, 5 * g + 5)),
{
    assert forall|k: int| 0 <= k < 8 implies #[trigger] unpacked_seq(p).subrange(
        8 * g,
        8 * g + 8,
    )[k] == unpack_group(p.subrange(5 * g, 5 * g + 5))[k] by {
        assert((8 * g + k) / 8 == g);
        assert((8 * g + k) % 8 == k);
    }
    assert(unpacked_seq(p).subrange(8 * g, 8 * g + 8) =~= unpack_group(
        p.subrange(5 * g, 5 * g + 5),
    ));
}

fn push5(out: &mut Vec<u8>, g: [u8; 5])
    ensures
        final(out)@ == old(out)@ + g@,
{
    out.push(g[0]);
    out.push(g[1]);
    out.push(g[2]);
    out.push(g[3]);
    out.push(g[4]);
    assert(out@ =~= old(out)@ + g@);
}

/// The last partial group of a row, `rem` bytes at `base`, padded with
/// zeros and packed.
fn pack_tail(src: &[u8], base: usize, rem: usize) -> (r: [u8; 5])
    requires
        0 < rem < 8,
        base + rem <= src@.len(),
    ensures
        r@ == pack_group(src@.subrange(base as int, base + rem) + Seq::new(
            (8 - rem) as nat,
            |i: int| 0u8,
        )),
{
    let _len = src.len();
    let mut tmp = [0u8; 8];
    let mut k: usize = 0;
    while k < rem
        invariant
            rem < 8,
            base + rem <= src@.len(),
            src@.len() <= usize::MAX,
            k <= rem,
            forall|i: int| 0 <= i < k ==> tmp@[i] == src@[base + i],
            forall|i: int| k <= i < 8 ==> tmp@[i] == 0u8,
        decreases rem - k,
    {
        tmp[k] = src[base + k];
        k = k + 1;
    }
    let mut o_arr = [0u8; 5];
    pack_4_pix_10bit(tmp, &mut o_arr);
    assert(tmp@ =~= src@.subrange(base as int, base + rem) + Seq::new(
        (8 - rem) as nat,
        |i: int| 0u8,
    ));
    o_arr
}

proof fn lemma_pad8_groups(row: Seq<u8>, g: int)
    requires
        0 <= g <= row.len() / 8,
    ensures
        g < row.len() / 8 ==> pad8(row).subrange(8 * g, 8 * g + 8) == row.subrange(8 * g, 8 * g + 8),
        g == row.len() / 8 && row.len() % 8 > 0 ==> pad8(row).subrange(8 * g, 8 * g + 8) == row.subrange(
            8 * g,
            row.len() as int,
        ) + Seq::new((8 - row.len() % 8) as nat, |i: int| 0u8),
        pad8(row).len() == 8 * (row.len() / 8) + if row.len() % 8 > 0 {
            8int
        } else {
            0int
        },
{
    if g < row.len() / 8 {
        assert(pad8(row).subrange(8 * g, 8 * g + 8) =~= row.subrange(8 * g, 8 * g + 8));
    }
    if g == row.len() / 8 && row.len() % 8 > 0 {
        assert(pad8(row).subrange(8 * g, 8 * g + 8) =~= row.subrange(8 * g, row.len() as int)
            + Seq::new((8 - row.len() % 8) as nat, |i: int| 0u8));
    }
}

/// Appends row `src[at .. at + row_bytes]` packed, its last partial group
/// padded with zeros.
#[verifier::rlimit(100)]
pub fn pack_row_into(out: &mut Vec<u8>, src: &[u8], at: usize, row_bytes: usize)
    requires
        at + row_bytes <= src@.len(),
    ensures
        final(out)@ == old(out)@ + pack_row(src@.subrange(at as int, at + row_bytes)),
{
    let _len = src.len();
    let ghost row = src@.subrange(at as int, at + row_bytes);
    let ghost padded = pad8(row);
    proof {
        lemma_pad8_groups(row, 0);
    }
    let full = row_bytes / 8;
    let mut g: usize = 0;
    while g < full
        invariant
            at + row_bytes <= src@.len(),
            src@.len() <= usize::MAX,
            full == row_bytes / 8,
            row == src@.subrange(at as int, at + row_bytes),
            padded == pad8(row),
            padded.len() / 8 >= full,
            g <= full,
            out@ == old(out)@ + packed_seq(padded).subrange(0, 5 * g),
        decreases full - g,
    {
        let i_arr = group8(src, at + 8 * g);
        let mut o_arr = [0u8; 5];
        pack_4_pix_10bit(i_arr, &mut o_arr);
        proof {
            lemma_pad8_groups(row, g as int);
            assert(row.subrange(8 * g, 8 * g + 8) =~= i_arr@);
            lemma_packed_seq_group(padded, g as int);
        }
        push5(out, o_arr);
        assert(packed_seq(padded).subrange(0, 5 * (g + 1)) =~= packed_seq(padded).subrange(0, 5 * g)
            + packed_seq(padded).subrange(5 * g, 5 * g + 5));
        g = g + 1;
    }
    let rem = row_bytes % 8;
    if rem > 0 {
        let o_arr = pack_tail(src, at + row_bytes - rem, rem);
        proof {
            lemma_pad8_groups(row, full as int);
            assert(row.subrange(8 * full, row.len() as int) =~= src@.subrange(
                at + row_bytes - rem,
                at + row_bytes,
            ));
            lemma_packed_seq_group(padded, full as int);
        }
        push5(out, o_arr);
        assert(packed_seq(padded).subrange(0, 5 * (full + 1)) =~= packed_seq(padded).subrange(
            0,
            5 * full,
        ) + packed_seq(padded).subrange(5 * full, 5 * full + 5));
        assert(packed_seq(padded).subrange(0, 5 * (full + 1)) =~= packed_seq(padded));
    } else {
        assert(packed_seq(padded).subrange(0, 5 * full) =~= packed_seq(padded));
    }
}

/// Appends `rows` rows of `w` 16-bit samples, the first at `start` and each
/// next one `stride` bytes further, each row packed with its last partial
/// group padded with zeros.
pub fn pack_stride_rem(
    src: &[u8],
    start: usize,
    stride: usize,
    w: usize,
    rows: usize,
    out: &mut Vec<u8>,
)
    requires
        w <= MAX_WIDTH,
        rows_fit(src@.len() as int, start as int, stride as int, 2 * w, rows as int),
    ensures
        final(out)@ == old(out)@ + packed_rows(
            src@,
            start as int,
            stride as int,
            2 * w,
            rows as nat,
        ),
{
    let _len = src.len();
    let mut r: usize = 0;
    while r < rows
        invariant
            w <= MAX_WIDTH,
            rows_fit(src@.len() as int, start as int, stride as int, 2 * w, rows as int),
            r <= rows,
            src@.len() <= usize::MAX,
            out@ == old(out)@ + packed_rows(src@, start as int, stride as int, 2 * w, r as nat),
        decreases rows - r,
    {
        proof {
            lemma_row_in_bounds(
                src@.len() as int,
                start as int,
                stride as int,
                2 * w,
                rows as int,
                r as int,
            );
        }
        pack_row_into(out, src, start + r * stride, 2 * w);
        assert(out@ =~= old(out)@ + packed_rows(
            src@,
            start as int,
            stride as int,
            2 * w,
            (r + 1) as nat,
        ));
        r = r + 1;
    }
}

/// Packs one plane of `w`×`h` 16-bit samples stored row after row, each row
/// padded to whole groups, and appends it.
pub fn pack_10bit_rem(input: &[u8], output: &mut Vec<u8>, w: usize, h: usize)
    requires
        w <= MAX_WIDTH,
        rows_fit(input@.len() as int, 0, 2 * w, 2 * w, h as int),
    ensures
        final(output)@ == old(output)@ + packed_rows(input@, 0, 2 * w, 2 * w, h as nat),
{
    pack_stride_rem(input, 0, 2 * w, w, h, output);
}

fn push_prefix8(out: &mut Vec<u8>, g: [u8; 8], n: usize)
    requires
        n <= 8,
    ensures
        final(out)@ == old(out)@ + g@.subrange(0, n as int),
{
    let mut k: usize = 0;
    while k < n
        invariant
            n <= 8,
            k <= n,
            out@ == old(out)@ + g@.subrange(0, k as int),
        decreases n - k,
    {
        out.push(g[k]);
        assert(g@.subrange(0, k + 1) =~= g@.subrange(0, k as int).push(g@[k as int]));
        k = k + 1;
    }
}

/// Appends packed row `src[at .. at + packed_row_len(w)]` spread back into
/// `2·w` bytes of samples.
#[verifier::rlimit(60)]
pub fn unpack_row_into(out: &mut Vec<u8>, src: &[u8], at: usize, w: usize)
    requires
        w <= MAX_WIDTH,
        at + packed_row_len(w as nat) <= src@.len(),
    ensures
        final(out)@ == old(out)@ + unpack_row(
            src@.subrange(at as int, at + packed_row_len(w as nat)),
            2 * w,
        ),
{
    let _len = src.len();
    let prow = packed_row_size(w);
    let ghost p = src@.subrange(at as int, at + prow);
    proof {
        lemma_packed_row_len(w as nat);
    }
    let full = (2 * w) / 8;
    let mut g: usize = 0;
    while g < full
        invariant
            w <= MAX_WIDTH,
            prow == packed_row_len(w as nat),
            prow == 5 * ((2 * w + 7) / 8),
            at + prow <= src@.len(),
            src@.len() <= usize::MAX,
            full == (2 * w) / 8,
            p == src@.subrange(at as int, at + prow),
            g <= full,
            out@ == old(out)@ + unpacked_seq(p).subrange(0, 8 * g),
        decreases full - g,
    {
        let i_arr = group5(src, at + 5 * g);
        let mut o_arr = [0u8; 8];
        unpack_4_pix_10bit(i_arr, &mut o_arr);
        proof {
            assert(p.subrange(5 * g, 5 * g + 5) =~= i_arr@);
            lemma_unpacked_seq_group(p, g as int);
        }
        push_prefix8(out, o_arr, 8);
        assert(o_arr@.subrange(0, 8) =~= o_arr@);
        assert(unpacked_seq(p).subrange(0, 8 * (g + 1)) =~= unpacked_seq(p).subrange(0, 8 * g)
            + unpacked_seq(p).subrange(8 * g, 8 * g + 8));
        g = g + 1;
    }
    let rem = (2 * w) % 8;
    if rem > 0 {
        let i_arr = group5(src, at + prow - 5);
        let mut o_arr = [0u8; 8];
        unpack_4_pix_10bit(i_arr, &mut o_arr);
        proof {
            assert(p.subrange(5 * full, 5 * full + 5) =~= i_arr@);
            lemma_unpacked_seq_group(p, full as int);
        }
        push_prefix8(out, o_arr, rem);
        assert(unpacked_seq(p).subrange(0, 8 * full + rem) =~= unpacked_seq(p).subrange(0, 8 * full)
            + o_arr@.subrange(0, rem as int));
    }
    assert(8 * full + rem == 2 * w);
}

/// Appends `rows` packed rows of `w` samples, the first at `start`, each
/// spread back into `2·w` bytes.
pub fn unpack_plane_rem(src: &[u8], start: usize, w: usize, rows: usize, out: &mut Vec<u8>)
    requires
        w <= MAX_WIDTH,
        start + rows * packed_row_len(w as nat) <= src@.len(),
    ensures
        final(out)@ == old(out)@ + unpacked_rows(
            src@,
            start as int,
            packed_row_len(w as nat) as int,
            2 * w,
            rows as nat,
        ),
{
    let _len = src.len();
    let prow = packed_row_size(w);
    let mut r: usize = 0;
    while r < rows
        invariant
            w <= MAX_WIDTH,
            prow == packed_row_len(w as nat),
            start + rows * prow <= src@.len(),
            src@.len() <= usize::MAX,
            r <= rows,
            out@ == old(out)@ + unpacked_rows(
                src@,
                start as int,
                prow as int,
                2 * w,
                r as nat,
            ),
        decreases rows - r,
    {
        assert(r * prow + prow <= rows * prow) by (nonlinear_arith)
            requires
                r < rows,
        ;
        unpack_row_into(out, src, start + r * prow, w);
        assert(out@ =~= old(out)@ + unpacked_rows(
            src@,
            start as int,
            prow as int,
            2 * w,
            (r + 1) as nat,
        ));
        r = r + 1;
    }
}

/// Widens each byte of `input` to a 10-bit sample (`v << 2`) written as two
/// little-endian bytes into `output`, as many as `output` holds; the rest of
/// `output` is left as it was.
pub fn conv_to_10bit(input: &[u8], output: &mut [u8])
    ensures
        final(output)@.len() == old(output)@.len(),
        ({
            let n = if input@.len() <= old(output)@.len() / 2 {
                input@.len()
            } else {
                old(output)@.len() / 2
            };
            &&& forall|j: int|
                0 <= j < 2 * n ==> #[trigger] final(output)@[j] == crate::pack::widen_seq(
                    input@,
                )[j]
            &&& forall|j: int|
                2 * n <= j < old(output)@.len() ==> #[trigger] final(output)@[j] == old(
                    output,
                )@[j]
        }),
{
    let n = if input.len() <= output.len() / 2 {
        input.len()
    } else {
        output.len() / 2
    };
    let mut i: usize = 0;
    while i < n
        invariant
            n <= input@.len(),
            2 * n <= old(output)@.len(),
            old(output)@.len() <= usize::MAX,
            i <= n,
            output@.len() == old(output)@.len(),
            forall|j: int|
                0 <= j < 2 * i ==> #[trigger] output@[j] == crate::pack::widen_seq(input@)[j],
            forall|j: int| 2 * i <= j < old(output)@.len() ==> #[trigger] output@[j] == old(output)@[j],
        decreases n - i,
    {
        let v: u16 = (input[i] as u16) << 2u16;
        output[2 * i] = v as u8;
        output[2 * i + 1] = (v >> 8u16) as u8;
        assert forall|j: int| 0 <= j < 2 * (i + 1) implies #[trigger] output@[j]
            == crate::pack::widen_seq(input@)[j] by {
            if j >= 2 * i {
                assert(j / 2 == i as int);
            }
        }
        i = i + 1;
    }
}

/// A packed 10-bit frame of `w`×`h` (each plane's rows padded to whole
/// groups: Y, then U and V of `w/2`×`h/2`) spread back into 16-bit samples.
pub open spec fn unpacked_frame(input: Seq<u8>, w: nat, h: nat) -> Seq<u8> {
    let y_packed = packed_row_len(w) * h;
    let uv_packed = packed_row_len(w / 2) * (h / 2);
    unpacked_rows(input, 0, packed_row_len(w) as int, (2 * w) as int, h) + unpacked_rows(
        input,
        y_packed as int,
        packed_row_len(w / 2) as int,
        (2 * (w / 2)) as int,
        h / 2,
    ) + unpacked_rows(
        input,
        (y_packed + uv_packed) as int,
        packed_row_len(w / 2) as int,
        (2 * (w / 2)) as int,
        h / 2,
    )
}

/// Appends a packed 10-bit frame of `w`×`h` spread back into 16-bit
/// samples, plane by plane.
pub fn unpack_10bit_rem(input: &[u8], output: &mut Vec<u8>, w: usize, h: usize)
    requires
        w <= MAX_WIDTH,
        h <= MAX_WIDTH,
        packed_row_len(w as nat) * h + 2 * packed_row_len((w / 2) as nat) * (h / 2) <= input@.len(),
    ensures
        final(output)@ == old(output)@ + unpacked_frame(input@, w as nat, h as nat),
{
    let _len = input.len();
    let y_row = packed_row_size(w);
    let uv_row = packed_row_size(w / 2);
    proof {
        assert(h * y_row == y_row * h && (h / 2) * uv_row == uv_row * (h / 2)) by (nonlinear_arith);
        assert(0 <= uv_row * (h / 2)) by (nonlinear_arith);
        assert(2 * uv_row * (h / 2) == uv_row * (h / 2) + uv_row * (h / 2)) by (nonlinear_arith);
        assert(uv_row == packed_row_len((w / 2) as nat));
    }
    let y_packed = y_row * h;
    let uv_packed = uv_row * (h / 2);
    unpack_plane_rem(input, 0, w, h, output);
    unpack_plane_rem(input, y_packed, w / 2, h / 2, output);
    unpack_plane_rem(input, y_packed + uv_packed, w / 2, h / 2, output);
    assert(output@ =~= old(output)@ + unpacked_frame(input@, w as nat, h as nat));
}

proof fn lemma_plane_rows_shape(src: Seq<u8>, stride: int, row_bytes: int, rows: nat, r: int)
    requires
        rows_fit(src.len() as int, 0, stride, row_bytes, rows as int),
        0 <= r < rows,
    ensures
        plane_rows(src, 0, stride, row_bytes, rows).len() == rows * row_bytes,
        plane_rows(src, 0, stride, row_bytes, rows).subrange(r * row_bytes, r * row_bytes + row_bytes)
            == plane_row(src, 0, stride, row_bytes, r),
    decreases rows,
{
    lemma_row_in_bounds(src.len() as int, 0, stride, row_bytes, rows as int, rows - 1);
    let prev = plane_rows(src, 0, stride, row_bytes, (rows - 1) as nat);
    if rows > 1 {
        assert(rows_fit(src.len() as int, 0, stride, row_bytes, rows - 1)) by {
            assert((rows - 2) * stride <= (rows - 1) * stride) by (nonlinear_arith)
                requires
                    rows >= 2,
                    stride >= 0,
            ;
        }
        lemma_plane_rows_shape(src, stride, row_bytes, (rows - 1) as nat, 0);
        if r < rows - 1 {
            lemma_plane_rows_shape(src, stride, row_bytes, (rows - 1) as nat, r);
            assert(r * row_bytes + row_bytes <= (rows - 1) * row_bytes) by (nonlinear_arith)
                requires
                    r < rows - 1,
                    row_bytes >= 0,
            ;
            assert(plane_rows(src, 0, stride, row_bytes, rows).subrange(
                r * row_bytes,
                r * row_bytes + row_bytes,
            ) =~= prev.subrange(r * row_bytes, r * row_bytes + row_bytes));
        }
    }
    assert(prev.len() == (rows - 1) * row_bytes);
    assert((rows - 1) * row_bytes + row_bytes == rows * row_bytes) by (nonlinear_arith);
    if r == rows - 1 {
        assert(plane_rows(src, 0, stride, row_bytes, rows).subrange(
            r * row_bytes,
            r * row_bytes + row_bytes,
        ) =~= plane_row(src, 0, stride, row_bytes, r));
    }
}

/// Cutting rows out of a padded plane gives the same bytes as cutting them
/// out of a tight copy of its rows: copied, or packed.
pub proof fn lemma_stride_matches_tight(src: Seq<u8>, stride: int, row_bytes: int, rows: nat)
    requires
        rows_fit(src.len() as int, 0, stride, row_bytes, rows as int),
        stride >= row_bytes,
    ensures
        ({
            let tight = plane_rows(src, 0, stride, row_bytes, rows);
            &&& plane_rows(src, 0, stride, row_bytes, rows) == plane_rows(
                tight,
                0,
                row_bytes,
                row_bytes,
                rows,
            )
            &&& packed_rows(src, 0, stride, row_bytes, rows) == packed_rows(
                tight,
                0,
                row_bytes,
                row_bytes,
                rows,
            )
        }),
{
    let tight = plane_rows(src, 0, stride, row_bytes, rows);
    assert forall|n: nat| n <= rows implies plane_rows(src, 0, stride, row_bytes, n) == plane_rows(
        tight,
        0,
        row_bytes,
        row_bytes,
        n,
    ) && packed_rows(src, 0, stride, row_bytes, n) == packed_rows(
        tight,
        0,
        row_bytes,
        row_bytes,
        n,
    ) by {
        lemma_stride_prefix(src, stride, row_bytes, rows, n);
    }
}

proof fn lemma_stride_prefix(src: Seq<u8>, stride: int, row_bytes: int, rows: nat, n: nat)
    requires
        rows_fit(src.len() as int, 0, stride, row_bytes, rows as int),
        stride >= row_bytes,
        n <= rows,
    ensures
        plane_rows(src, 0, stride, row_bytes, n) == plane_rows(
            plane_rows(src, 0, stride, row_bytes, rows),
            0,
            row_bytes,
            row_bytes,
            n,
        ),
        packed_rows(src, 0, stride, row_bytes, n) == packed_rows(
            plane_rows(src, 0, stride, row_bytes, rows),
            0,
            row_bytes,
            row_bytes,
            n,
        ),
    decreases n,
{
    if n > 0 {
        lemma_stride_prefix(src, stride, row_bytes, rows, (n - 1) as nat);
        lemma_plane_rows_shape(src, stride, row_bytes, rows, n - 1);
    }
}

proof fn lemma_pack_row_len(row: Seq<u8>)
    requires
        row.len() % 2 == 0,
    ensures
        pack_row(row).len() == packed_row_len(row.len() / 2),
{
    lemma_packed_row_len(row.len() / 2);
    assert(pad8(row).len() == 8 * ((row.len() + 7) / 8));
}

/// Cutting a window (rows `top..top+rows`, bytes `off..off+row_bytes` of
/// each) out of a padded plane gives the same bytes as cutting it out of a
/// tight copy of the plane's `full_rows` rows of `full_row` bytes: copied,
/// or packed.
pub proof fn lemma_window_matches_tight(
    src: Seq<u8>,
    stride: int,
    full_row: int,
    full_rows: nat,
    top: int,
    off: int,
    row_bytes: int,
    rows: nat,
)
    requires
        rows_fit(src.len() as int, 0, stride, full_row, full_rows as int),
        stride >= full_row,
        0 <= top,
        top + rows <= full_rows,
        0 <= off,
        0 <= row_bytes,
        off + row_bytes <= full_row,
    ensures
        ({
            let tight = plane_rows(src, 0, stride, full_row, full_rows);
            &&& plane_rows(src, top * stride + off, stride, row_bytes, rows) == plane_rows(
                tight,
                top * full_row + off,
                full_row,
                row_bytes,
                rows,
            )
            &&& packed_rows(src, top * stride + off, stride, row_bytes, rows) == packed_rows(
                tight,
                top * full_row + off,
                full_row,
                row_bytes,
                rows,
            )
        }),
    decreases rows,
{
    if rows > 0 {
        lemma_window_matches_tight(src, stride, full_row, full_rows, top, off, row_bytes, (rows - 1) as nat);
        let k = rows - 1;
        let tight = plane_rows(src, 0, stride, full_row, full_rows);
        lemma_plane_rows_shape(src, stride, full_row, full_rows, top + k);
        assert((top + k) * full_row == top * full_row + k * full_row) by (nonlinear_arith);
        assert((top + k) * stride == top * stride + k * stride) by (nonlinear_arith);
        lemma_row_in_bounds(src.len() as int, 0, stride, full_row, full_rows as int, top + k);
        assert(0 <= (top + k) * full_row) by (nonlinear_arith)
            requires
                top + k >= 0,
                full_row >= 0,
        ;
        assert((top + k) * full_row + full_row <= full_rows * full_row) by (nonlinear_arith)
            requires
                top + k + 1 <= full_rows,
                full_row >= 0,
        ;
        let trow = tight.subrange((top + k) * full_row, (top + k) * full_row + full_row);
        assert(plane_row(tight, top * full_row + off, full_row, row_bytes, k) =~= trow.subrange(
            off,
            off + row_bytes,
        ));
        assert(plane_row(src, top * stride + off, stride, row_bytes, k) =~= plane_row(
            src,
            0,
            stride,
            full_row,
            top + k,
        ).subrange(off, off + row_bytes));
    }
}

/// The copied rows of a plane take `row_bytes` bytes each.
pub proof fn lemma_plane_rows_len(src: Seq<u8>, start: int, stride: int, row_bytes: int, rows: nat)
    requires
        rows_fit(src.len() as int, start, stride, row_bytes, rows as int),
    ensures
        plane_rows(src, start, stride, row_bytes, rows).len() == rows * row_bytes,
    decreases rows,
{
    if rows > 0 {
        lemma_row_in_bounds(src.len() as int, start, stride, row_bytes, rows as int, rows - 1);
        if rows > 1 {
            assert((rows - 2) * stride <= (rows - 1) * stride) by (nonlinear_arith)
                requires
                    rows >= 2,
                    stride >= 0,
            ;
        }
        lemma_plane_rows_len(src, start, stride, row_bytes, (rows - 1) as nat);
        assert((rows - 1) * row_bytes + row_bytes == rows * row_bytes) by (nonlinear_arith);
    } else {
        assert(rows * row_bytes == 0) by (nonlinear_arith)
            requires
                rows == 0,
        ;
    }
}

/// The packed rows of a plane take `packed_row_len` bytes each.
pub proof fn lemma_packed_rows_len(src: Seq<u8>, start: int, stride: int, w: int, rows: nat)
    requires
        rows_fit(src.len() as int, start, stride, 2 * w, rows as int),
        w >= 0,
    ensures
        packed_rows(src, start, stride, 2 * w, rows).len() == rows * packed_row_len(w as nat),
    decreases rows,
{
    if rows > 0 {
        lemma_row_in_bounds(src.len() as int, start, stride, 2 * w, rows as int, rows - 1);
        if rows > 1 {
            assert((rows - 2) * stride <= (rows - 1) * stride) by (nonlinear_arith)
                requires
                    rows >= 2,
                    stride >= 0,
            ;
        }
        lemma_packed_rows_len(src, start, stride, w, (rows - 1) as nat);
        let row = plane_row(src, start, stride, 2 * w, rows - 1);
        assert(row.len() == 2 * w);
        lemma_pack_row_len(row);
        assert(row.len() / 2 == w as nat);
        assert(packed_rows(src, start, stride, 2 * w, rows).len() == packed_rows(src, start, stride, 2 * w, (rows - 1) as nat).len() + pack_row(row).len());
        assert((rows - 1) * packed_row_len(w as nat) + packed_row_len(w as nat) == rows
            * packed_row_len(w as nat)) by (nonlinear_arith);
    } else {
        assert(rows * packed_row_len(w as nat) == 0) by (nonlinear_arith)
            requires
                rows == 0,
        ;
    }
}

} // verus!
