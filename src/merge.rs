use vstd::prelude::*;

verus! {

/// Bytes in an IVF file header.
pub const IVF_HEADER_LEN: usize = 32;

/// The frame count an IVF header holds: the little-endian `u32` at byte 24.
pub open spec fn ivf_frames(f: Seq<u8>) -> nat {
    f[24] as nat + 256 * (f[25] as nat) + 65536 * (f[26] as nat) + 16777216 * (f[27] as nat)
}

/// The frame counts of the files added up.
pub open spec fn total_frames(fs: Seq<Seq<u8>>) -> nat
    decreases fs.len(),
{
    if fs.len() == 0 {
        0
    } else {
        total_frames(fs.drop_last()) + ivf_frames(fs.last())
    }
}

/// The first file whole, then each later file without its header.
pub open spec fn joined_streams(fs: Seq<Seq<u8>>) -> Seq<u8>
    decreases fs.len(),
{
    if fs.len() == 0 {
        Seq::empty()
    } else if fs.len() == 1 {
        fs[0]
    } else {
        joined_streams(fs.drop_last()) + fs.last().subrange(32, fs.last().len() as int)
    }
}

/// The files can be joined: there is one at least, each holds a header, and
/// their frames add up to a count a header can hold.
pub open spec fn can_join(fs: Seq<Seq<u8>>) -> bool {
    &&& fs.len() > 0
    &&& forall|i: int| 0 <= i < fs.len() ==> (#[trigger] fs[i]).len() >= 32
    &&& total_frames(fs) <= u32::MAX
}

/// The joined stream with bytes 24..28 set to the total frame count.
pub open spec fn ivf_concat_spec(fs: Seq<Seq<u8>>) -> Seq<u8> {
    let body = joined_streams(fs);
    let n = total_frames(fs);
    body.update(24, (n % 256) as u8).update(25, ((n / 256) % 256) as u8).update(
        26,
        ((n / 65536) % 256) as u8,
    ).update(27, ((n / 16777216) % 256) as u8)
}

proof fn lemma_total_prefix(fs: Seq<Seq<u8>>, k: int)
    requires
        0 <= k <= fs.len(),
    ensures
        total_frames(fs.subrange(0, k)) <= total_frames(fs),
    decreases fs.len() - k,
{
    if k < fs.len() {
        lemma_total_prefix(fs, k + 1);
        assert(fs.subrange(0, k + 1).drop_last() =~= fs.subrange(0, k));
    } else {
        assert(fs.subrange(0, k) =~= fs);
    }
}

proof fn lemma_joined_len(fs: Seq<Seq<u8>>)
    requires
        fs.len() > 0,
        forall|i: int| 0 <= i < fs.len() ==> (#[trigger] fs[i]).len() >= 32,
    ensures
        joined_streams(fs).len() >= 32,
        joined_streams(fs).subrange(0, 32) == fs[0].subrange(0, 32),
    decreases fs.len(),
{
    if fs.len() > 1 {
        let init = fs.drop_last();
        assert(init[0] == fs[0]);
        assert forall|i: int| 0 <= i < init.len() implies (#[trigger] init[i]).len() >= 32 by {
            assert(init[i] == fs[i]);
        }
        lemma_joined_len(init);
        assert(joined_streams(fs).subrange(0, 32) =~= joined_streams(init).subrange(0, 32));
    }
}

/// Joins per-chunk IVF streams into one: the first file whole, each later
/// file without its header, and the header's frame count set to the total.
/// `None` when there is no file, a file is shorter than a header, or the
/// total does not fit a header.
pub fn concat_ivf(files: &[Vec<u8>]) -> (r: Option<Vec<u8>>)
    ensures
        ({
            let fs = files@.map_values(|f: Vec<u8>| f@);
            &&& r is Some <==> can_join(fs)
            &&& r matches Some(out) ==> out@ == ivf_concat_spec(fs)
        }),
{
    let ghost fs = files@.map_values(|f: Vec<u8>| f@);
    let n = files.len();
    if n == 0 {
        return None;
    }
    let mut total: u64 = 0;
    let mut k: usize = 0;
    while k < n
        invariant
            n == files@.len(),
            fs == files@.map_values(|f: Vec<u8>| f@),
            k <= n,
            total == total_frames(fs.subrange(0, k as int)),
            total <= u32::MAX,
            forall|i: int| 0 <= i < k ==> (#[trigger] fs[i]).len() >= 32,
        decreases n - k,
    {
        let f = &files[k];
        assert(fs.subrange(0, k + 1).drop_last() =~= fs.subrange(0, k as int));
        assert(fs[k as int] == f@);
        if f.len() < IVF_HEADER_LEN {
            assert(!can_join(fs));
            return None;
        }
        let c = f[24] as u64 + 256 * (f[25] as u64) + 65536 * (f[26] as u64) + 16777216 * (f[27] as u64);
        if total + c > 0xffff_ffffu64 {
            proof {
                lemma_total_prefix(fs, k + 1);
            }
            return None;
        }
        total = total + c;
        k = k + 1;
    }
    assert(fs.subrange(0, k as int) =~= fs);
    let mut out: Vec<u8> = files[0].clone();
    let mut j: usize = 1;
    while j < n
        invariant
            n == files@.len(),
            n > 0,
            fs == files@.map_values(|f: Vec<u8>| f@),
            1 <= j <= n,
            forall|i: int| 0 <= i < n ==> (#[trigger] fs[i]).len() >= 32,
            out@ == joined_streams(fs.subrange(0, j as int)),
        decreases n - j,
    {
        let f = &files[j];
        assert(fs.subrange(0, j + 1).drop_last() =~= fs.subrange(0, j as int));
        let mut b: usize = IVF_HEADER_LEN;
        let ghost before = out@;
        assert(fs[j as int] == f@);
        assert(before + f@.subrange(32, 32) =~= before);
        while b < f.len()
            invariant
                32 <= b <= f@.len(),
                out@ == before + f@.subrange(32, b as int),
            decreases f@.len() - b,
        {
            out.push(f[b]);
            assert(f@.subrange(32, b + 1) =~= f@.subrange(32, b as int).push(f@[b as int]));
            b = b + 1;
        }
        assert(fs[j as int] == f@);
        j = j + 1;
    }
    assert(fs.subrange(0, j as int) =~= fs);
    proof {
        lemma_joined_len(fs);
    }
    let t = total as u32;
    out.set(24, (t % 256) as u8);
    out.set(25, ((t / 256) % 256) as u8);
    out.set(26, ((t / 65536) % 256) as u8);
    out.set(27, ((t / 16777216) % 256) as u8);
    assert(out@ =~= ivf_concat_spec(fs));
    Some(out)
}

} // verus!
