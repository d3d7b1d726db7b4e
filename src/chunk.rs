use vstd::prelude::*;

use crate::text::{
    is_ws, lemma_decimal_parses, lemma_decimal_plain, lemma_newline_at_is, lemma_token_end_is,
    newline_at, skip_ws, decimal, lines, lines_in, parse_uint, parse_uint_spec, push_decimal, tokens, tokens_in,
};

verus! {

/// A run of frames `[s_frame, e_frame)` between two scene changes.
#[derive(Clone, Copy, Debug, PartialEq, Eq, Structural)]
pub struct Scene {
    pub s_frame: usize,
    pub e_frame: usize,
}

/// A scene with its index in the chunk list, which names its output file.
#[derive(Clone, Copy, Debug, PartialEq, Eq, Structural)]
pub struct Chunk {
    pub idx: usize,
    pub start: usize,
    pub end: usize,
}

/// A chunk whose encoded output is on disk: its frame count and byte size.
#[derive(Clone, Copy, Debug, PartialEq, Eq, Structural)]
pub struct ChunkComp {
    pub idx: usize,
    pub frames: usize,
    pub size: u64,
}

/// The chunks recorded as done, in the order they were recorded.
pub struct ResumeInf {
    pub chnks_done: Vec<ChunkComp>,
}

/// The scenes that start at each of `starts`, each ending where the next
/// starts and the last at `total`.
pub open spec fn scenes_of(starts: Seq<usize>, total: usize) -> Seq<Scene> {
    Seq::new(
        starts.len(),
        |i: int|
            Scene {
                s_frame: starts[i],
                e_frame: if i + 1 < starts.len() {
                    starts[i + 1]
                } else {
                    total
                },
            },
    )
}

/// Each scene numbered by its position.
pub open spec fn chunks_of(scenes: Seq<Scene>) -> Seq<Chunk> {
    Seq::new(
        scenes.len(),
        |i: int| Chunk { idx: i as usize, start: scenes[i].s_frame, end: scenes[i].e_frame },
    )
}

pub open spec fn sorted(s: Seq<usize>) -> bool {
    forall|i: int, j: int| 0 <= i < j < s.len() ==> s[i] <= s[j]
}

/// Numbers the scenes in order.
pub fn chunkify(scenes: &[Scene]) -> (r: Vec<Chunk>)
    ensures
        r@ == chunks_of(scenes@),
{
    let mut r: Vec<Chunk> = Vec::new();
    let mut i: usize = 0;
    while i < scenes.len()
        invariant
            i <= scenes@.len(),
            r@ == chunks_of(scenes@).subrange(0, i as int),
        decreases scenes@.len() - i,
    {
        r.push(Chunk { idx: i, start: scenes[i].s_frame, end: scenes[i].e_frame });
        assert(chunks_of(scenes@).subrange(0, i + 1) =~= chunks_of(scenes@).subrange(0, i as int).push(
            chunks_of(scenes@)[i as int],
        ));
        i = i + 1;
    }
    assert(chunks_of(scenes@).subrange(0, i as int) =~= chunks_of(scenes@));
    r
}

/// Chunk `i` of the scenes that start at `starts` covers the frames from
/// `starts[i]` up to the next start, the last one up to `total`.
pub proof fn lemma_chunks_of_starts(starts: Seq<usize>, total: usize)
    ensures
        chunks_of(scenes_of(starts, total)).len() == starts.len(),
        forall|i: int|
            0 <= i < starts.len() ==> #[trigger] chunks_of(scenes_of(starts, total))[i] == (Chunk {
                idx: i as usize,
                start: starts[i],
                end: if i + 1 < starts.len() {
                    starts[i + 1]
                } else {
                    total
                },
            }),
{
}

/// A scene list holding the frame indices `a < b < c`, one per line in any
/// order, gives the chunks `(0, a, b)`, `(1, b, c)` and `(2, c, total)`.
pub proof fn lemma_three_scene_file(t: Seq<u8>, total: usize, r: Seq<Scene>, a: usize, b: usize, c: usize)
    requires
        scenes_from_file(t, total, r),
        scene_file_values(t).to_multiset() == seq![a, b, c].to_multiset(),
        a < b < c,
    ensures
        chunks_of(r) == seq![
            Chunk { idx: 0, start: a, end: b },
            Chunk { idx: 1, start: b, end: c },
            Chunk { idx: 2, start: c, end: total },
        ],
{
    let s = r.map_values(|x: Scene| x.s_frame);
    let abc = seq![a, b, c];
    s.to_multiset_ensures();
    abc.to_multiset_ensures();
    assert(s.len() == 3);
    assert(abc.contains(a) && abc.contains(b) && abc.contains(c)) by {
        assert(abc[0] == a && abc[1] == b && abc[2] == c);
    }
    assert(s.to_multiset() == abc.to_multiset());
    assert(abc.to_multiset().count(a) > 0 && abc.to_multiset().count(b) > 0 && abc.to_multiset().count(
        c,
    ) > 0);
    assert(s.to_multiset().count(a) > 0 && s.to_multiset().count(b) > 0 && s.to_multiset().count(c)
        > 0);
    assert(s.contains(a) && s.contains(b) && s.contains(c));
    assert forall|i: int| 0 <= i < 3 implies #[trigger] s[i] == a || s[i] == b || s[i] == c by {
        assert(s.contains(s[i]));
        assert(s.to_multiset().count(s[i]) > 0);
        assert(abc.to_multiset().count(s[i]) > 0);
        assert(abc.contains(s[i]));
    }
    let ia = choose|i: int| 0 <= i < 3 && s[i] == a;
    let ib = choose|i: int| 0 <= i < 3 && s[i] == b;
    let ic = choose|i: int| 0 <= i < 3 && s[i] == c;
    assert(s[0] == a) by {
        if s[0] != a {
            assert(s[0] <= s[ia]);
        }
    }
    assert(s[2] == c) by {
        if s[2] != c {
            assert(s[ic] <= s[2]);
        }
    }
    assert(s[1] == b) by {
        assert(ib != 0 && ib != 2);
    }
    lemma_chunks_of_starts(s, total);
    assert(chunks_of(r) =~= seq![
        Chunk { idx: 0, start: a, end: b },
        Chunk { idx: 1, start: b, end: c },
        Chunk { idx: 2, start: c, end: total },
    ]);
}

/// Relies on `slice::sort_unstable`: the same values, in ascending order.
#[verifier::external_body]
fn sort_frames(v: &mut Vec<usize>)
    ensures
        final(v)@.to_multiset() == old(v)@.to_multiset(),
        sorted(final(v)@),
{
    v.sort_unstable();
}

/// The scenes starting at each of the sorted frame indices `starts`, the
/// last one ending at `total`.
pub fn scenes_from_starts(starts: &[usize], total: usize) -> (r: Vec<Scene>)
    ensures
        r@ == scenes_of(starts@, total),
{
    let n = starts.len();
    let mut r: Vec<Scene> = Vec::new();
    let mut i: usize = 0;
    while i < n
        invariant
            n == starts@.len(),
            i <= n,
            r@ == scenes_of(starts@, total).subrange(0, i as int),
        decreases n - i,
    {
        let e = if i + 1 < n {
            starts[i + 1]
        } else {
            total
        };
        r.push(Scene { s_frame: starts[i], e_frame: e });
        assert(scenes_of(starts@, total).subrange(0, i + 1) =~= scenes_of(starts@, total).subrange(
            0,
            i as int,
        ).push(scenes_of(starts@, total)[i as int]));
        i = i + 1;
    }
    assert(scenes_of(starts@, total).subrange(0, i as int) =~= scenes_of(starts@, total));
    r
}

/// The number a line of the scene list holds: its only token, read as a
/// decimal frame index.
pub open spec fn scene_line_value(t: Seq<u8>, line: (int, int)) -> Option<usize> {
    let toks = tokens_in(t, line.0, line.1);
    if toks.len() == 1 {
        match parse_uint_spec(t.subrange(toks[0].0, toks[0].1), usize::MAX as nat) {
            Some(v) => Some(v as usize),
            None => None,
        }
    } else {
        None
    }
}

/// The frame indices of the lines `ls` that hold one, in order.
pub open spec fn scene_values(t: Seq<u8>, ls: Seq<(int, int)>) -> Seq<usize>
    decreases ls.len(),
{
    if ls.len() == 0 {
        Seq::empty()
    } else {
        scene_values(t, ls.drop_last()) + match scene_line_value(t, ls.last()) {
            Some(v) => seq![v],
            None => Seq::empty(),
        }
    }
}

/// The frame indices a scene list holds, one per line, in file order;
/// lines that do not hold one number are skipped.
pub open spec fn scene_file_values(t: Seq<u8>) -> Seq<usize> {
    scene_values(t, lines_in(t, 0, t.len() as int))
}

fn scene_line(t: &[u8], a: usize, b: usize) -> (r: Option<usize>)
    requires
        a <= b <= t@.len(),
    ensures
        r == scene_line_value(t@, (a as int, b as int)),
{
    let toks = tokens(t, a, b);
    if toks.len() != 1 {
        return None;
    }
    let (s, e) = toks[0];
    proof {
        crate::text::lemma_tokens_in_bounds(t@, a as int, b as int);
    }
    match parse_uint(t, s, e, usize::MAX as u64) {
        Some(v) => Some(v as usize),
        None => None,
    }
}

/// The frame indices of the scene list `text`, one per line, in file order.
pub fn scene_file_frames(text: &[u8]) -> (r: Vec<usize>)
    ensures
        r@ == scene_file_values(text@),
{
    let ls = lines(text);
    let ghost spec_ls = lines_in(text@, 0, text@.len() as int);
    let mut r: Vec<usize> = Vec::new();
    let mut k: usize = 0;
    while k < ls.len()
        invariant
            ls@.len() == spec_ls.len(),
            spec_ls == lines_in(text@, 0, text@.len() as int),
            forall|j: int|
                0 <= j < ls@.len() ==> (ls@[j].0 as int, ls@[j].1 as int) == #[trigger] spec_ls[j],
            k <= ls@.len(),
            r@ == scene_values(text@, spec_ls.subrange(0, k as int)),
        decreases ls@.len() - k,
    {
        let (a, b) = ls[k];
        proof {
            crate::text::lemma_lines_in_bounds(text@, 0, text@.len() as int);
            assert(spec_ls[k as int] == (a as int, b as int));
            assert(spec_ls.subrange(0, k + 1).drop_last() =~= spec_ls.subrange(0, k as int));
        }
        match scene_line(text, a, b) {
            Some(v) => {
                r.push(v);
            },
            None => {},
        }
        assert(r@ =~= scene_values(text@, spec_ls.subrange(0, k + 1)));
        k = k + 1;
    }
    assert(spec_ls.subrange(0, k as int) =~= spec_ls);
    r
}

/// `r` are the scenes of the scene list `t`: one from each frame index it
/// holds, sorted, to the next, the last one ending at `total`.
pub open spec fn scenes_from_file(t: Seq<u8>, total: usize, r: Seq<Scene>) -> bool {
    let starts = r.map_values(|s: Scene| s.s_frame);
    &&& sorted(starts)
    &&& starts.to_multiset() == scene_file_values(t).to_multiset()
    &&& r == scenes_of(starts, total)
}

/// The scenes of the scene list `text` (frame indices one per line, in any
/// order): one scene from each index, sorted, to the next, the last one
/// ending at `total`.
pub fn parse_scenes(text: &[u8], total: usize) -> (r: Vec<Scene>)
    ensures
        scenes_from_file(text@, total, r@),
{
    let mut starts = scene_file_frames(text);
    sort_frames(&mut starts);
    let r = scenes_from_starts(starts.as_slice(), total);
    assert(r@.map_values(|s: Scene| s.s_frame) =~= starts@);
    r
}

/// Where a scene too long to encode in one piece may be split: `size`
/// frames after its start, for a size from `min_size` to `max_size`, best
/// near `middle`.
#[derive(Clone, Copy, Debug, PartialEq, Eq, Structural)]
pub struct SplitWindow {
    pub middle: usize,
    pub min_size: usize,
    pub max_size: usize,
}

/// The window for splitting `distance` frames into pieces of at most
/// `split_size`: the middle of the piece the fewest pieces would have,
/// and from half that to one and a half times that, capped at `split_size`.
pub fn split_window(distance: usize, split_size: usize) -> (r: SplitWindow)
    requires
        0 < split_size < distance,
    ensures
        r.middle == distance as int / (distance / split_size + 1),
        r.min_size == r.middle / 2,
        r.max_size == if split_size < r.middle + r.min_size {
            split_size as int
        } else {
            r.middle + r.min_size
        },
        r.min_size <= r.max_size <= split_size,
{
    let count = distance / split_size;
    proof {
        assert(count >= 1) by (nonlinear_arith)
            requires
                count == distance / split_size,
                split_size < distance,
                split_size > 0,
        ;
    }
    let middle = (distance as u128 / (count as u128 + 1)) as usize;
    proof {
        assert(middle * 2 <= distance) by (nonlinear_arith)
            requires
                middle == distance as int / (count + 1),
                count >= 1,
        ;
        assert(middle / 2 <= split_size) by (nonlinear_arith)
            requires
                middle == distance as int / (count + 1),
                count == distance / split_size,
                split_size > 0,
                count >= 1,
        ;
    }
    let min_size = middle / 2;
    let max_size = if split_size < middle + min_size {
        split_size
    } else {
        middle + min_size
    };
    SplitWindow { middle, min_size, max_size }
}

/// A scene that is empty or longer than the longest scene allowed.
#[derive(Clone, Copy, Debug, PartialEq, Eq, Structural)]
pub struct InvalidScene {
    /// Position of the first such scene.
    pub index: usize,
}

/// The longest scene allowed: ten seconds at the frame rate rounded to a
/// whole number, and never more than 300 frames.
pub open spec fn max_scene_len(fps_num: u32, fps_den: u32) -> int {
    let fps = (fps_num + fps_den / 2) / (fps_den as int);
    if 10 * fps < 300 {
        10 * fps
    } else {
        300
    }
}

/// The longest scene allowed at the frame rate `fps_num / fps_den`.
pub fn scene_len_cap(fps_num: u32, fps_den: u32) -> (r: u64)
    requires
        fps_den > 0,
    ensures
        r == max_scene_len(fps_num, fps_den),
{
    let fps = (fps_num as u64 + fps_den as u64 / 2) / fps_den as u64;
    if 10 * fps < 300 {
        10 * fps
    } else {
        300
    }
}

/// Frames in a scene; none when it ends before it starts.
pub open spec fn scene_len(s: Scene) -> int {
    if s.e_frame > s.s_frame {
        s.e_frame - s.s_frame
    } else {
        0
    }
}

pub open spec fn scene_ok(s: Scene, max_len: int) -> bool {
    0 < scene_len(s) <= max_len
}

/// Accepts the scenes when each is non-empty and no longer than
/// `max_scene_len`; else names the first that is not.
pub fn validate_scenes(scenes: &[Scene], fps_num: u32, fps_den: u32) -> (r: Result<(), InvalidScene>)
    requires
        fps_den > 0,
    ensures
        r is Ok <==> forall|i: int|
            0 <= i < scenes@.len() ==> scene_ok(#[trigger] scenes@[i], max_scene_len(fps_num, fps_den)),
        r matches Err(e) ==> e.index < scenes@.len() && !scene_ok(
            scenes@[e.index as int],
            max_scene_len(fps_num, fps_den),
        ) && forall|j: int|
            0 <= j < e.index ==> scene_ok(#[trigger] scenes@[j], max_scene_len(fps_num, fps_den)),
{
    let max_len = scene_len_cap(fps_num, fps_den);
    let mut i: usize = 0;
    while i < scenes.len()
        invariant
            i <= scenes@.len(),
            max_len == max_scene_len(fps_num, fps_den),
            forall|j: int|
                0 <= j < i ==> scene_ok(#[trigger] scenes@[j], max_scene_len(fps_num, fps_den)),
        decreases scenes@.len() - i,
    {
        let s = scenes[i];
        let len: u64 = if s.e_frame > s.s_frame {
            (s.e_frame - s.s_frame) as u64
        } else {
            0
        };
        if len == 0 || len > max_len {
            return Err(InvalidScene { index: i });
        }
        i = i + 1;
    }
    Ok(())
}

/// The record a line of the resume file holds: three decimal tokens,
/// chunk index, frame count and byte size.
pub open spec fn resume_line_value(t: Seq<u8>, line: (int, int)) -> Option<ChunkComp> {
    let toks = tokens_in(t, line.0, line.1);
    if toks.len() == 3 {
        match (
            parse_uint_spec(t.subrange(toks[0].0, toks[0].1), usize::MAX as nat),
            parse_uint_spec(t.subrange(toks[1].0, toks[1].1), usize::MAX as nat),
            parse_uint_spec(t.subrange(toks[2].0, toks[2].1), u64::MAX as nat),
        ) {
            (Some(idx), Some(frames), Some(size)) => Some(
                ChunkComp { idx: idx as usize, frames: frames as usize, size: size as u64 },
            ),
            _ => None,
        }
    } else {
        None
    }
}

/// The records of the lines `ls` that hold one, in order.
pub open spec fn resume_values(t: Seq<u8>, ls: Seq<(int, int)>) -> Seq<ChunkComp>
    decreases ls.len(),
{
    if ls.len() == 0 {
        Seq::empty()
    } else {
        resume_values(t, ls.drop_last()) + match resume_line_value(t, ls.last()) {
            Some(c) => seq![c],
            None => Seq::empty(),
        }
    }
}

/// The records a resume file holds, in file order; malformed lines are
/// skipped.
pub open spec fn resume_file_records(t: Seq<u8>) -> Seq<ChunkComp> {
    resume_values(t, lines_in(t, 0, t.len() as int))
}

fn resume_line(t: &[u8], a: usize, b: usize) -> (r: Option<ChunkComp>)
    requires
        a <= b <= t@.len(),
    ensures
        r == resume_line_value(t@, (a as int, b as int)),
{
    let toks = tokens(t, a, b);
    if toks.len() != 3 {
        return None;
    }
    proof {
        crate::text::lemma_tokens_in_bounds(t@, a as int, b as int);
    }
    let idx = parse_uint(t, toks[0].0, toks[0].1, usize::MAX as u64);
    let frames = parse_uint(t, toks[1].0, toks[1].1, usize::MAX as u64);
    let size = parse_uint(t, toks[2].0, toks[2].1, u64::MAX);
    match (idx, frames, size) {
        (Some(idx), Some(frames), Some(size)) => Some(
            ChunkComp { idx: idx as usize, frames: frames as usize, size },
        ),
        _ => None,
    }
}

/// Reads the resume file `text`: one record per well-formed line.
pub fn parse_resume(text: &[u8]) -> (r: ResumeInf)
    ensures
        r.chnks_done@ == resume_file_records(text@),
{
    let ls = lines(text);
    let ghost spec_ls = lines_in(text@, 0, text@.len() as int);
    let mut r: Vec<ChunkComp> = Vec::new();
    let mut k: usize = 0;
    while k < ls.len()
        invariant
            ls@.len() == spec_ls.len(),
            spec_ls == lines_in(text@, 0, text@.len() as int),
            forall|j: int|
                0 <= j < ls@.len() ==> (ls@[j].0 as int, ls@[j].1 as int) == #[trigger] spec_ls[j],
            k <= ls@.len(),
            r@ == resume_values(text@, spec_ls.subrange(0, k as int)),
        decreases ls@.len() - k,
    {
        let (a, b) = ls[k];
        proof {
            crate::text::lemma_lines_in_bounds(text@, 0, text@.len() as int);
            assert(spec_ls[k as int] == (a as int, b as int));
            assert(spec_ls.subrange(0, k + 1).drop_last() =~= spec_ls.subrange(0, k as int));
        }
        match resume_line(text, a, b) {
            Some(c) => {
                r.push(c);
            },
            None => {},
        }
        assert(r@ =~= resume_values(text@, spec_ls.subrange(0, k + 1)));
        k = k + 1;
    }
    assert(spec_ls.subrange(0, k as int) =~= spec_ls);
    ResumeInf { chnks_done: r }
}

/// One record of the resume file: `idx frames size` and a line feed.
pub open spec fn record_line(c: ChunkComp) -> Seq<u8> {
    decimal(c.idx as nat) + seq![0x20u8] + decimal(c.frames as nat) + seq![0x20u8] + decimal(
        c.size as nat,
    ) + seq![0x0au8]
}

/// The resume file for these records, one line each, in order.
pub open spec fn resume_text(cs: Seq<ChunkComp>) -> Seq<u8>
    decreases cs.len(),
{
    if cs.len() == 0 {
        Seq::empty()
    } else {
        resume_text(cs.drop_last()) + record_line(cs.last())
    }
}

/// The contents of the resume file for `data`.
pub fn format_resume(data: &ResumeInf) -> (r: Vec<u8>)
    ensures
        r@ == resume_text(data.chnks_done@),
{
    let cs = &data.chnks_done;
    let mut out: Vec<u8> = Vec::new();
    let mut k: usize = 0;
    while k < cs.len()
        invariant
            k <= cs@.len(),
            out@ == resume_text(cs@.subrange(0, k as int)),
        decreases cs@.len() - k,
    {
        let c = cs[k];
        push_decimal(&mut out, c.idx as u64);
        out.push(0x20u8);
        push_decimal(&mut out, c.frames as u64);
        out.push(0x20u8);
        push_decimal(&mut out, c.size);
        out.push(0x0au8);
        assert(cs@.subrange(0, k + 1).drop_last() =~= cs@.subrange(0, k as int));
        assert(out@ =~= resume_text(cs@.subrange(0, k + 1)));
        k = k + 1;
    }
    assert(cs@.subrange(0, k as int) =~= cs@);
    out
}

/// Whether `idx` is among the recorded chunks.
pub open spec fn is_done(done: Seq<ChunkComp>, idx: usize) -> bool {
    exists|i: int| 0 <= i < done.len() && (#[trigger] done[i]).idx == idx
}

/// The chunks not yet recorded as done, in order.
pub open spec fn pending_of(chunks: Seq<Chunk>, done: Seq<ChunkComp>) -> Seq<Chunk>
    decreases chunks.len(),
{
    if chunks.len() == 0 {
        Seq::empty()
    } else {
        pending_of(chunks.drop_last(), done) + if is_done(done, chunks.last().idx) {
            Seq::empty()
        } else {
            seq![chunks.last()]
        }
    }
}

fn chunk_done(done: &Vec<ChunkComp>, idx: usize) -> (r: bool)
    ensures
        r == is_done(done@, idx),
{
    let mut i: usize = 0;
    while i < done.len()
        invariant
            i <= done@.len(),
            forall|j: int| 0 <= j < i ==> (#[trigger] done@[j]).idx != idx,
        decreases done@.len() - i,
    {
        if done[i].idx == idx {
            return true;
        }
        i = i + 1;
    }
    false
}

/// Whether the resume state holds every chunk: the run is complete.
pub fn all_chunks_done(chunks: &[Chunk], resume: &ResumeInf) -> (r: bool)
    ensures
        r == forall|i: int| 0 <= i < chunks@.len() ==> is_done(resume.chnks_done@, #[trigger] chunks@[i].idx),
{
    let mut k: usize = 0;
    while k < chunks.len()
        invariant
            k <= chunks@.len(),
            forall|i: int| 0 <= i < k ==> is_done(resume.chnks_done@, #[trigger] chunks@[i].idx),
        decreases chunks@.len() - k,
    {
        if !chunk_done(&resume.chnks_done, chunks[k].idx) {
            return false;
        }
        k = k + 1;
    }
    true
}

/// The chunks still to encode: those the resume state does not hold.
pub fn pending_chunks(chunks: &[Chunk], resume: &ResumeInf) -> (r: Vec<Chunk>)
    ensures
        r@ == pending_of(chunks@, resume.chnks_done@),
{
    let mut r: Vec<Chunk> = Vec::new();
    let mut k: usize = 0;
    while k < chunks.len()
        invariant
            k <= chunks@.len(),
            r@ == pending_of(chunks@.subrange(0, k as int), resume.chnks_done@),
        decreases chunks@.len() - k,
    {
        let c = chunks[k];
        assert(chunks@.subrange(0, k + 1).drop_last() =~= chunks@.subrange(0, k as int));
        if !chunk_done(&resume.chnks_done, c.idx) {
            r.push(c);
        }
        assert(r@ =~= pending_of(chunks@.subrange(0, k + 1), resume.chnks_done@));
        k = k + 1;
    }
    assert(chunks@.subrange(0, k as int) =~= chunks@);
    r
}

/// A record line read back at offset `o` of `t` gives the record.
proof fn lemma_record_reads_back(t: Seq<u8>, o: int, c: ChunkComp)
    requires
        0 <= o,
        o + record_line(c).len() <= t.len(),
        t.subrange(o, o + record_line(c).len()) == record_line(c),
    ensures
        newline_at(t, o, t.len() as int) == o + record_line(c).len() - 1,
        resume_line_value(t, (o, o + record_line(c).len() - 1)) == Some(c),
{
    let d1 = decimal(c.idx as nat);
    let d2 = decimal(c.frames as nat);
    let d3 = decimal(c.size as nat);
    lemma_decimal_parses(c.idx as nat, usize::MAX as nat);
    lemma_decimal_parses(c.frames as nat, usize::MAX as nat);
    lemma_decimal_parses(c.size as nat, u64::MAX as nat);
    lemma_decimal_plain(c.idx as nat);
    lemma_decimal_plain(c.frames as nat);
    lemma_decimal_plain(c.size as nat);
    let a = o + d1.len();
    let b = a + 1 + d2.len();
    let e = b + 1 + d3.len();
    let r = record_line(c);
    assert(r.len() == d1.len() + d2.len() + d3.len() + 3);
    assert(e == o + r.len() - 1);
    assert forall|k: int| o <= k < a implies t[k] == #[trigger] d1[k - o] by {
        assert(t[k] == r[k - o]);
    }
    assert forall|k: int| a + 1 <= k < b implies t[k] == #[trigger] d2[k - a - 1] by {
        assert(t[k] == r[k - o]);
    }
    assert forall|k: int| b + 1 <= k < e implies t[k] == #[trigger] d3[k - b - 1] by {
        assert(t[k] == r[k - o]);
    }
    assert(t[a] == r[a - o]);
    assert(t[b] == r[b - o]);
    assert(t[e] == r[e - o]);
    assert(t[a] == 0x20u8 && t[b] == 0x20u8 && t[e] == 0x0au8);
    assert forall|k: int| o <= k < e implies #[trigger] t[k] != 0x0au8 by {
        if k < a {
            assert(t[k] == d1[k - o]);
        } else if a < k < b {
            assert(t[k] == d2[k - a - 1]);
        } else if b < k {
            assert(t[k] == d3[k - b - 1]);
        }
    }
    lemma_newline_at_is(t, o, e, t.len() as int);
    assert forall|k: int| o <= k < a implies !is_ws(#[trigger] t[k]) by {
        assert(t[k] == d1[k - o]);
    }
    assert forall|k: int| a + 1 <= k < b implies !is_ws(#[trigger] t[k]) by {
        assert(t[k] == d2[k - a - 1]);
    }
    assert forall|k: int| b + 1 <= k < e implies !is_ws(#[trigger] t[k]) by {
        assert(t[k] == d3[k - b - 1]);
    }
    lemma_token_end_is(t, o, a, e);
    lemma_token_end_is(t, a + 1, b, e);
    lemma_token_end_is(t, b + 1, e, e);
    assert(t[o] == r[0]);
    assert(t[a + 1] == r[a + 1 - o]);
    assert(t[b + 1] == r[b + 1 - o]);
    assert(r[0] == d1[0]);
    assert(r[a + 1 - o] == d2[0]);
    assert(r[b + 1 - o] == d3[0]);
    assert(skip_ws(t, o, e) == o);
    assert(skip_ws(t, a + 1, e) == a + 1);
    assert(skip_ws(t, a, e) == a + 1);
    assert(skip_ws(t, b + 1, e) == b + 1);
    assert(skip_ws(t, b, e) == b + 1);
    assert(tokens_in(t, e, e) =~= Seq::empty());
    assert(tokens_in(t, b, e) =~= seq![(b + 1, e)]);
    assert(tokens_in(t, a, e) =~= seq![(a + 1, b), (b + 1, e)]);
    assert(tokens_in(t, o, e) =~= seq![(o, a), (a + 1, b), (b + 1, e)]);
    assert(t.subrange(o, a) =~= d1);
    assert forall|k: int| 0 <= k < d2.len() implies #[trigger] t.subrange(a + 1, b)[k] == d2[k] by {
        assert(t[a + 1 + k] == r[a + 1 + k - o]);
    }
    assert(t.subrange(a + 1, b) =~= d2);
    assert forall|k: int| 0 <= k < d3.len() implies #[trigger] t.subrange(b + 1, e)[k] == d3[k] by {
        assert(t[b + 1 + k] == r[b + 1 + k - o]);
    }
    assert(t.subrange(b + 1, e) =~= d3);
}

/// Where record `k` starts in the resume file for `cs`.
pub open spec fn record_offset(cs: Seq<ChunkComp>, k: int) -> int {
    resume_text(cs.subrange(0, k)).len() as int
}

proof fn lemma_text_prefix(cs: Seq<ChunkComp>, k: int)
    requires
        0 <= k <= cs.len(),
    ensures
        resume_text(cs).subrange(0, record_offset(cs, k)) == resume_text(cs.subrange(0, k)),
        record_offset(cs, k) <= resume_text(cs).len(),
        k < cs.len() ==> record_offset(cs, k + 1) == record_offset(cs, k) + record_line(cs[k]).len(),
        k < cs.len() ==> resume_text(cs).subrange(record_offset(cs, k), record_offset(cs, k + 1))
            == record_line(cs[k]),
    decreases cs.len() - k,
{
    if k < cs.len() {
        lemma_text_prefix(cs, k + 1);
        let t = resume_text(cs);
        assert(cs.subrange(0, k + 1).drop_last() =~= cs.subrange(0, k));
        let p = resume_text(cs.subrange(0, k));
        let q = resume_text(cs.subrange(0, k + 1));
        assert(q == p + record_line(cs[k]));
        assert(t.subrange(0, record_offset(cs, k)) =~= q.subrange(0, p.len() as int));
        assert(t.subrange(record_offset(cs, k), record_offset(cs, k + 1)) =~= q.subrange(
            p.len() as int,
            q.len() as int,
        ));
    } else {
        assert(cs.subrange(0, k) =~= cs);
    }
}

proof fn lemma_resume_lines(cs: Seq<ChunkComp>, k: int)
    requires
        0 <= k <= cs.len(),
    ensures
        ({
            let t = resume_text(cs);
            lines_in(t, record_offset(cs, k), t.len() as int) == Seq::new(
                (cs.len() - k) as nat,
                |j: int| (record_offset(cs, k + j), record_offset(cs, k + j + 1) - 1),
            ) + seq![(t.len() as int, t.len() as int)]
        }),
    decreases cs.len() - k,
{
    let t = resume_text(cs);
    lemma_text_prefix(cs, k);
    if k < cs.len() {
        lemma_resume_lines(cs, k + 1);
        lemma_text_prefix(cs, k + 1);
        lemma_record_reads_back(t, record_offset(cs, k), cs[k]);
        let rest = lines_in(t, record_offset(cs, k + 1), t.len() as int);
        assert(lines_in(t, record_offset(cs, k), t.len() as int) == seq![
            (record_offset(cs, k), record_offset(cs, k + 1) - 1),
        ] + rest);
        assert(lines_in(t, record_offset(cs, k), t.len() as int) =~= Seq::new(
            (cs.len() - k) as nat,
            |j: int| (record_offset(cs, k + j), record_offset(cs, k + j + 1) - 1),
        ) + seq![(t.len() as int, t.len() as int)]);
    } else {
        assert(cs.subrange(0, k) =~= cs);
        assert(record_offset(cs, k) == t.len());
        assert(lines_in(t, t.len() as int, t.len() as int) == seq![(t.len() as int, t.len() as int)]);
        assert(Seq::new((cs.len() - k) as nat, |j: int| (record_offset(cs, k + j), record_offset(cs, k + j + 1) - 1)) =~= Seq::<(int, int)>::empty());
    }
}

/// Reading back the resume file written for some records gives the same
/// records, in the same order.
pub proof fn lemma_resume_reads_back(cs: Seq<ChunkComp>)
    ensures
        resume_file_records(resume_text(cs)) == cs,
{
    let t = resume_text(cs);
    let n = cs.len() as int;
    lemma_resume_lines(cs, 0);
    assert(cs.subrange(0, 0) =~= Seq::<ChunkComp>::empty());
    let ls = lines_in(t, 0, t.len() as int);
    assert forall|m: int| 0 <= m <= n implies resume_values(t, #[trigger] ls.subrange(0, m))
        == cs.subrange(0, m) by {
        lemma_values_prefix(cs, m);
    }
    assert(ls.subrange(0, n + 1).drop_last() =~= ls.subrange(0, n));
    assert(tokens_in(t, t.len() as int, t.len() as int) =~= Seq::empty());
    assert(ls.subrange(0, n + 1) =~= ls);
    assert(cs.subrange(0, n) =~= cs);
}

proof fn lemma_values_prefix(cs: Seq<ChunkComp>, m: int)
    requires
        0 <= m <= cs.len(),
    ensures
        resume_values(
            resume_text(cs),
            lines_in(resume_text(cs), 0, resume_text(cs).len() as int).subrange(0, m),
        ) == cs.subrange(0, m),
    decreases m,
{
    let t = resume_text(cs);
    let ls = lines_in(t, 0, t.len() as int);
    lemma_resume_lines(cs, 0);
    assert(cs.subrange(0, 0) =~= Seq::<ChunkComp>::empty());
    if m > 0 {
        lemma_values_prefix(cs, m - 1);
        assert(ls.subrange(0, m).drop_last() =~= ls.subrange(0, m - 1));
        lemma_text_prefix(cs, m - 1);
        lemma_text_prefix(cs, m);
        lemma_record_reads_back(t, record_offset(cs, m - 1), cs[m - 1]);
        assert(ls[m - 1] == (record_offset(cs, m - 1), record_offset(cs, m) - 1));
        assert(cs.subrange(0, m) =~= cs.subrange(0, m - 1).push(cs[m - 1]));
    } else {
        assert(ls.subrange(0, 0) =~= Seq::<(int, int)>::empty());
    }
}

/// Writing the resume file, reading it back and writing it again gives the
/// same bytes.
pub proof fn lemma_resume_rewrite_identical(cs: Seq<ChunkComp>)
    ensures
        resume_text(resume_file_records(resume_text(cs))) == resume_text(cs),
{
    lemma_resume_reads_back(cs);
}

} // verus!
