use vstd::prelude::*;

use crate::text::{parse_uint, parse_uint_spec};
use vstd::string::StringSliceAdditionalSpecFns;

verus! {

/// `t[i..]` starts with `pat`.
pub open spec fn matches_at(t: Seq<u8>, i: int, pat: Seq<u8>) -> bool {
    0 <= i && i + pat.len() <= t.len() && t.subrange(i, i + pat.len()) == pat
}

/// The first index from `i` where `pat` occurs in `t`.
pub open spec fn find_from(t: Seq<u8>, i: int, pat: Seq<u8>) -> Option<int>
    decreases t.len() + 1 - i,
{
    if i + pat.len() > t.len() || i < 0 {
        None
    } else if matches_at(t, i, pat) {
        Some(i)
    } else {
        find_from(t, i + 1, pat)
    }
}

/// `" Frames"` as bytes.
pub open spec fn frames_word() -> Seq<u8> {
    seq![0x20u8, 0x46u8, 0x72u8, 0x61u8, 0x6du8, 0x65u8, 0x73u8]
}

pub open spec fn is_count_byte(b: u8) -> bool {
    (0x30u8 <= b <= 0x39u8) || b == 0x2fu8
}

/// The start of the run of digits and `/` that ends at `p`.
pub open spec fn count_start(t: Seq<u8>, p: int) -> int
    decreases p,
{
    if p <= 0 {
        0
    } else if is_count_byte(t[p - 1]) {
        count_start(t, p - 1)
    } else {
        p
    }
}

/// The first `/` in `t[a..b]`, or `b`.
pub open spec fn slash_from(t: Seq<u8>, a: int, b: int) -> int
    decreases b - a,
{
    if a >= b {
        b
    } else if t[a] == 0x2fu8 {
        a
    } else {
        slash_from(t, a + 1, b)
    }
}

/// The frame counter of an encoder progress line: the number just before
/// the first `" Frames"`, or the numerator of an `N/M` there.
pub open spec fn frame_count_of(t: Seq<u8>) -> Option<usize> {
    match find_from(t, 0, frames_word()) {
        Some(p) => {
            let a = count_start(t, p);
            match parse_uint_spec(t.subrange(a, slash_from(t, a, p)), usize::MAX as nat) {
                Some(v) => Some(v as usize),
                None => None,
            }
        },
        None => None,
    }
}

fn matches_frames_word(t: &[u8], i: usize) -> (r: bool)
    requires
        i <= t@.len(),
    ensures
        r == matches_at(t@, i as int, frames_word()),
{
    if t.len() - i < 7 {
        return false;
    }
    let r = t[i] == 0x20u8 && t[i + 1] == 0x46u8 && t[i + 2] == 0x72u8 && t[i + 3] == 0x61u8 && t[i
        + 4] == 0x6du8 && t[i + 5] == 0x65u8 && t[i + 6] == 0x73u8;
    assert(r == (t@.subrange(i as int, i + 7) =~= frames_word()));
    r
}

proof fn lemma_count_start_bounds(t: Seq<u8>, p: int)
    requires
        0 <= p <= t.len(),
    ensures
        0 <= count_start(t, p) <= p,
    decreases p,
{
    if p > 0 && is_count_byte(t[p - 1]) {
        lemma_count_start_bounds(t, p - 1);
    }
}

proof fn lemma_slash_from_bounds(t: Seq<u8>, a: int, b: int)
    requires
        a <= b,
    ensures
        a <= slash_from(t, a, b) <= b,
    decreases b - a,
{
    if a < b && t[a] != 0x2fu8 {
        lemma_slash_from_bounds(t, a + 1, b);
    }
}

/// The frame counter an encoder progress line shows.
pub fn get_frame_cnt(line: &str) -> (r: Option<usize>)
    ensures
        r == frame_count_of(line.spec_bytes()),
{
    let t = line.as_bytes();
    let n = t.len();
    let mut i: usize = 0;
    let mut pos: Option<usize> = None;
    while i < n && pos.is_none()
        invariant
            n == t@.len(),
            i <= n,
            pos is None ==> find_from(t@, 0, frames_word()) == find_from(t@, i as int, frames_word()),
            pos matches Some(p) ==> find_from(t@, 0, frames_word()) == Some(p as int) && p + 7 <= n,
        decreases n - i + if pos is None {
            1int
        } else {
            0int
        },
    {
        if matches_frames_word(t, i) {
            pos = Some(i);
        } else {
            i = i + 1;
        }
    }
    let p = match pos {
        Some(p) => p,
        None => {
            return None;
        },
    };
    let mut a = p;
    while a > 0 && (t[a - 1] >= 0x30u8 && t[a - 1] <= 0x39u8 || t[a - 1] == 0x2fu8)
        invariant
            a <= p <= n,
            n == t@.len(),
            count_start(t@, a as int) == count_start(t@, p as int),
        decreases a,
    {
        a = a - 1;
    }
    let mut s = a;
    while s < p && t[s] != 0x2fu8
        invariant
            a <= s <= p,
            p <= n,
            n == t@.len(),
            slash_from(t@, s as int, p as int) == slash_from(t@, a as int, p as int),
        decreases p - s,
    {
        s = s + 1;
    }
    match parse_uint(t, a, s, usize::MAX as u64) {
        Some(v) => Some(v as usize),
        None => None,
    }
}

/// Filled cells of a progress bar `width` cells wide.
pub fn bar_cells(current: usize, tot: usize, width: usize) -> (r: usize)
    requires
        width <= 1000,
    ensures
        r == (if tot == 0 {
            0int
        } else {
            let f = (width as int) * (current as int) / (tot as int);
            if f < width {
                f
            } else {
                width as int
            }
        }),
{
    if tot == 0 {
        return 0;
    }
    let f = crate::plane::wide_mul(width as u64, current as u64) / (tot as u128);
    if f < width as u128 {
        f as usize
    } else {
        width
    }
}

} // verus!
