use vstd::prelude::*;

verus! {

/// ASCII whitespace: space, tab, line feed, vertical tab, form feed,
/// carriage return.
pub open spec fn is_ws(b: u8) -> bool {
    b == 0x20u8 || b == 0x09u8 || b == 0x0au8 || b == 0x0bu8 || b == 0x0cu8 || b == 0x0du8
}

pub open spec fn is_digit(b: u8) -> bool {
    0x30u8 <= b <= 0x39u8
}

/// First index from `i` up to `end` of a line feed, or `end`.
pub open spec fn newline_at(t: Seq<u8>, i: int, end: int) -> int
    decreases end - i,
{
    if i >= end {
        end
    } else if t[i] == 0x0au8 {
        i
    } else {
        newline_at(t, i + 1, end)
    }
}

/// The lines of `t[i..end]` split at line feeds, as index ranges; a line
/// feed that ends the text is followed by an empty line.
pub open spec fn lines_in(t: Seq<u8>, i: int, end: int) -> Seq<(int, int)>
    decreases end + 1 - i,
    via lines_in_decreases
{
    if i > end {
        Seq::empty()
    } else {
        let e = newline_at(t, i, end);
        if e >= end {
            seq![(i, e)]
        } else {
            seq![(i, e)] + lines_in(t, e + 1, end)
        }
    }
}

#[via_fn]
proof fn lines_in_decreases(t: Seq<u8>, i: int, end: int) {
    if i <= end {
        lemma_newline_at_bounds(t, i, end);
    }
}

/// First index from `i` up to `end` that is not whitespace, or `end`.
pub open spec fn skip_ws(t: Seq<u8>, i: int, end: int) -> int
    decreases end - i,
{
    if i >= end {
        end
    } else if !is_ws(t[i]) {
        i
    } else {
        skip_ws(t, i + 1, end)
    }
}

/// First index from `i` up to `end` that is whitespace, or `end`.
pub open spec fn token_end(t: Seq<u8>, i: int, end: int) -> int
    decreases end - i,
{
    if i >= end {
        end
    } else if is_ws(t[i]) {
        i
    } else {
        token_end(t, i + 1, end)
    }
}

/// The whitespace-separated tokens of `t[i..end]`, as index ranges.
pub open spec fn tokens_in(t: Seq<u8>, i: int, end: int) -> Seq<(int, int)>
    decreases end - i,
    via tokens_in_decreases
{
    let s = skip_ws(t, i, end);
    if s >= end || i >= end {
        Seq::empty()
    } else {
        seq![(s, token_end(t, s, end))] + tokens_in(t, token_end(t, s, end), end)
    }
}

/// The value of a string of decimal digits.
pub open spec fn digits_value(s: Seq<u8>) -> nat
    decreases s.len(),
{
    if s.len() == 0 {
        0
    } else {
        digits_value(s.drop_last()) * 10 + (s.last() - 0x30u8) as nat
    }
}

/// A token without its leading `+`, if it has one.
pub open spec fn strip_plus(tok: Seq<u8>) -> Seq<u8> {
    if tok.len() > 0 && tok[0] == 0x2bu8 {
        tok.drop_first()
    } else {
        tok
    }
}

/// A decimal number no greater than `max`: an optional `+`, then one or
/// more digits.
pub open spec fn parse_uint_spec(tok: Seq<u8>, max: nat) -> Option<nat> {
    let d = strip_plus(tok);
    if d.len() > 0 && (forall|i: int| 0 <= i < d.len() ==> is_digit(#[trigger] d[i]))
        && digits_value(d) <= max {
        Some(digits_value(d))
    } else {
        None
    }
}

#[via_fn]
proof fn tokens_in_decreases(t: Seq<u8>, i: int, end: int) {
    if i < end {
        lemma_skip_ws_bounds(t, i, end);
        let s = skip_ws(t, i, end);
        if s < end {
            lemma_token_end_bounds(t, s, end);
            assert(token_end(t, s, end) == token_end(t, s + 1, end));
            lemma_token_end_bounds(t, s + 1, end);
        }
    }
}

proof fn lemma_skip_ws_bounds(t: Seq<u8>, i: int, end: int)
    requires
        i <= end,
    ensures
        i <= skip_ws(t, i, end) <= end,
        skip_ws(t, i, end) < end ==> !is_ws(t[skip_ws(t, i, end)]),
        forall|k: int| i <= k < skip_ws(t, i, end) ==> is_ws(#[trigger] t[k]),
    decreases end - i,
{
    if i < end && is_ws(t[i]) {
        lemma_skip_ws_bounds(t, i + 1, end);
    }
}

proof fn lemma_token_end_bounds(t: Seq<u8>, i: int, end: int)
    requires
        i <= end,
    ensures
        i <= token_end(t, i, end) <= end,
        token_end(t, i, end) < end ==> is_ws(t[token_end(t, i, end)]),
        forall|k: int| i <= k < token_end(t, i, end) ==> !is_ws(#[trigger] t[k]),
    decreases end - i,
{
    if i < end && !is_ws(t[i]) {
        lemma_token_end_bounds(t, i + 1, end);
    }
}

proof fn lemma_newline_at_bounds(t: Seq<u8>, i: int, end: int)
    requires
        i <= end,
    ensures
        i <= newline_at(t, i, end) <= end,
        newline_at(t, i, end) < end ==> t[newline_at(t, i, end)] == 0x0au8,
        forall|k: int| i <= k < newline_at(t, i, end) ==> #[trigger] t[k] != 0x0au8,
    decreases end - i,
{
    if i < end && t[i] != 0x0au8 {
        lemma_newline_at_bounds(t, i + 1, end);
    }
}

/// Every token range of `t[i..end]` is ordered and inside it.
pub proof fn lemma_tokens_in_bounds(t: Seq<u8>, i: int, end: int)
    requires
        0 <= i <= end,
    ensures
        forall|k: int|
            0 <= k < tokens_in(t, i, end).len() ==> i <= (#[trigger] tokens_in(t, i, end)[k]).0 <= tokens_in(
                t,
                i,
                end,
            )[k].1 <= end,
    decreases end - i,
{
    lemma_skip_ws_bounds(t, i, end);
    let s = skip_ws(t, i, end);
    if s < end && i < end {
        lemma_token_end_bounds(t, s, end);
        assert(token_end(t, s, end) == token_end(t, s + 1, end));
        lemma_token_end_bounds(t, s + 1, end);
        lemma_tokens_in_bounds(t, token_end(t, s, end), end);
        let rest = tokens_in(t, token_end(t, s, end), end);
        assert forall|k: int| 0 <= k < tokens_in(t, i, end).len() implies i <= (
        #[trigger] tokens_in(t, i, end)[k]).0 <= tokens_in(t, i, end)[k].1 <= end by {
            if k > 0 {
                assert(tokens_in(t, i, end)[k] == rest[k - 1]);
            }
        }
    }
}

/// Every line range of `t[i..end]` is ordered and inside it.
pub proof fn lemma_lines_in_bounds(t: Seq<u8>, i: int, end: int)
    requires
        0 <= i,
    ensures
        forall|k: int|
            0 <= k < lines_in(t, i, end).len() ==> i <= (#[trigger] lines_in(t, i, end)[k]).0 <= lines_in(
                t,
                i,
                end,
            )[k].1 <= end,
    decreases end + 1 - i,
{
    if i <= end {
        lemma_newline_at_bounds(t, i, end);
        let e = newline_at(t, i, end);
        if e < end {
            lemma_lines_in_bounds(t, e + 1, end);
            let rest = lines_in(t, e + 1, end);
            assert forall|k: int| 0 <= k < lines_in(t, i, end).len() implies i <= (
            #[trigger] lines_in(t, i, end)[k]).0 <= lines_in(t, i, end)[k].1 <= end by {
                if k > 0 {
                    assert(lines_in(t, i, end)[k] == rest[k - 1]);
                }
            }
        }
    }
}

/// The index of the first line feed at or after `i`, or `t.len()`.
pub fn find_newline(t: &[u8], i: usize) -> (r: usize)
    requires
        i <= t@.len(),
    ensures
        r == newline_at(t@, i as int, t@.len() as int),
{
    let end = t.len();
    let mut k = i;
    while k < end
        invariant
            i <= k <= end,
            end == t@.len(),
            newline_at(t@, k as int, end as int) == newline_at(t@, i as int, end as int),
        decreases end - k,
    {
        if t[k] == 0x0au8 {
            return k;
        }
        k = k + 1;
    }
    k
}

/// The whitespace-separated tokens of `t[i..end]`, as index ranges.
pub fn tokens(t: &[u8], i: usize, end: usize) -> (r: Vec<(usize, usize)>)
    requires
        i <= end <= t@.len(),
    ensures
        r@.len() == tokens_in(t@, i as int, end as int).len(),
        forall|k: int|
            0 <= k < r@.len() ==> (r@[k].0 as int, r@[k].1 as int) == #[trigger] tokens_in(
                t@,
                i as int,
                end as int,
            )[k],
{
    let mut r: Vec<(usize, usize)> = Vec::new();
    let mut p = i;
    while p < end
        invariant
            i <= p <= end <= t@.len(),
            tokens_in(t@, i as int, end as int) == r@.map_values(|x: (usize, usize)| (x.0 as int, x.1 as int))
                + tokens_in(t@, p as int, end as int),
        decreases end - p,
    {
        let mut s = p;
        while s < end && is_ws_byte(t[s])
            invariant
                p <= s <= end <= t@.len(),
                skip_ws(t@, s as int, end as int) == skip_ws(t@, p as int, end as int),
            decreases end - s,
        {
            s = s + 1;
        }
        if s >= end {
            proof {
                assert(tokens_in(t@, p as int, end as int) =~= Seq::empty());
                assert(tokens_in(t@, end as int, end as int) =~= Seq::empty());
                assert(tokens_in(t@, i as int, end as int) =~= r@.map_values(
                    |x: (usize, usize)| (x.0 as int, x.1 as int),
                ) + tokens_in(t@, end as int, end as int));
            }
            p = end;
        } else {
        let mut e = s;
        while e < end && !is_ws_byte(t[e])
            invariant
                s <= e <= end <= t@.len(),
                token_end(t@, e as int, end as int) == token_end(t@, s as int, end as int),
            decreases end - e,
        {
            e = e + 1;
        }
        proof {
            lemma_skip_ws_bounds(t@, p as int, end as int);
            assert(tokens_in(t@, p as int, end as int) == seq![(s as int, e as int)] + tokens_in(
                t@,
                e as int,
                end as int,
            ));
        }
        let ghost prev = r@;
        r.push((s, e));
        proof {
            assert(r@.map_values(|x: (usize, usize)| (x.0 as int, x.1 as int)) =~= prev.map_values(
                |x: (usize, usize)| (x.0 as int, x.1 as int),
            ).push((s as int, e as int)));
            assert(tokens_in(t@, i as int, end as int) =~= r@.map_values(
                |x: (usize, usize)| (x.0 as int, x.1 as int),
            ) + tokens_in(t@, e as int, end as int));
        }
        p = e;
        }
    }
    proof {
        assert(tokens_in(t@, p as int, end as int) =~= Seq::empty());
        assert(tokens_in(t@, i as int, end as int) =~= r@.map_values(
            |x: (usize, usize)| (x.0 as int, x.1 as int),
        ));
    }
    r
}

pub fn is_ws_byte(b: u8) -> (r: bool)
    ensures
        r == is_ws(b),
{
    b == 0x20u8 || b == 0x09u8 || b == 0x0au8 || b == 0x0bu8 || b == 0x0cu8 || b == 0x0du8
}

proof fn lemma_digits_prefix(s: Seq<u8>, j: int)
    requires
        0 <= j <= s.len(),
    ensures
        digits_value(s.subrange(0, j)) <= digits_value(s),
    decreases s.len() - j,
{
    if j < s.len() {
        lemma_digits_prefix(s, j + 1);
        assert(s.subrange(0, j + 1).drop_last() =~= s.subrange(0, j));
    } else {
        assert(s.subrange(0, j) =~= s);
    }
}

/// The decimal number `t[a..b]` (an optional `+`, then digits), if it is no
/// greater than `max`.
pub fn parse_uint(t: &[u8], a: usize, b: usize, max: u64) -> (r: Option<u64>)
    requires
        a <= b <= t@.len(),
    ensures
        match r {
            Some(v) => parse_uint_spec(t@.subrange(a as int, b as int), max as nat) == Some(v as nat),
            None => parse_uint_spec(t@.subrange(a as int, b as int), max as nat) is None,
        },
{
    let ghost tok = t@.subrange(a as int, b as int);
    let mut d = a;
    if d < b && t[d] == 0x2bu8 {
        d = d + 1;
    }
    let ghost digits = t@.subrange(d as int, b as int);
    assert(digits =~= strip_plus(tok));
    if d >= b {
        return None;
    }
    let mut v: u64 = 0;
    let mut k = d;
    while k < b
        invariant
            a <= d < b <= t@.len(),
            d <= k <= b,
            digits == t@.subrange(d as int, b as int),
            digits == strip_plus(tok),
            tok == t@.subrange(a as int, b as int),
            v as nat == digits_value(t@.subrange(d as int, k as int)),
            v <= max,
            forall|i: int| d <= i < k ==> is_digit(#[trigger] t@[i]),
        decreases b - k,
    {
        let c = t[k];
        if c < 0x30u8 || c > 0x39u8 {
            assert(!is_digit(digits[k - d]));
            assert(!(forall|i: int| 0 <= i < digits.len() ==> is_digit(#[trigger] digits[i])));
            assert(parse_uint_spec(tok, max as nat) is None);
            return None;
        }
        let dig = (c - 0x30u8) as u64;
        assert(t@.subrange(d as int, k + 1).drop_last() =~= t@.subrange(d as int, k as int));
        if dig > max || v > (max - dig) / 10 {
            proof {
                assert(digits.subrange(0, k + 1 - d) =~= t@.subrange(d as int, k + 1));
                lemma_digits_prefix(digits, k + 1 - d);
                assert(digits_value(digits) > max);
                assert(parse_uint_spec(tok, max as nat) is None);
            }
            return None;
        }
        v = v * 10 + dig;
        k = k + 1;
    }
    assert(t@.subrange(d as int, b as int) =~= digits);
    Some(v)
}

/// The decimal digits of `n`, most significant first, without leading
/// zeros.
pub open spec fn decimal(n: nat) -> Seq<u8>
    decreases n,
{
    if n < 10 {
        seq![(0x30 + n) as u8]
    } else {
        decimal(n / 10).push((0x30 + n % 10) as u8)
    }
}

/// Appends the decimal digits of `n`.
pub fn push_decimal(out: &mut Vec<u8>, n: u64)
    ensures
        final(out)@ == old(out)@ + decimal(n as nat),
    decreases n,
{
    if n >= 10 {
        push_decimal(out, n / 10);
    }
    out.push((0x30u64 + n % 10) as u8);
    assert(out@ =~= old(out)@ + decimal(n as nat));
}

/// The digits of `n` read back as a number give `n`.
pub proof fn lemma_decimal_parses(n: nat, max: nat)
    requires
        n <= max,
    ensures
        parse_uint_spec(decimal(n), max) == Some(n),
        digits_value(decimal(n)) == n,
        strip_plus(decimal(n)) == decimal(n),
        decimal(n).len() > 0,
        forall|i: int| 0 <= i < decimal(n).len() ==> is_digit(#[trigger] decimal(n)[i]),
    decreases n,
{
    if n >= 10 {
        lemma_decimal_parses(n / 10, max);
        assert(decimal(n).drop_last() =~= decimal(n / 10));
        assert forall|i: int| 0 <= i < decimal(n).len() implies is_digit(#[trigger] decimal(n)[i]) by {
            if i < decimal(n).len() - 1 {
                assert(decimal(n)[i] == decimal(n / 10)[i]);
            }
        }
    } else {
        assert(decimal(n).drop_last() =~= Seq::<u8>::empty());
        assert(digits_value(Seq::<u8>::empty()) == 0);
    }
}

/// The lines of `t`, as index ranges.
pub fn lines(t: &[u8]) -> (r: Vec<(usize, usize)>)
    ensures
        r@.len() == lines_in(t@, 0, t@.len() as int).len(),
        forall|k: int|
            0 <= k < r@.len() ==> (r@[k].0 as int, r@[k].1 as int) == #[trigger] lines_in(
                t@,
                0,
                t@.len() as int,
            )[k],
{
    let end = t.len();
    let mut r: Vec<(usize, usize)> = Vec::new();
    let mut p: usize = 0;
    let mut done = false;
    while !done
        invariant
            done ==> p < end + 1,
            p <= end,
            end == t@.len(),
            !done ==> lines_in(t@, 0, end as int) == r@.map_values(
                |x: (usize, usize)| (x.0 as int, x.1 as int),
            ) + lines_in(t@, p as int, end as int),
            done ==> lines_in(t@, 0, end as int) == r@.map_values(
                |x: (usize, usize)| (x.0 as int, x.1 as int),
            ),
        decreases end + 1 - p + if done {
            0int
        } else {
            1int
        },
    {
        let e = find_newline(t, p);
        proof {
            lemma_newline_at_bounds(t@, p as int, end as int);
        }
        let ghost prev = r@;
        r.push((p, e));
        assert(r@.map_values(|x: (usize, usize)| (x.0 as int, x.1 as int)) =~= prev.map_values(
            |x: (usize, usize)| (x.0 as int, x.1 as int),
        ).push((p as int, e as int)));
        if e >= end {
            assert(lines_in(t@, p as int, end as int) == seq![(p as int, e as int)]);
            assert(lines_in(t@, 0, end as int) =~= r@.map_values(
                |x: (usize, usize)| (x.0 as int, x.1 as int),
            ));
            done = true;
        } else {
            assert(lines_in(t@, 0, end as int) =~= r@.map_values(
                |x: (usize, usize)| (x.0 as int, x.1 as int),
            ) + lines_in(t@, e + 1, end as int));
            p = e + 1;
        }
    }
    r
}

/// `newline_at` stops at the first line feed: none in `t[i..j]`, and `j`
/// holds one or is `end`.
pub proof fn lemma_newline_at_is(t: Seq<u8>, i: int, j: int, end: int)
    requires
        i <= j <= end,
        forall|k: int| i <= k < j ==> #[trigger] t[k] != 0x0au8,
        j == end || t[j] == 0x0au8,
    ensures
        newline_at(t, i, end) == j,
    decreases j - i,
{
    if i < j {
        lemma_newline_at_is(t, i + 1, j, end);
    }
}

/// `token_end` stops at the first whitespace: none in `t[i..j]`, and `j`
/// holds some or is `end`.
pub proof fn lemma_token_end_is(t: Seq<u8>, i: int, j: int, end: int)
    requires
        i <= j <= end,
        forall|k: int| i <= k < j ==> !is_ws(#[trigger] t[k]),
        j == end || is_ws(t[j]),
    ensures
        token_end(t, i, end) == j,
    decreases j - i,
{
    if i < j {
        lemma_token_end_is(t, i + 1, j, end);
    }
}

/// Digits are neither whitespace nor line feeds.
pub proof fn lemma_decimal_plain(n: nat)
    ensures
        forall|i: int|
            0 <= i < decimal(n).len() ==> !is_ws(#[trigger] decimal(n)[i]) && decimal(n)[i] != 0x0au8,
{
    lemma_decimal_parses(n, n);
}

} // verus!
