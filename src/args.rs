use vstd::prelude::*;

verus! {

/// Where a left-to-right scan of a saved command line stands: the
/// arguments finished, the one being read, and whether a quote is open.
pub open spec fn scan_quoted(s: Seq<char>) -> (Seq<Seq<char>>, Seq<char>, bool)
    decreases s.len(),
{
    if s.len() == 0 {
        (Seq::empty(), Seq::empty(), false)
    } else {
        let (args, cur, in_quotes) = scan_quoted(s.drop_last());
        let ch = s.last();
        if ch == '"' {
            (args, cur, !in_quotes)
        } else if ch == ' ' && !in_quotes {
            if cur.len() > 0 {
                (args.push(cur), Seq::empty(), in_quotes)
            } else {
                (args, cur, in_quotes)
            }
        } else {
            (args, cur.push(ch), in_quotes)
        }
    }
}

/// The arguments of a saved command line: split at spaces outside double
/// quotes, quotes removed, empty arguments dropped.
pub open spec fn quoted_args(s: Seq<char>) -> Seq<Seq<char>> {
    let (args, cur, _) = scan_quoted(s);
    if cur.len() > 0 {
        args.push(cur)
    } else {
        args
    }
}

/// Relies on `String`'s `FromIterator<char>`: the string of these chars.
#[verifier::external_body]
fn string_of(chars: &Vec<char>) -> (r: String)
    ensures
        r@ == chars@,
{
    String::from_iter(chars.iter())
}

/// Splits a saved command line back into its arguments.
pub fn parse_quoted_args(cmd_line: &str) -> (r: Vec<String>)
    ensures
        r@.len() == quoted_args(cmd_line@).len(),
        forall|i: int| 0 <= i < r@.len() ==> #[trigger] r@[i]@ == quoted_args(cmd_line@)[i],
{
    let n = cmd_line.unicode_len();
    let mut args: Vec<String> = Vec::new();
    let mut current: Vec<char> = Vec::new();
    let mut in_quotes = false;
    let mut i: usize = 0;
    while i < n
        invariant
            n == cmd_line@.len(),
            i <= n,
            ({
                let (sa, sc, sq) = scan_quoted(cmd_line@.subrange(0, i as int));
                &&& args@.len() == sa.len()
                &&& forall|k: int| 0 <= k < args@.len() ==> #[trigger] args@[k]@ == sa[k]
                &&& current@ == sc
                &&& in_quotes == sq
            }),
        decreases n - i,
    {
        let ch = cmd_line.get_char(i);
        assert(cmd_line@.subrange(0, i + 1).drop_last() =~= cmd_line@.subrange(0, i as int));
        if ch == '"' {
            in_quotes = !in_quotes;
        } else if ch == ' ' && !in_quotes {
            if current.len() > 0 {
                let s = string_of(&current);
                args.push(s);
                current = Vec::new();
            }
        } else {
            current.push(ch);
        }
        i = i + 1;
    }
    assert(cmd_line@.subrange(0, i as int) =~= cmd_line@);
    if current.len() > 0 {
        let s = string_of(&current);
        args.push(s);
    }
    args
}

/// An argument as the saved command line writes it: in double quotes when
/// it holds a space.
pub open spec fn quoted(a: Seq<char>) -> Seq<char> {
    if a.contains(' ') {
        seq!['"'] + a + seq!['"']
    } else {
        a
    }
}

/// The saved command line: the arguments, each quoted when it holds a
/// space, joined by single spaces.
pub open spec fn joined(args: Seq<Seq<char>>) -> Seq<char>
    decreases args.len(),
{
    if args.len() == 0 {
        Seq::empty()
    } else if args.len() == 1 {
        quoted(args[0])
    } else {
        joined(args.drop_last()) + seq![' '] + quoted(args.last())
    }
}

fn has_space(s: &str) -> (r: bool)
    ensures
        r == s@.contains(' '),
{
    let n = s.unicode_len();
    let mut i: usize = 0;
    while i < n
        invariant
            n == s@.len(),
            i <= n,
            forall|k: int| 0 <= k < i ==> s@[k] != ' ',
        decreases n - i,
    {
        if s.get_char(i) == ' ' {
            return true;
        }
        i = i + 1;
    }
    false
}

/// Writes the command line to save for a later resume.
pub fn quote_args(args: &[String]) -> (r: String)
    ensures
        r@ == joined(args@.map_values(|a: String| a@)),
{
    let mut out = String::new();
    let mut k: usize = 0;
    while k < args.len()
        invariant
            k <= args@.len(),
            out@ == joined(args@.subrange(0, k as int).map_values(|a: String| a@)),
        decreases args@.len() - k,
    {
        let ghost before = args@.subrange(0, k as int).map_values(|a: String| a@);
        let ghost after = args@.subrange(0, k + 1).map_values(|a: String| a@);
        assert(after.drop_last() =~= before);
        if k > 0 {
            out.append(" ");
        }
        let a = args[k].as_str();
        if has_space(a) {
            out.append("\"");
            out.append(a);
            out.append("\"");
        } else {
            out.append(a);
        }
        proof {
            reveal_strlit(" ");
            reveal_strlit("\"");
        }
        assert(out@ =~= joined(after));
        k = k + 1;
    }
    assert(args@.subrange(0, k as int) =~= args@);
    out
}

} // verus!
