//! The integer content of the NIST SP 800-22 suite's final analysis
//! report: the `<passed>/<total>` proportions of its rows, summed.

use crate::text::{
    char_views, chars_of, copy_range, fields, leading, lemma_leading, lines_of, parse_u64,
    parsed_u64, split_fields, split_lines,
};
use vstd::prelude::*;

verus! {

/// What `str::parse::<usize>` gives for `tok`.
pub open spec fn parsed_usize(tok: Seq<char>) -> Option<nat> {
    match parsed_u64(tok) {
        Some(v) => if v <= usize::MAX {
            Some(v as nat)
        } else {
            None
        },
        None => None,
    }
}

/// Anything but a slash, as a predicate.
pub open spec fn not_slash() -> spec_fn(char) -> bool {
    |c: char| c != '/'
}

/// A `<passed>/<total>` proportion: the token split at its first `/`
/// into two unsigned integers, with a nonzero total no smaller than the
/// passed count.
pub open spec fn proportion(token: Seq<char>) -> Option<(nat, nat)> {
    let i = leading(token, not_slash()) as int;
    if i >= token.len() {
        None
    } else {
        match (parsed_usize(token.take(i)), parsed_usize(token.skip(i + 1))) {
            (Some(p), Some(t)) => if t > 0 && p <= t {
                Some((p, t))
            } else {
                None
            },
            _ => None,
        }
    }
}

/// Passed and total counts summed over the proportions among `tokens`,
/// and whether there was any.
pub open spec fn tally_tokens(tokens: Seq<Seq<char>>) -> (nat, nat, bool)
    decreases tokens.len(),
{
    if tokens.len() == 0 {
        (0, 0, false)
    } else {
        let (p, t, any) = tally_tokens(tokens.drop_last());
        match proportion(tokens.last()) {
            Some((a, b)) => (p + a, t + b, true),
            None => (p, t, any),
        }
    }
}

/// [`tally_tokens`] over the whitespace-separated tokens of every line.
pub open spec fn tally_lines(lines: Seq<Seq<char>>) -> (nat, nat, bool)
    decreases lines.len(),
{
    if lines.len() == 0 {
        (0, 0, false)
    } else {
        let (p, t, any) = tally_lines(lines.drop_last());
        let (p2, t2, any2) = tally_tokens(fields(lines.last()));
        (p + p2, t + t2, any || any2)
    }
}

/// The summed `(passed, total)` of an SP 800-22 final analysis report,
/// or `None` if it holds no proportion.
pub open spec fn sts_counts(report: Seq<char>) -> Option<(nat, nat)> {
    let (p, t, any) = tally_lines(lines_of(report));
    if any {
        Some((p, t))
    } else {
        None
    }
}

proof fn lemma_tally_tokens_bounded(tokens: Seq<Seq<char>>)
    ensures
        tally_tokens(tokens).0 <= tally_tokens(tokens).1,
    decreases tokens.len(),
{
    if tokens.len() > 0 {
        lemma_tally_tokens_bounded(tokens.drop_last());
    }
}

proof fn lemma_tally_lines_bounded(lines: Seq<Seq<char>>)
    ensures
        tally_lines(lines).0 <= tally_lines(lines).1,
    decreases lines.len(),
{
    if lines.len() > 0 {
        lemma_tally_lines_bounded(lines.drop_last());
        lemma_tally_tokens_bounded(fields(lines.last()));
    }
}

/// Parses a token as `str::parse::<usize>` does.
fn parse_usize(tok: &Vec<char>) -> (r: Option<usize>)
    ensures
        match r {
            Some(v) => parsed_usize(tok@) == Some(v as nat),
            None => parsed_usize(tok@) is None,
        },
{
    match parse_u64(tok) {
        Some(v) => if v <= usize::MAX as u64 {
            Some(v as usize)
        } else {
            None
        },
        None => None,
    }
}

/// Reads one token as a proportion.
fn read_proportion(token: &Vec<char>) -> (r: Option<(usize, usize)>)
    ensures
        match r {
            Some((p, t)) => proportion(token@) == Some((p as nat, t as nat)),
            None => proportion(token@) is None,
        },
{
    let n = token.len();
    let mut i: usize = 0;
    while i < n && token[i] != '/'
        invariant
            n == token@.len(),
            i <= n,
            forall|k: int| 0 <= k < i ==> not_slash()(#[trigger] token@[k]),
        decreases n - i,
    {
        i = i + 1;
    }
    proof {
        lemma_leading(token@, not_slash(), i as int);
    }
    if i >= n {
        return None;
    }
    let left = copy_range(token, 0, i);
    let right = copy_range(token, i + 1, n);
    proof {
        assert(left@ =~= token@.take(i as int));
        assert(right@ =~= token@.skip(i + 1));
    }
    match (parse_usize(&left), parse_usize(&right)) {
        (Some(p), Some(t)) => if t > 0 && p <= t {
            Some((p, t))
        } else {
            None
        },
        _ => None,
    }
}

/// Tallies the proportions of a report, or `None` if the sums do not
/// fit in `usize`.
#[verifier::rlimit(40)]
fn tally_report(report: &str) -> (r: Option<(usize, usize, bool)>)
    ensures
        match r {
            Some((p, t, any)) => tally_lines(lines_of(report@)) == (p as nat, t as nat, any),
            None => tally_lines(lines_of(report@)).1 > usize::MAX,
        },
{
    let chars = chars_of(report);
    let lines = split_lines(&chars);
    let ghost ls = char_views(lines@);
    let mut passed: usize = 0;
    let mut total: usize = 0;
    let mut any = false;
    let mut li: usize = 0;
    proof {
        assert(ls.take(0) =~= Seq::<Seq<char>>::empty());
    }
    while li < lines.len()
        invariant
            ls == char_views(lines@),
            ls == lines_of(report@),
            li <= lines@.len(),
            tally_lines(ls.take(li as int)) == (passed as nat, total as nat, any),
            passed <= total,
        decreases lines@.len() - li,
    {
        let tokens = split_fields(&lines[li]);
        let ghost ts = char_views(tokens@);
        let ghost before = (passed as nat, total as nat, any);
        proof {
            assert(ls.take(li + 1).drop_last() =~= ls.take(li as int));
            assert(ls.take(li + 1).last() == lines@[li as int]@);
            assert(ts.take(0) =~= Seq::<Seq<char>>::empty());
            lemma_tally_prefix(ls, li + 1);
        }
        let mut ti: usize = 0;
        while ti < tokens.len()
            invariant
                ts == char_views(tokens@),
                ts == fields(ls[li as int]),
                ls == lines_of(report@),
                li < ls.len(),
                tally_lines(ls.take(li + 1)) == ({
                    let (p2, t2, any2) = tally_tokens(ts);
                    (before.0 + p2, before.1 + t2, before.2 || any2)
                }),
                ti <= tokens@.len(),
                passed <= total,
                ({
                    let (p2, t2, any2) = tally_tokens(ts.take(ti as int));
                    (passed as nat, total as nat, any) == (before.0 + p2, before.1 + t2, before.2
                        || any2)
                }),
            decreases tokens@.len() - ti,
        {
            let prop = read_proportion(&tokens[ti]);
            proof {
                assert(ts.take(ti + 1).drop_last() =~= ts.take(ti as int));
                assert(ts.take(ti + 1).last() == tokens@[ti as int]@);
                lemma_tally_tokens_prefix(ts, ti + 1);
            }
            match prop {
                Some((p, t)) => {
                    proof {
                        let (p2, t2, any2) = tally_tokens(ts.take(ti + 1));
                        assert(t2 <= tally_tokens(ts).1);
                        assert(total + t == before.1 + t2);
                        lemma_tally_prefix(ls, li + 1);
                    }
                    match total.checked_add(t) {
                        Some(new_total) => {
                            passed = passed + p;
                            total = new_total;
                            any = true;
                        },
                        None => {
                            return None;
                        },
                    }
                },
                None => {},
            }
            ti = ti + 1;
        }
        proof {
            assert(ts.take(ts.len() as int) =~= ts);
        }
        li = li + 1;
    }
    proof {
        assert(ls.take(ls.len() as int) =~= ls);
    }
    Some((passed, total, any))
}

/// Sums the `<passed>/<total>` proportions of an SP 800-22 final
/// analysis report (each row ends with one, such as `10/10`), or `None`
/// if it holds none. The sums must fit in `usize`.
pub fn sts_pass_counts(report: &str) -> (r: Option<(usize, usize)>)
    requires
        tally_lines(lines_of(report@)).1 <= usize::MAX,
    ensures
        match r {
            Some((p, t)) => sts_counts(report@) == Some((p as nat, t as nat)),
            None => sts_counts(report@) is None,
        },
{
    match tally_report(report) {
        Some((p, t, true)) => Some((p, t)),
        _ => None,
    }
}

/// Whether the proportions of a report sum to counts that fit in
/// `usize`, as [`sts_pass_counts`] needs.
pub fn sts_counts_fit(report: &str) -> (r: bool)
    ensures
        r == (tally_lines(lines_of(report@)).1 <= usize::MAX),
{
    tally_report(report).is_some()
}

/// A prefix of the lines tallies no more than all of them.
proof fn lemma_tally_prefix(lines: Seq<Seq<char>>, k: int)
    requires
        0 <= k <= lines.len(),
    ensures
        tally_lines(lines.take(k)).1 <= tally_lines(lines).1,
        tally_lines(lines.take(k)).0 <= tally_lines(lines.take(k)).1,
    decreases lines.len() - k,
{
    lemma_tally_lines_bounded(lines.take(k));
    if k < lines.len() {
        lemma_tally_prefix(lines, k + 1);
        assert(lines.take(k + 1).drop_last() =~= lines.take(k));
    } else {
        assert(lines.take(k) =~= lines);
    }
}

/// A prefix of the tokens tallies no more than all of them.
proof fn lemma_tally_tokens_prefix(tokens: Seq<Seq<char>>, k: int)
    requires
        0 <= k <= tokens.len(),
    ensures
        tally_tokens(tokens.take(k)).1 <= tally_tokens(tokens).1,
        tally_tokens(tokens.take(k)).0 <= tally_tokens(tokens.take(k)).1,
    decreases tokens.len() - k,
{
    lemma_tally_tokens_bounded(tokens.take(k));
    if k < tokens.len() {
        lemma_tally_tokens_prefix(tokens, k + 1);
        assert(tokens.take(k + 1).drop_last() =~= tokens.take(k));
    } else {
        assert(tokens.take(k) =~= tokens);
    }
}

} // verus!
