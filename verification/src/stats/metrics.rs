//! The `label: number` readings of the external tools' reports: the
//! first number `-?\d+(\.\d+)?` after a marker or a separator, found as a
//! token that the caller parses as a float.

use crate::text::{
    chars_of, decimal_token, find_decimal_token, find_pattern, find_seq, is_whitespace, leading,
    lemma_leading, lemma_trailing, line_bounds, bounded_views, lines_of, non_digit, starts_with,
    trailing, trim, trim_end, trim_start, utf8_len_exceeds, white,
};
use crate::report::{chars_less, lex_less, lemma_lex_less_total};
use crate::text::starts_with_from;
use vstd::prelude::*;
use vstd::utf8::encode_utf8;

verus! {

/// Labels longer than this many bytes are not labels.
pub const MAX_LABEL_BYTES: usize = 80;

/// The first number `-?\d+(\.\d+)?` in `text`, as its token: a minus
/// sign when one stands just before its digits, the integer digits, and
/// a point with the fraction digits when there are any.
pub open spec fn number_token(text: Seq<char>) -> Option<Seq<char>> {
    match decimal_token(text) {
        None => None,
        Some((int_digits, frac)) => {
            let a = leading(text, non_digit()) as int;
            let sign = if a > 0 && text[a - 1] == '-' {
                seq!['-']
            } else {
                Seq::<char>::empty()
            };
            let point = if frac.len() > 0 {
                seq!['.'] + frac
            } else {
                Seq::<char>::empty()
            };
            Some(sign + int_digits + point)
        },
    }
}

/// The bounds of the token of the first number in `s[from..to]`.
fn number_token_bounds(s: &Vec<char>, from: usize, to: usize) -> (r: Option<(usize, usize)>)
    requires
        from <= to <= s@.len(),
    ensures
        match r {
            None => number_token(s@.subrange(from as int, to as int)) is None,
            Some((a, b)) => from <= a <= b <= to && number_token(
                s@.subrange(from as int, to as int),
            ) == Some(s@.subrange(a as int, b as int)),
        },
{
    match find_decimal_token(s, from, to) {
        None => None,
        Some((a, b, c, d)) => {
            let start = if a > from && s[a - 1] == '-' {
                a - 1
            } else {
                a
            };
            let end = if c < d {
                d
            } else {
                b
            };
            proof {
                let text = s@.subrange(from as int, to as int);
                if a > from {
                    assert(text[a - from - 1] == s@[a - 1]);
                }
                let sign = if a > from && s@[a - 1] == '-' {
                    seq!['-']
                } else {
                    Seq::<char>::empty()
                };
                let frac = s@.subrange(c as int, d as int);
                let point = if frac.len() > 0 {
                    seq!['.'] + frac
                } else {
                    Seq::<char>::empty()
                };
                assert(s@.subrange(start as int, a as int) =~= sign);
                if c < d {
                    assert(s@.subrange(b as int, end as int) =~= point);
                } else {
                    assert(s@.subrange(b as int, end as int) =~= point);
                }
                assert(s@.subrange(start as int, end as int) =~= sign + s@.subrange(
                    a as int,
                    b as int,
                ) + point);
            }
            Some((start, end))
        },
    }
}

/// Finds the first number `-?\d+(\.\d+)?` in `text` and returns its
/// token, which always parses as a float.
pub fn first_number_token(text: &str) -> (r: Option<String>)
    ensures
        match r {
            Some(t) => number_token(text@) == Some(t@),
            None => number_token(text@) is None,
        },
{
    let chars = chars_of(text);
    let n = chars.len();
    assert(chars@.subrange(0, n as int) =~= text@);
    match number_token_bounds(&chars, 0, n) {
        None => None,
        Some((a, b)) => Some(text.substring_char(a, b).to_owned()),
    }
}

/// The first unsigned number `\d+(\.\d+)?` in `text`, as its token: the
/// integer digits, and a point with the fraction digits when there are
/// any.
pub open spec fn decimal_number_token(text: Seq<char>) -> Option<Seq<char>> {
    match decimal_token(text) {
        None => None,
        Some((int_digits, frac)) => Some(
            int_digits + if frac.len() > 0 {
                seq!['.'] + frac
            } else {
                Seq::<char>::empty()
            },
        ),
    }
}

/// Finds the first unsigned number `\d+(\.\d+)?` in `text` and returns
/// its token, which always parses as a float.
pub fn first_decimal_token(text: &str) -> (r: Option<String>)
    ensures
        match r {
            Some(t) => decimal_number_token(text@) == Some(t@),
            None => decimal_number_token(text@) is None,
        },
{
    let chars = chars_of(text);
    let n = chars.len();
    assert(chars@.subrange(0, n as int) =~= text@);
    match find_decimal_token(&chars, 0, n) {
        None => None,
        Some((a, b, c, d)) => {
            let end = if c < d {
                d
            } else {
                b
            };
            proof {
                let frac = chars@.subrange(c as int, d as int);
                let point = if frac.len() > 0 {
                    seq!['.'] + frac
                } else {
                    Seq::<char>::empty()
                };
                assert(chars@.subrange(b as int, end as int) =~= point);
                assert(chars@.subrange(a as int, end as int) =~= chars@.subrange(
                    a as int,
                    b as int,
                ) + point);
            }
            Some(text.substring_char(a, end).to_owned())
        },
    }
}

/// The first number after the first occurrence of `marker` in `text`.
pub open spec fn number_after(text: Seq<char>, marker: Seq<char>) -> Option<Seq<char>> {
    match find_seq(text, marker) {
        None => None,
        Some(i) => number_token(text.skip((i + marker.len()) as int)),
    }
}

/// Finds `marker` in `text` and returns the token of the first number
/// after it.
pub fn find_number_after(text: &str, marker: &str) -> (r: Option<String>)
    ensures
        match r {
            Some(t) => number_after(text@, marker@) == Some(t@),
            None => number_after(text@, marker@) is None,
        },
{
    let chars = chars_of(text);
    let pattern = chars_of(marker);
    match find_pattern(&chars, &pattern) {
        None => None,
        Some(i) => {
            assert(pattern@.len() <= chars@.skip(i as int).len());
            assert(chars@.skip(i as int).len() == chars@.len() - i);
            let n = chars.len();
            let from = i + pattern.len();
            assert(chars@.subrange(from as int, n as int) =~= text@.skip(from as int));
            match number_token_bounds(&chars, from, n) {
                None => None,
                Some((a, b)) => Some(text.substring_char(a, b).to_owned()),
            }
        },
    }
}

/// Anything but `sep`, as a predicate.
pub open spec fn other_than(sep: char) -> spec_fn(char) -> bool {
    |c: char| c != sep
}

/// What a line gives for the separator `sep`: `None` when the line lacks
/// `sep`, or when the text before its first `sep`, trimmed, is empty or
/// longer than `MAX_LABEL_BYTES` in UTF-8 (the next separator is then
/// tried); otherwise that label and the first number after the
/// separator, if there is one.
pub open spec fn labelled_at(line: Seq<char>, sep: char) -> Option<(Seq<char>, Option<Seq<char>>)> {
    let k = leading(line, other_than(sep)) as int;
    if k >= line.len() {
        None
    } else {
        let label = trim(line.take(k));
        if label.len() == 0 || encode_utf8(label).len() > MAX_LABEL_BYTES {
            None
        } else {
            Some((label, number_token(line.skip(k + 1))))
        }
    }
}

/// The `label: number` or `label = number` reading of one line, `:`
/// being tried first: the label and the token of its number.
pub open spec fn key_value(line: Seq<char>) -> Option<(Seq<char>, Seq<char>)> {
    let tried = match labelled_at(line, ':') {
        Some(x) => Some(x),
        None => labelled_at(line, '='),
    };
    match tried {
        Some((label, Some(token))) => Some((label, token)),
        _ => None,
    }
}

/// The readings of the lines that have one, in order.
pub open spec fn key_values(lines: Seq<Seq<char>>) -> Seq<(Seq<char>, Seq<char>)>
    decreases lines.len(),
{
    if lines.len() == 0 {
        Seq::empty()
    } else {
        key_values(lines.drop_last()) + match key_value(lines.last()) {
            Some(kv) => seq![kv],
            None => Seq::empty(),
        }
    }
}

/// The characters of each pair of strings.
pub open spec fn pair_views(v: Seq<(String, String)>) -> Seq<(Seq<char>, Seq<char>)> {
    v.map_values(|p: (String, String)| (p.0@, p.1@))
}

/// The position of the first `sep` in `s[a..e]`, or `e`.
fn scan_to(s: &Vec<char>, a: usize, e: usize, sep: char) -> (k: usize)
    requires
        a <= e <= s@.len(),
    ensures
        k == a + leading(s@.subrange(a as int, e as int), other_than(sep)),
        k <= e,
{
    let ghost line = s@.subrange(a as int, e as int);
    let ghost not_sep = other_than(sep);
    let mut k: usize = a;
    while k < e && s[k] != sep
        invariant
            a <= k <= e <= s@.len(),
            forall|i: int| a <= i < k ==> s@[i] != sep,
        decreases e - k,
    {
        k = k + 1;
    }
    proof {
        assert forall|i: int| 0 <= i < k - a implies not_sep(#[trigger] line[i]) by {
            assert(line[i] == s@[a + i]);
        }
        if k < e {
            assert(line[k - a] == s@[k as int]);
        }
        lemma_leading(line, not_sep, k - a);
    }
    k
}

/// The bounds of `s[a..k]` without its surrounding whitespace.
fn trimmed(s: &Vec<char>, a: usize, k: usize) -> (r: (usize, usize))
    requires
        a <= k <= s@.len(),
    ensures
        a <= r.0 <= r.1 <= k,
        trim(s@.subrange(a as int, k as int)) == s@.subrange(r.0 as int, r.1 as int),
{
    let mut st: usize = a;
    while st < k && is_whitespace(s[st])
        invariant
            a <= st <= k <= s@.len(),
            forall|i: int| a <= i < st ==> white()(#[trigger] s@[i]),
        decreases k - st,
    {
        st = st + 1;
    }
    let mut en: usize = k;
    while en > st && is_whitespace(s[en - 1])
        invariant
            a <= st <= en <= k <= s@.len(),
            forall|i: int| en <= i < k ==> white()(#[trigger] s@[i]),
        decreases en - st,
    {
        en = en - 1;
    }
    proof {
        let before = s@.subrange(a as int, k as int);
        assert forall|i: int| 0 <= i < st - a implies white()(#[trigger] before[i]) by {
            assert(before[i] == s@[a + i]);
        }
        if st < k {
            assert(before[st - a] == s@[st as int]);
        }
        lemma_leading(before, white(), st - a);
        let y = s@.subrange(st as int, k as int);
        assert(trim_start(before) =~= y);
        assert forall|i: int| y.len() - (k - en) <= i < y.len() implies white()(#[trigger] y[i]) by {
            assert(y[i] == s@[st + i]);
        }
        if en > st {
            assert(y[y.len() - (k - en) - 1] == s@[en - 1]);
        }
        lemma_trailing(y, white(), k - en);
        assert(trim_end(y) =~= s@.subrange(st as int, en as int));
    }
    (st, en)
}

/// [`labelled_at`] on the line `s[a..e]`, by bounds into `s`.
fn labelled_in(text: &str, s: &Vec<char>, a: usize, e: usize, sep: char) -> (r: Option<
    ((usize, usize), Option<(usize, usize)>),
>)
    requires
        s@ == text@,
        a <= e <= s@.len(),
    ensures
        match r {
            None => labelled_at(s@.subrange(a as int, e as int), sep) is None,
            Some(((ls, le), tok)) => a <= ls <= le <= e && labelled_at(
                s@.subrange(a as int, e as int),
                sep,
            ) == Some(
                (
                    s@.subrange(ls as int, le as int),
                    match tok {
                        Some((ts, te)) => Some(s@.subrange(ts as int, te as int)),
                        None => None,
                    },
                ),
            ) && (tok matches Some((ts, te)) ==> a <= ts <= te <= e),
        },
{
    let ghost line = s@.subrange(a as int, e as int);
    let k = scan_to(s, a, e, sep);
    if k >= e {
        return None;
    }
    let (st, en) = trimmed(s, a, k);
    proof {
        assert(line.take(k - a) =~= s@.subrange(a as int, k as int));
        assert(line.skip(k - a + 1) =~= s@.subrange(k + 1, e as int));
    }
    if st == en {
        return None;
    }
    if utf8_len_exceeds(s, st, en, MAX_LABEL_BYTES) {
        return None;
    }
    let tok = number_token_bounds(s, k + 1, e);
    Some(((st, en), tok))
}

/// [`key_value`] on the line `s[a..e]`.
fn key_value_in(text: &str, s: &Vec<char>, a: usize, e: usize) -> (r: Option<(String, String)>)
    requires
        s@ == text@,
        a <= e <= s@.len(),
    ensures
        match r {
            Some((label, token)) => key_value(s@.subrange(a as int, e as int)) == Some(
                (label@, token@),
            ),
            None => key_value(s@.subrange(a as int, e as int)) is None,
        },
{
    let tried = match labelled_in(text, s, a, e, ':') {
        Some(x) => Some(x),
        None => labelled_in(text, s, a, e, '='),
    };
    match tried {
        Some(((ls, le), Some((ts, te)))) => Some(
            (text.substring_char(ls, le).to_owned(), text.substring_char(ts, te).to_owned()),
        ),
        _ => None,
    }
}

/// Collects every `label: number` or `label = number` reading of
/// `text`, line by line: the trimmed label before the first `:` (or,
/// failing that, the first `=`) and the token of the first number after
/// it. A line whose label is empty or too long is read at its `=`, and a
/// line with no number after its separator gives nothing.
pub fn key_value_tokens(text: &str) -> (r: Vec<(String, String)>)
    ensures
        pair_views(r@) == key_values(lines_of(text@)),
{
    let chars = chars_of(text);
    let bounds = line_bounds(&chars);
    let ghost lines = bounded_views(chars@, bounds@);
    let mut r: Vec<(String, String)> = Vec::new();
    let mut i: usize = 0;
    assert(lines.take(0) =~= Seq::<Seq<char>>::empty());
    while i < bounds.len()
        invariant
            chars@ == text@,
            i <= bounds@.len(),
            forall|k: int| 0 <= k < bounds@.len() ==> (#[trigger] bounds@[k]).0 <= bounds@[k].1
                <= chars@.len(),
            lines == bounded_views(chars@, bounds@),
            pair_views(r@) == key_values(lines.take(i as int)),
        decreases bounds@.len() - i,
    {
        let (a, e) = bounds[i];
        let kv = key_value_in(text, &chars, a, e);
        proof {
            assert(lines.take(i + 1).drop_last() =~= lines.take(i as int));
            assert(lines.take(i + 1).last() == chars@.subrange(a as int, e as int));
        }
        match kv {
            Some(pair) => {
                let ghost before = pair_views(r@);
                r.push(pair);
                proof {
                    assert(pair_views(r@) =~= before + seq![(pair.0@, pair.1@)]);
                }
            },
            None => {
                assert(key_values(lines.take(i + 1)) =~= key_values(lines.take(i as int)));
            },
        }
        i = i + 1;
    }
    assert(lines.take(i as int) =~= lines);
    r
}

/// Among `labels`, the one that begins with `prefix` and comes last in
/// string order: the final `min(...)` line of an SP 800-90B report, whose
/// labels are read into a map sorted by label. `None` when no label
/// begins with `prefix`.
pub fn last_label_with_prefix(labels: &Vec<String>, prefix: &str) -> (r: Option<usize>)
    ensures
        match r {
            Some(i) => i < labels@.len() && starts_with(labels@[i as int]@, prefix@) && forall|
                j: int,
            |
                0 <= j < labels@.len() && starts_with(#[trigger] labels@[j]@, prefix@) ==> !lex_less(
                    labels@[i as int]@,
                    labels@[j]@,
                ),
            None => forall|j: int|
                0 <= j < labels@.len() ==> !starts_with(#[trigger] labels@[j]@, prefix@),
        },
{
    let pattern = chars_of(prefix);
    let mut best: Option<usize> = None;
    let mut best_chars: Vec<char> = Vec::new();
    let mut i: usize = 0;
    while i < labels.len()
        invariant
            i <= labels@.len(),
            pattern@ == prefix@,
            match best {
                Some(b) => b < i && starts_with(labels@[b as int]@, prefix@) && best_chars@
                    == labels@[b as int]@ && forall|j: int|
                    0 <= j < i && starts_with(#[trigger] labels@[j]@, prefix@) ==> !lex_less(
                        labels@[b as int]@,
                        labels@[j]@,
                    ),
                None => forall|j: int| 0 <= j < i ==> !starts_with(#[trigger] labels@[j]@, prefix@),
            },
        decreases labels@.len() - i,
    {
        let chars = chars_of(labels[i].as_str());
        assert(chars@.skip(0) =~= chars@);
        if starts_with_from(&chars, 0, &pattern) {
            let replace = match best {
                None => true,
                Some(_) => chars_less(&best_chars, &chars),
            };
            if replace {
                proof {
                    if let Some(b) = best {
                        assert forall|j: int|
                            0 <= j < i + 1 && starts_with(#[trigger] labels@[j]@, prefix@) implies !lex_less(
                            labels@[i as int]@,
                            labels@[j]@,
                        ) by {
                            crate::report::lemma_lex_less_irreflexive(labels@[i as int]@);
                            if j < i && lex_less(labels@[i as int]@, labels@[j]@) {
                                crate::report::lemma_lex_less_transitive(
                                    labels@[b as int]@,
                                    labels@[i as int]@,
                                    labels@[j]@,
                                );
                            }
                        }
                    } else {
                        assert forall|j: int|
                            0 <= j < i + 1 && starts_with(#[trigger] labels@[j]@, prefix@) implies !lex_less(
                            labels@[i as int]@,
                            labels@[j]@,
                        ) by {
                            crate::report::lemma_lex_less_irreflexive(labels@[i as int]@);
                        }
                    }
                }
                best = Some(i);
                best_chars = chars;
            } else {
                proof {
                    let b = best->0;
                    lemma_lex_less_total(labels@[b as int]@, labels@[i as int]@);
                    if lex_less(labels@[i as int]@, labels@[b as int]@) {
                        // The current best stays ahead of the new label.
                        crate::report::lemma_lex_less_irreflexive(labels@[b as int]@);
                        if lex_less(labels@[b as int]@, labels@[i as int]@) {
                            crate::report::lemma_lex_less_transitive(
                                labels@[b as int]@,
                                labels@[i as int]@,
                                labels@[b as int]@,
                            );
                        }
                    }
                }
            }
        }
        i = i + 1;
    }
    best
}

} // verus!
