//! Character-level text scanning shared by the tool-output parsers: line
//! splitting, Unicode whitespace, trimming, fields and decimal integers.

use vstd::prelude::*;
use vstd::std_specs::iter::IteratorSpec;

verus! {

broadcast use {vstd::string::axiom_spec_iter, vstd::string::next_postcondition};

/// The characters of `s`, in order.
pub fn chars_of(s: &str) -> (r: Vec<char>)
    ensures
        r@ == s@,
{
    let mut it = s.chars();
    let mut r: Vec<char> = Vec::new();
    loop
        invariant
            r@ + it.remaining() == s@,
            it.decrease() is Some,
        ensures
            r@ == s@,
        decreases it.decrease()->0,
    {
        match it.next() {
            Some(c) => {
                r.push(c);
            },
            None => {
                assert(r@ + it.remaining() =~= r@);
                break;
            },
        }
    }
    r
}

/// The characters of each string.
pub open spec fn string_views(v: Seq<String>) -> Seq<Seq<char>> {
    v.map_values(|s: String| s@)
}

/// Whether two strings hold the same characters.
pub(crate) fn str_equal(a: &str, b: &str) -> (r: bool)
    ensures
        r == (a@ == b@),
{
    let x = chars_of(a);
    let y = chars_of(b);
    if x.len() != y.len() {
        return false;
    }
    let mut i: usize = 0;
    while i < x.len()
        invariant
            x@ == a@,
            y@ == b@,
            x@.len() == y@.len(),
            i <= x@.len(),
            forall|j: int| 0 <= j < i ==> x@[j] == y@[j],
        decreases x@.len() - i,
    {
        if x[i] != y[i] {
            assert(x@[i as int] != y@[i as int]);
            return false;
        }
        i = i + 1;
    }
    assert(x@ =~= y@);
    true
}

/// Whether `c` has the Unicode `White_Space` property, as
/// `char::is_whitespace` tests.
pub open spec fn is_white_space(c: char) -> bool {
    let u = c as u32;
    ||| 0x09 <= u <= 0x0D
    ||| u == 0x20
    ||| u == 0x85
    ||| u == 0xA0
    ||| u == 0x1680
    ||| 0x2000 <= u <= 0x200A
    ||| u == 0x2028
    ||| u == 0x2029
    ||| u == 0x202F
    ||| u == 0x205F
    ||| u == 0x3000
}

/// Whether `c` has the Unicode `White_Space` property.
pub fn is_whitespace(c: char) -> (r: bool)
    ensures
        r == is_white_space(c),
{
    let u = c as u32;
    (0x09 <= u && u <= 0x0D) || u == 0x20 || u == 0x85 || u == 0xA0 || u == 0x1680 || (0x2000
        <= u && u <= 0x200A) || u == 0x2028 || u == 0x2029 || u == 0x202F || u == 0x205F || u
        == 0x3000
}

/// Whether `c` is an ASCII decimal digit.
pub open spec fn is_digit(c: char) -> bool {
    '0' <= c <= '9'
}

/// The number of leading items of `s` that satisfy `p`.
pub open spec fn leading<T>(s: Seq<T>, p: spec_fn(T) -> bool) -> nat
    decreases s.len(),
{
    if s.len() > 0 && p(s[0]) {
        1 + leading(s.drop_first(), p)
    } else {
        0
    }
}

/// The leading run is as long as the characters satisfying `p` last.
pub proof fn lemma_leading<T>(s: Seq<T>, p: spec_fn(T) -> bool, m: int)
    requires
        0 <= m <= s.len(),
        forall|k: int| 0 <= k < m ==> p(#[trigger] s[k]),
        m == s.len() || !p(s[m]),
    ensures
        leading(s, p) == m,
    decreases m,
{
    if m > 0 {
        let t = s.drop_first();
        assert forall|k: int| 0 <= k < m - 1 implies p(#[trigger] t[k]) by {
            assert(t[k] == s[k + 1]);
        }
        if m < s.len() {
            assert(t[m - 1] == s[m]);
        }
        lemma_leading(t, p, m - 1);
    }
}

/// The leading run of `s` under `p`, and what stops it.
pub proof fn lemma_leading_bounds<T>(s: Seq<T>, p: spec_fn(T) -> bool)
    ensures
        leading(s, p) <= s.len(),
        forall|k: int| 0 <= k < leading(s, p) ==> p(#[trigger] s[k]),
        leading(s, p) < s.len() ==> !p(s[leading(s, p) as int]),
    decreases s.len(),
{
    if s.len() > 0 && p(s[0]) {
        let t = s.drop_first();
        lemma_leading_bounds(t, p);
        assert forall|k: int| 0 <= k < leading(s, p) implies p(#[trigger] s[k]) by {
            if k > 0 {
                assert(s[k] == t[k - 1]);
            }
        }
        if leading(s, p) < s.len() {
            assert(s[leading(s, p) as int] == t[leading(t, p) as int]);
        }
    }
}

/// `s` without a final carriage return.
pub open spec fn strip_cr(s: Seq<char>) -> Seq<char> {
    if s.len() > 0 && s.last() == '\r' {
        s.drop_last()
    } else {
        s
    }
}

/// The lines of `s`, as `str::lines` yields them: split at each `'\n'`,
/// with a `'\r'` just before the `'\n'` removed; a final line ending is
/// optional, and a final `'\r'` without `'\n'` stays.
pub open spec fn lines_of(s: Seq<char>) -> Seq<Seq<char>>
    decreases s.len(),
{
    if s.len() == 0 {
        Seq::empty()
    } else {
        let i = leading(s, |c: char| c != '\n') as int;
        if i < s.len() {
            proof {
                lemma_leading_bounds(s, |c: char| c != '\n');
            }
            seq![strip_cr(s.take(i))] + lines_of(s.skip(i + 1))
        } else {
            seq![s]
        }
    }
}

/// The characters of each vector.
pub open spec fn char_views(v: Seq<Vec<char>>) -> Seq<Seq<char>> {
    v.map_values(|l: Vec<char>| l@)
}

/// Copies `s[from..to]`.
pub fn copy_range(s: &Vec<char>, from: usize, to: usize) -> (r: Vec<char>)
    requires
        from <= to <= s@.len(),
    ensures
        r@ == s@.subrange(from as int, to as int),
{
    let mut r: Vec<char> = Vec::new();
    let mut i: usize = from;
    while i < to
        invariant
            from <= i <= to <= s@.len(),
            r@ == s@.subrange(from as int, i as int),
        decreases to - i,
    {
        r.push(s[i]);
        i = i + 1;
    }
    r
}

/// Each character takes at least one byte in UTF-8, so a longer tail of
/// `s` never encodes shorter.
proof fn lemma_encode_utf8_tail_grows(s: Seq<char>, j: int, i: int)
    requires
        0 <= j <= i <= s.len(),
    ensures
        vstd::utf8::encode_utf8(s.skip(j)).len() >= vstd::utf8::encode_utf8(s.skip(i)).len(),
    decreases i - j,
{
    if j < i {
        lemma_encode_utf8_tail_grows(s, j + 1, i);
        assert(s.skip(j).drop_first() =~= s.skip(j + 1));
    }
}

/// Whether `s[from..to]` takes more than `limit` bytes in UTF-8, as
/// `str::len` counts them.
pub fn utf8_len_exceeds(s: &Vec<char>, from: usize, to: usize, limit: usize) -> (r: bool)
    requires
        from <= to <= s@.len(),
    ensures
        r == (vstd::utf8::encode_utf8(s@.subrange(from as int, to as int)).len() > limit),
{
    let ghost t = s@.subrange(from as int, to as int);
    let mut i: usize = to;
    let mut total: usize = 0;
    assert(t.skip(t.len() as int) =~= Seq::<char>::empty());
    while i > from
        invariant
            from <= i <= to <= s@.len(),
            t == s@.subrange(from as int, to as int),
            total <= limit,
            total == vstd::utf8::encode_utf8(t.skip(i - from)).len(),
        decreases i - from,
    {
        let c = s[i - 1];
        let u = c as u32;
        let w: usize = if u <= 0x7F {
            1
        } else if u <= 0x7FF {
            2
        } else if u <= 0xFFFF {
            3
        } else {
            4
        };
        proof {
            vstd::utf8::char_is_scalar(c);
            assert(t.skip(i - 1 - from).drop_first() =~= t.skip(i - from));
            assert(t.skip(i - 1 - from)[0] == c);
            assert(vstd::utf8::encode_scalar(u).len() == w);
        }
        if w > limit - total {
            proof {
                lemma_encode_utf8_tail_grows(t, 0, i - 1 - from);
                assert(t.skip(0) =~= t);
            }
            return true;
        }
        total = total + w;
        i = i - 1;
    }
    assert(t.skip(0) =~= t);
    false
}

/// The pieces `s[b.0..b.1]` for each pair of bounds `b`.
pub open spec fn bounded_views(s: Seq<char>, bounds: Seq<(usize, usize)>) -> Seq<Seq<char>> {
    bounds.map_values(|b: (usize, usize)| s.subrange(b.0 as int, b.1 as int))
}

/// Where the lines of `s` lie in it, as `str::lines` yields them: line
/// `i` is `s[r[i].0..r[i].1]`.
pub fn line_bounds(s: &Vec<char>) -> (r: Vec<(usize, usize)>)
    ensures
        forall|i: int| 0 <= i < r@.len() ==> (#[trigger] r@[i]).0 <= r@[i].1 <= s@.len(),
        bounded_views(s@, r@) == lines_of(s@),
{
    let n = s.len();
    let mut r: Vec<(usize, usize)> = Vec::new();
    let mut start: usize = 0;
    assert(s@.skip(0) =~= s@);
    assert(bounded_views(s@, r@) + lines_of(s@) =~= lines_of(s@));
    while start < n
        invariant
            n == s@.len(),
            start <= n,
            forall|i: int| 0 <= i < r@.len() ==> (#[trigger] r@[i]).0 <= r@[i].1 <= n,
            lines_of(s@) == bounded_views(s@, r@) + lines_of(s@.skip(start as int)),
        decreases n - start,
    {
        let mut j: usize = start;
        while j < n && s[j] != '\n'
            invariant
                start <= j <= n,
                n == s@.len(),
                forall|k: int| start <= k < j ==> s@[k] != '\n',
            decreases n - j,
        {
            j = j + 1;
        }
        let ghost t = s@.skip(start as int);
        proof {
            lemma_leading(t, |c: char| c != '\n', j - start);
        }
        let end = if j < n && j > start && s[j - 1] == '\r' {
            j - 1
        } else {
            j
        };
        proof {
            let whole = s@.subrange(start as int, j as int);
            if j < n {
                assert(t.take(j - start) =~= whole);
                assert(t.skip(j - start + 1) =~= s@.skip(j + 1));
                if j > start {
                    assert(whole.last() == s@[j - 1]);
                    assert(whole.drop_last() =~= s@.subrange(start as int, j - 1));
                }
                assert(s@.subrange(start as int, end as int) == strip_cr(t.take(j - start)));
            } else {
                assert(t =~= whole);
                assert(s@.skip(n as int) =~= Seq::<char>::empty());
            }
        }
        let ghost old_views = bounded_views(s@, r@);
        r.push((start, end));
        proof {
            assert(bounded_views(s@, r@) =~= old_views.push(
                s@.subrange(start as int, end as int),
            ));
        }
        start = if j < n {
            j + 1
        } else {
            n
        };
        proof {
            assert(lines_of(s@) =~= bounded_views(s@, r@) + lines_of(s@.skip(start as int)));
        }
    }
    proof {
        assert(s@.skip(n as int) =~= Seq::<char>::empty());
        assert(bounded_views(s@, r@) + Seq::<Seq<char>>::empty() =~= bounded_views(s@, r@));
    }
    r
}

/// Splits `s` into its lines, as `str::lines` does.
pub fn split_lines(s: &Vec<char>) -> (r: Vec<Vec<char>>)
    ensures
        char_views(r@) == lines_of(s@),
{
    let bounds = line_bounds(s);
    let mut r: Vec<Vec<char>> = Vec::new();
    let mut i: usize = 0;
    while i < bounds.len()
        invariant
            i <= bounds@.len(),
            forall|k: int| 0 <= k < bounds@.len() ==> (#[trigger] bounds@[k]).0 <= bounds@[k].1 <= s@.len(),
            char_views(r@) == bounded_views(s@, bounds@).take(i as int),
        decreases bounds@.len() - i,
    {
        let (a, b) = bounds[i];
        let line = copy_range(s, a, b);
        let ghost old_views = char_views(r@);
        r.push(line);
        proof {
            assert(char_views(r@) =~= old_views.push(line@));
            assert(bounded_views(s@, bounds@).take(i + 1) =~= bounded_views(s@, bounds@).take(
                i as int,
            ).push(line@));
        }
        i = i + 1;
    }
    proof {
        assert(bounded_views(s@, bounds@).take(i as int) =~= bounded_views(s@, bounds@));
    }
    r
}

/// Whitespace, as a predicate.
pub open spec fn white() -> spec_fn(char) -> bool {
    |c: char| is_white_space(c)
}

/// Non-whitespace, as a predicate.
pub open spec fn black() -> spec_fn(char) -> bool {
    |c: char| !is_white_space(c)
}

/// `s` without its leading whitespace, as `str::trim_start` returns it.
pub open spec fn trim_start(s: Seq<char>) -> Seq<char> {
    s.skip(leading(s, white()) as int)
}

/// The number of trailing characters of `s` that satisfy `p`.
pub open spec fn trailing(s: Seq<char>, p: spec_fn(char) -> bool) -> nat
    decreases s.len(),
{
    if s.len() > 0 && p(s.last()) {
        1 + trailing(s.drop_last(), p)
    } else {
        0
    }
}

/// The trailing run is as long as the characters satisfying `p` last,
/// counting from the end.
pub proof fn lemma_trailing(s: Seq<char>, p: spec_fn(char) -> bool, m: int)
    requires
        0 <= m <= s.len(),
        forall|k: int| s.len() - m <= k < s.len() ==> p(#[trigger] s[k]),
        m == s.len() || !p(s[s.len() - m - 1]),
    ensures
        trailing(s, p) == m,
    decreases m,
{
    if m > 0 {
        let t = s.drop_last();
        assert forall|k: int| t.len() - (m - 1) <= k < t.len() implies p(#[trigger] t[k]) by {
            assert(t[k] == s[k]);
        }
        if m < s.len() {
            assert(t[t.len() - (m - 1) - 1] == s[s.len() - m - 1]);
        }
        lemma_trailing(t, p, m - 1);
    }
}

/// `s` without its trailing whitespace, as `str::trim_end` returns it.
pub open spec fn trim_end(s: Seq<char>) -> Seq<char> {
    s.take(s.len() - trailing(s, white()))
}

/// `s` without leading or trailing whitespace, as `str::trim` returns
/// it.
pub open spec fn trim(s: Seq<char>) -> Seq<char> {
    trim_end(trim_start(s))
}

/// Whether `s` begins with `prefix`.
pub open spec fn starts_with(s: Seq<char>, prefix: Seq<char>) -> bool {
    prefix.len() <= s.len() && s.take(prefix.len() as int) == prefix
}

/// The whitespace-separated fields of `s`, as `str::split_whitespace`
/// yields them.
pub open spec fn fields(s: Seq<char>) -> Seq<Seq<char>>
    decreases s.len(),
{
    let t = trim_start(s);
    if t.len() == 0 {
        Seq::empty()
    } else {
        let k = leading(t, black()) as int;
        proof {
            lemma_leading_bounds(s, white());
            lemma_leading_bounds(t, black());
            assert(t[0] == s[leading(s, white()) as int]);
        }
        seq![t.take(k)] + fields(t.skip(k))
    }
}

/// Index of the first character at or after `from` that does not
/// satisfy the scan: whitespace when `want_white`, else non-whitespace.
pub fn scan_run(s: &Vec<char>, from: usize, want_white: bool) -> (r: usize)
    requires
        from <= s@.len(),
    ensures
        r == from + leading(
            s@.skip(from as int),
            if want_white {
                white()
            } else {
                black()
            },
        ),
        r <= s@.len(),
{
    let ghost p = if want_white {
        white()
    } else {
        black()
    };
    let mut i: usize = from;
    while i < s.len() && is_whitespace(s[i]) == want_white
        invariant
            from <= i <= s@.len(),
            forall|k: int| from <= k < i ==> p(#[trigger] s@[k]),
            p == (if want_white {
                white()
            } else {
                black()
            }),
        decreases s@.len() - i,
    {
        i = i + 1;
    }
    proof {
        let t = s@.skip(from as int);
        assert forall|k: int| 0 <= k < i - from implies p(#[trigger] t[k]) by {
            assert(t[k] == s@[from + k]);
        }
        if i < s@.len() {
            assert(t[i - from] == s@[i as int]);
        }
        lemma_leading(t, p, i - from);
    }
    i
}

/// Splits `s` into its whitespace-separated fields, as
/// `str::split_whitespace` does.
pub fn split_fields(s: &Vec<char>) -> (r: Vec<Vec<char>>)
    ensures
        char_views(r@) == fields(s@),
{
    let n = s.len();
    let mut r: Vec<Vec<char>> = Vec::new();
    let mut pos: usize = 0;
    assert(s@.skip(0) =~= s@);
    assert(char_views(r@) + fields(s@) =~= fields(s@));
    loop
        invariant
            n == s@.len(),
            pos <= n,
            fields(s@) == char_views(r@) + fields(s@.skip(pos as int)),
        decreases n - pos,
    {
        let ghost rest = s@.skip(pos as int);
        let start = scan_run(s, pos, true);
        proof {
            assert(trim_start(rest) =~= s@.skip(start as int));
        }
        if start >= n {
            proof {
                assert(fields(rest) =~= Seq::<Seq<char>>::empty());
                assert(char_views(r@) + Seq::<Seq<char>>::empty() =~= char_views(r@));
            }
            return r;
        }
        let end = scan_run(s, start, false);
        proof {
            let t = s@.skip(start as int);
            lemma_leading_bounds(t, black());
            assert(t[0] == s@[start as int]);
            assert(t.take(end - start) =~= s@.subrange(start as int, end as int));
            assert(t.skip(end - start) =~= s@.skip(end as int));
        }
        let field = copy_range(s, start, end);
        let ghost old_views = char_views(r@);
        r.push(field);
        proof {
            assert(char_views(r@) =~= old_views.push(field@));
            assert(fields(s@) =~= char_views(r@) + fields(s@.skip(end as int)));
        }
        pos = end;
    }
}

/// The value of the decimal digit `c`.
pub open spec fn digit_value(c: char) -> nat {
    (c as u32 - '0' as u32) as nat
}

/// The value of a string of decimal digits (`0` for none).
pub open spec fn digits_value(d: Seq<char>) -> nat
    decreases d.len(),
{
    if d.len() == 0 {
        0
    } else {
        digits_value(d.drop_last()) * 10 + digit_value(d.last())
    }
}

/// Every character of `d` is a decimal digit.
pub open spec fn all_digits(d: Seq<char>) -> bool {
    forall|i: int| 0 <= i < d.len() ==> is_digit(#[trigger] d[i])
}

/// What `str::parse::<u64>` gives for `tok`: an optional `'+'`, then at
/// least one decimal digit and nothing else, with a value that fits.
pub open spec fn parsed_u64(tok: Seq<char>) -> Option<u64> {
    let d = if tok.len() > 0 && tok[0] == '+' {
        tok.drop_first()
    } else {
        tok
    };
    if d.len() > 0 && all_digits(d) && digits_value(d) <= u64::MAX {
        Some(digits_value(d) as u64)
    } else {
        None
    }
}

/// Extending a digit string never lowers its value.
pub proof fn lemma_digits_value_grows(d: Seq<char>, i: int)
    requires
        0 <= i <= d.len(),
        all_digits(d),
    ensures
        digits_value(d.take(i)) <= digits_value(d),
    decreases d.len() - i,
{
    if i < d.len() {
        lemma_digits_value_grows(d, i + 1);
        assert(d.take(i + 1).drop_last() =~= d.take(i));
        assert(is_digit(d[i]));
    }
    assert(d.take(d.len() as int) =~= d);
}

/// Parses `tok` as `str::parse::<u64>` does.
pub fn parse_u64(tok: &Vec<char>) -> (r: Option<u64>)
    ensures
        r == parsed_u64(tok@),
{
    let n = tok.len();
    let start: usize = if n > 0 && tok[0] == '+' {
        1
    } else {
        0
    };
    let ghost d = if tok@.len() > 0 && tok@[0] == '+' {
        tok@.drop_first()
    } else {
        tok@
    };
    assert(d =~= tok@.skip(start as int));
    if start >= n {
        return None;
    }
    let mut value: u64 = 0;
    let mut i: usize = start;
    while i < n
        invariant
            start <= i <= n,
            n == tok@.len(),
            start < n,
            d == tok@.skip(start as int),
            d == (if tok@.len() > 0 && tok@[0] == '+' {
                tok@.drop_first()
            } else {
                tok@
            }),
            all_digits(d.take(i - start)),
            value == digits_value(d.take(i - start)),
        decreases n - i,
    {
        let c = tok[i];
        if !('0' <= c && c <= '9') {
            proof {
                assert(d[i - start] == c);
                assert(!is_digit(d[i - start]));
                assert(!all_digits(d));
            }
            return None;
        }
        let digit = (c as u32 - '0' as u32) as u64;
        proof {
            assert(d.take(i - start + 1).drop_last() =~= d.take(i - start));
            assert(d.take(i - start + 1).last() == c);
            assert(digits_value(d.take(i - start + 1)) == value * 10 + digit);
        }
        if value > (u64::MAX - digit) / 10 {
            proof {
                assert(value * 10 + digit > u64::MAX) by (nonlinear_arith)
                    requires
                        value > (u64::MAX - digit) / 10,
                        digit <= 9,
                ;
                assert forall|k: int| 0 <= k < i - start + 1 implies is_digit(
                    #[trigger] d.take(i - start + 1)[k],
                ) by {
                    if k < i - start {
                        assert(d.take(i - start + 1)[k] == d.take(i - start)[k]);
                    }
                }
                if all_digits(d) {
                    lemma_digits_value_grows(d, i - start + 1);
                }
            }
            return None;
        }
        proof {
            assert(value * 10 + digit <= u64::MAX) by (nonlinear_arith)
                requires
                    value <= (u64::MAX - digit) / 10,
                    digit <= 9,
            ;
            assert forall|k: int| 0 <= k < i - start + 1 implies is_digit(
                #[trigger] d.take(i - start + 1)[k],
            ) by {
                if k < i - start {
                    assert(d.take(i - start + 1)[k] == d.take(i - start)[k]);
                }
            }
        }
        value = value * 10 + digit;
        i = i + 1;
    }
    proof {
        assert(d.take(n - start) =~= d);
    }
    Some(value)
}

/// Whether `s[from..]` begins with `prefix`.
pub fn starts_with_from(s: &Vec<char>, from: usize, prefix: &Vec<char>) -> (r: bool)
    requires
        from <= s@.len(),
    ensures
        r == starts_with(s@.skip(from as int), prefix@),
{
    if prefix.len() > s.len() - from {
        return false;
    }
    let mut i: usize = 0;
    while i < prefix.len()
        invariant
            from + prefix@.len() <= s@.len(),
            s@.len() == s.len(),
            i <= prefix@.len(),
            forall|k: int| 0 <= k < i ==> s@[from + k] == prefix@[k],
        decreases prefix@.len() - i,
    {
        if s[from + i] != prefix[i] {
            proof {
                assert(s@.skip(from as int).take(prefix@.len() as int)[i as int] == s@[from + i]);
            }
            return false;
        }
        i = i + 1;
    }
    assert(s@.skip(from as int).take(prefix@.len() as int) =~= prefix@);
    true
}

/// The indices `0..n`.
pub open spec fn positions(n: nat) -> Seq<int> {
    Seq::new(n, |i: int| i)
}

/// Indices at which `pattern` does not occur in `s`, as a predicate.
pub open spec fn not_found_at(s: Seq<char>, pattern: Seq<char>) -> spec_fn(int) -> bool {
    |i: int| !starts_with(s.skip(i), pattern)
}

/// The index of the first occurrence of `pattern` in `s`, as `str::find`
/// gives it (counted in characters), or `None`.
pub open spec fn find_seq(s: Seq<char>, pattern: Seq<char>) -> Option<nat> {
    let i = leading(positions(s.len() + 1), not_found_at(s, pattern));
    if i <= s.len() {
        Some(i)
    } else {
        None
    }
}

/// Finds the first occurrence of `pattern` in `s`.
pub fn find_pattern(s: &Vec<char>, pattern: &Vec<char>) -> (r: Option<usize>)
    ensures
        r matches Some(i) ==> i <= s@.len() && find_seq(s@, pattern@) == Some(i as nat)
            && starts_with(s@.skip(i as int), pattern@),
        r is None ==> find_seq(s@, pattern@) is None,
{
    let n = s.len();
    let ghost ps = positions(s@.len() + 1);
    let ghost p = not_found_at(s@, pattern@);
    let mut i: usize = 0;
    while i <= n
        invariant
            n == s@.len(),
            i <= n + 1,
            ps == positions(s@.len() + 1),
            p == not_found_at(s@, pattern@),
            forall|j: int| 0 <= j < i ==> p(#[trigger] ps[j]),
        decreases n + 1 - i,
    {
        if starts_with_from(s, i, pattern) {
            proof {
                assert(ps[i as int] == i);
                lemma_leading(ps, p, i as int);
            }
            return Some(i);
        }
        proof {
            assert(ps[i as int] == i);
        }
        if i == n {
            proof {
                lemma_leading(ps, p, (n + 1) as int);
            }
            return None;
        }
        i = i + 1;
    }
    proof {
        lemma_leading(ps, p, (n + 1) as int);
    }
    None
}

/// The kinds of character run the scanners look for.
#[derive(Clone, Copy, PartialEq, Eq)]
pub enum RunKind {
    /// ASCII digits and `'.'`.
    Numeric,
    /// Non-whitespace.
    Field,
    /// Whitespace.
    Space,
}

/// The characters that belong to a run of `kind`, as a predicate.
pub open spec fn run_pred(kind: RunKind) -> spec_fn(char) -> bool {
    match kind {
        RunKind::Numeric => digit_or_dot(),
        RunKind::Field => black(),
        RunKind::Space => white(),
    }
}

/// Whether `c` belongs to a run of `kind`.
fn in_run(c: char, kind: RunKind) -> (r: bool)
    ensures
        r == run_pred(kind)(c),
{
    match kind {
        RunKind::Numeric => ('0' <= c && c <= '9') || c == '.',
        RunKind::Field => !is_whitespace(c),
        RunKind::Space => is_whitespace(c),
    }
}

/// The start of the trailing run of `kind` in `s[..end]`.
pub fn trailing_run_start(s: &Vec<char>, end: usize, kind: RunKind) -> (r: usize)
    requires
        end <= s@.len(),
    ensures
        r + trailing(s@.take(end as int), run_pred(kind)) == end,
{
    let ghost p = run_pred(kind);
    let mut i: usize = end;
    while i > 0 && in_run(s[i - 1], kind)
        invariant
            i <= end <= s@.len(),
            p == run_pred(kind),
            forall|k: int| i <= k < end ==> p(#[trigger] s@[k]),
        decreases i,
    {
        i = i - 1;
    }
    proof {
        let t = s@.take(end as int);
        assert forall|k: int| t.len() - (end - i) <= k < t.len() implies p(#[trigger] t[k]) by {
            assert(t[k] == s@[k]);
        }
        if i > 0 {
            assert(t[t.len() - (end - i) - 1] == s@[i - 1]);
        }
        lemma_trailing(t, p, end - i);
    }
    i
}

/// ASCII digits and `'.'`, as a predicate.
pub open spec fn digit_or_dot() -> spec_fn(char) -> bool {
    |c: char| is_digit(c) || c == '.'
}

/// ASCII digits, as a predicate.
pub open spec fn digit() -> spec_fn(char) -> bool {
    |c: char| is_digit(c)
}

/// Anything but an ASCII digit, as a predicate.
pub open spec fn non_digit() -> spec_fn(char) -> bool {
    |c: char| !is_digit(c)
}

/// The first number `\d+(\.\d+)?` in `text`, as its integer digits and
/// its fraction digits (empty when there is no fraction).
pub open spec fn decimal_token(text: Seq<char>) -> Option<(Seq<char>, Seq<char>)> {
    let a = leading(text, non_digit());
    if a >= text.len() {
        None
    } else {
        let r = text.skip(a as int);
        let d = leading(r, digit());
        let rest = r.skip(d as int);
        let frac = if rest.len() >= 2 && rest[0] == '.' && is_digit(rest[1]) {
            let f = rest.skip(1);
            f.take(leading(f, digit()) as int)
        } else {
            Seq::empty()
        };
        Some((r.take(d as int), frac))
    }
}

/// Index of the first character at or after `from` that is (when
/// `want_digit`) or is not (otherwise) an ASCII digit, or `to`.
fn scan_digits(s: &Vec<char>, from: usize, to: usize, want_digit: bool) -> (r: usize)
    requires
        from <= to <= s@.len(),
    ensures
        r == from + leading(
            s@.subrange(from as int, to as int),
            if want_digit {
                digit()
            } else {
                non_digit()
            },
        ),
        r <= to,
{
    let ghost p = if want_digit {
        digit()
    } else {
        non_digit()
    };
    let mut i: usize = from;
    while i < to && (('0' <= s[i] && s[i] <= '9') == want_digit)
        invariant
            from <= i <= to <= s@.len(),
            p == (if want_digit {
                digit()
            } else {
                non_digit()
            }),
            forall|k: int| from <= k < i ==> p(#[trigger] s@[k]),
        decreases to - i,
    {
        i = i + 1;
    }
    proof {
        let t = s@.subrange(from as int, to as int);
        assert forall|k: int| 0 <= k < i - from implies p(#[trigger] t[k]) by {
            assert(t[k] == s@[from + k]);
        }
        if i < to {
            assert(t[i - from] == s@[i as int]);
        }
        lemma_leading(t, p, i - from);
    }
    i
}

/// Locates the first number `\d+(\.\d+)?` in `s[from..to]`: the bounds
/// of its integer digits and of its fraction digits.
pub fn find_decimal_token(s: &Vec<char>, from: usize, to: usize) -> (r: Option<(usize, usize, usize, usize)>)
    requires
        from <= to <= s@.len(),
    ensures
        r is None ==> decimal_token(s@.subrange(from as int, to as int)) is None,
        r matches Some((a, b, c, d)) ==> from <= a < b <= c <= d <= to && decimal_token(
            s@.subrange(from as int, to as int),
        ) == Some((s@.subrange(a as int, b as int), s@.subrange(c as int, d as int)))
            && all_digits(s@.subrange(a as int, b as int)) && all_digits(
            s@.subrange(c as int, d as int),
        ) && a == from + leading(s@.subrange(from as int, to as int), non_digit()) && (c == d
            ==> c == b) && (c < d ==> c == b + 1 && s@[b as int] == '.'),
{
    let ghost text = s@.subrange(from as int, to as int);
    let a = scan_digits(s, from, to, false);
    if a >= to {
        return None;
    }
    let b = scan_digits(s, a, to, true);
    proof {
        let r = text.skip(a - from);
        assert(r =~= s@.subrange(a as int, to as int));
        lemma_leading_bounds(s@.subrange(a as int, to as int), digit());
        assert(s@.subrange(a as int, to as int)[0] == s@[a as int]);
        lemma_leading_bounds(text, non_digit());
        assert(text[a - from] == s@[a as int]);
        assert(r.take(b - a) =~= s@.subrange(a as int, b as int));
        assert(r.skip(b - a) =~= s@.subrange(b as int, to as int));
        assert forall|i: int| 0 <= i < b - a implies is_digit(
            #[trigger] s@.subrange(a as int, b as int)[i],
        ) by {
            assert(s@.subrange(a as int, b as int)[i] == s@.subrange(a as int, to as int)[i]);
        }
    }
    if to - b >= 2 && s[b] == '.' && '0' <= s[b + 1] && s[b + 1] <= '9' {
        let d = scan_digits(s, b + 1, to, true);
        proof {
            let rest = s@.subrange(b as int, to as int);
            assert(rest[0] == s@[b as int]);
            assert(rest[1] == s@[b + 1]);
            assert(rest.skip(1) =~= s@.subrange(b + 1, to as int));
            assert(s@.subrange(b + 1, to as int).take(d - (b + 1)) =~= s@.subrange(
                b + 1,
                d as int,
            ));
            lemma_leading_bounds(s@.subrange(b + 1, to as int), digit());
            assert forall|i: int| 0 <= i < d - (b + 1) implies is_digit(
                #[trigger] s@.subrange(b + 1, d as int)[i],
            ) by {
                assert(s@.subrange(b + 1, d as int)[i] == s@.subrange(b + 1, to as int)[i]);
            }
        }
        Some((a, b, b + 1, d))
    } else {
        proof {
            let rest = s@.subrange(b as int, to as int);
            if rest.len() >= 2 {
                assert(rest[0] == s@[b as int]);
                assert(rest[1] == s@[b + 1]);
            }
            assert(s@.subrange(b as int, b as int) =~= Seq::<char>::empty());
        }
        Some((a, b, b, b))
    }
}

/// `10^k`.
pub open spec fn pow10(k: nat) -> nat
    decreases k,
{
    if k == 0 {
        1
    } else {
        10 * pow10((k - 1) as nat)
    }
}

/// The decimal `int_digits.frac_digits` times `mult`, rounded to the
/// nearest integer with halves rounded up.
pub open spec fn scaled_rounded(int_digits: Seq<char>, frac_digits: Seq<char>, mult: nat) -> nat {
    let d = pow10(frac_digits.len());
    (2 * mult * (digits_value(int_digits) * d + digits_value(frac_digits)) + d) / (2 * d)
}

/// `v`, or `u64::MAX` if it does not fit.
pub open spec fn saturate(v: nat) -> u64 {
    if v > u64::MAX {
        u64::MAX
    } else {
        v as u64
    }
}

proof fn lemma_pow10_positive(k: nat)
    ensures
        pow10(k) >= 1,
    decreases k,
{
    if k > 0 {
        lemma_pow10_positive((k - 1) as nat);
    }
}

/// A leading digit weighs `10^len` of what follows it.
proof fn lemma_digits_value_prepend(x: char, t: Seq<char>)
    ensures
        digits_value(seq![x] + t) == digit_value(x) * pow10(t.len()) + digits_value(t),
    decreases t.len(),
{
    let u = seq![x] + t;
    if t.len() == 0 {
        assert(u.drop_last() =~= Seq::<char>::empty());
        assert(u.last() == x);
        assert(digits_value(u.drop_last()) == 0);
        assert(digits_value(t) == 0);
        assert(digits_value(u) == digit_value(x));
        assert(pow10(0) == 1);
        assert(digit_value(x) * 1 == digit_value(x));
    } else {
        assert(u.drop_last() =~= seq![x] + t.drop_last());
        assert(u.last() == t.last());
        lemma_digits_value_prepend(x, t.drop_last());
        let a: int = digit_value(x) as int;
        let p: int = pow10((t.len() - 1) as nat) as int;
        let b: int = digits_value(t.drop_last()) as int;
        let l: int = digit_value(t.last()) as int;
        let du: int = digits_value(u) as int;
        let dt: int = digits_value(t) as int;
        assert(du == (a * p + b) * 10 + l);
        assert(dt == b * 10 + l);
        assert(pow10(t.len()) == 10 * p);
        assert(du == a * (10 * p) + dt) by (nonlinear_arith)
            requires
                du == (a * p + b) * 10 + l,
                dt == b * 10 + l,
        ;
    }
}

/// A digit string is worth less than `10^len`.
proof fn lemma_digits_value_bound(t: Seq<char>)
    requires
        all_digits(t),
    ensures
        digits_value(t) < pow10(t.len()),
    decreases t.len(),
{
    if t.len() > 0 {
        let u = t.drop_last();
        assert(all_digits(u)) by {
            assert forall|i: int| 0 <= i < u.len() implies is_digit(#[trigger] u[i]) by {
                assert(u[i] == t[i]);
            }
        }
        lemma_digits_value_bound(u);
        assert(is_digit(t[t.len() - 1]));
        assert(digit_value(t.last()) <= 9);
    }
}

/// One Horner step from the right: with `q` the floor of `m` times the
/// fraction `0.t`, one more leading digit `x` gives
/// `(x * m + q) / 10`, the floor of `m` times `0.xt`.
proof fn lemma_horner_step(x: char, t: Seq<char>, m: nat, q: nat)
    requires
        q == (m * digits_value(t)) / pow10(t.len()),
    ensures
        (digit_value(x) * m + q) / 10 == (m * digits_value(seq![x] + t)) / pow10(
            t.len() + 1,
        ),
{
    lemma_digits_value_prepend(x, t);
    lemma_pow10_positive(t.len());
    let p: int = pow10(t.len()) as int;
    let dx: int = digit_value(x) as int;
    let v: int = digits_value(t) as int;
    let mi: int = m as int;
    let qi: int = q as int;
    assert(pow10(t.len() + 1) == 10 * p);
    let big: int = mi * (dx * p + v);
    assert(big == p * (dx * mi) + mi * v) by (nonlinear_arith)
        requires
            big == mi * (dx * p + v),
    ;
    assert(mi * v >= 0) by (nonlinear_arith)
        requires
            mi >= 0,
            v >= 0,
    ;
    vstd::arithmetic::div_mod::lemma_fundamental_div_mod(mi * v, p);
    vstd::arithmetic::div_mod::lemma_mod_bound(mi * v, p);
    let r: int = (mi * v) % p;
    assert(qi == (mi * v) / p);
    assert(big == p * (dx * mi + qi) + r) by (nonlinear_arith)
        requires
            big == p * (dx * mi) + mi * v,
            mi * v == p * qi + r,
    ;
    vstd::arithmetic::div_mod::lemma_fundamental_div_mod_converse(big, p, dx * mi + qi, r);
    assert(big >= 0) by (nonlinear_arith)
        requires
            big == p * (dx * mi + qi) + r,
            p >= 1,
            dx >= 0,
            mi >= 0,
            qi >= 0,
            r >= 0,
    ;
    vstd::arithmetic::div_mod::lemma_div_denominator(big, p, 10);
    assert(p * 10 == 10 * p) by (nonlinear_arith);
    assert(mi * digits_value(seq![x] + t) == big);
}

/// Rounding `I.F * mult` splits into the integer part and the rounded
/// fraction, where `q` is the floor of `2 * mult` times the fraction.
proof fn lemma_round_split(i: nat, f: nat, d: nat, mult: nat, q: nat)
    requires
        d >= 1,
        q == (2 * mult * f) / d,
    ensures
        (2 * mult * (i * d + f) + d) / (2 * d) == i * mult + (q + 1) / 2,
{
    let ii: int = i as int;
    let fi: int = f as int;
    let di: int = d as int;
    let mi: int = mult as int;
    let qi: int = q as int;
    let x: int = 2 * mi * fi;
    assert(x >= 0) by (nonlinear_arith)
        requires
            x == 2 * mi * fi,
            mi >= 0,
            fi >= 0,
    ;
    assert(2 * mi * (ii * di + fi) + di == (2 * di) * (ii * mi) + (x + di)) by (nonlinear_arith)
        requires
            x == 2 * mi * fi,
    ;
    vstd::arithmetic::div_mod::lemma_fundamental_div_mod(x + di, 2 * di);
    vstd::arithmetic::div_mod::lemma_mod_bound(x + di, 2 * di);
    let r: int = (x + di) % (2 * di);
    let k: int = (x + di) / (2 * di);
    assert((2 * di) * (ii * mi) + (x + di) == (2 * di) * (ii * mi + k) + r) by (nonlinear_arith)
        requires
            x + di == (2 * di) * k + r,
    ;
    vstd::arithmetic::div_mod::lemma_fundamental_div_mod_converse(
        (2 * di) * (ii * mi) + (x + di),
        2 * di,
        ii * mi + k,
        r,
    );
    vstd::arithmetic::div_mod::lemma_div_denominator(x + di, di, 2);
    assert(di * 2 == 2 * di) by (nonlinear_arith);
    vstd::arithmetic::div_mod::lemma_fundamental_div_mod(x, di);
    vstd::arithmetic::div_mod::lemma_mod_bound(x, di);
    let r2: int = x % di;
    assert(qi == x / di);
    assert(x + di == di * (qi + 1) + r2) by (nonlinear_arith)
        requires
            x == di * qi + r2,
    ;
    vstd::arithmetic::div_mod::lemma_fundamental_div_mod_converse(x + di, di, qi + 1, r2);
}

/// `s[a..b].s[c..d] * mult`, rounded to the nearest integer with halves
/// rounded up, or `u64::MAX` if that does not fit.
pub fn scale_decimal(s: &Vec<char>, a: usize, b: usize, c: usize, d: usize, mult: u64) -> (r: u64)
    requires
        a <= b <= c <= d <= s@.len(),
        all_digits(s@.subrange(a as int, b as int)),
        all_digits(s@.subrange(c as int, d as int)),
        1 <= mult <= 0x4000_0000,
    ensures
        r == saturate(
            scaled_rounded(s@.subrange(a as int, b as int), s@.subrange(c as int, d as int), mult as nat),
        ),
{
    let ghost frac = s@.subrange(c as int, d as int);
    let ghost int_digits = s@.subrange(a as int, b as int);
    let m2: u64 = 2 * mult;
    let mut q: u64 = 0;
    let mut j: usize = d;
    proof {
        assert(s@.subrange(d as int, d as int) =~= Seq::<char>::empty());
        assert(digits_value(s@.subrange(d as int, d as int)) == 0);
        assert(pow10(0) == 1);
        assert((m2 as nat) * 0 == 0);
    }
    while j > c
        invariant
            c <= j <= d <= s@.len(),
            m2 == 2 * mult,
            1 <= mult <= 0x4000_0000,
            all_digits(s@.subrange(c as int, d as int)),
            q == ((m2 as nat) * digits_value(s@.subrange(j as int, d as int))) / pow10((d - j) as nat),
            q < m2,
        decreases j,
    {
        j = j - 1;
        let ch = s[j];
        proof {
            assert(s@.subrange(j as int, d as int) =~= seq![ch] + s@.subrange(j + 1, d as int));
            assert(s@.subrange(c as int, d as int)[j - c] == ch);
            assert(is_digit(ch));
            lemma_horner_step(ch, s@.subrange(j + 1, d as int), m2 as nat, q as nat);
            let t = s@.subrange(j as int, d as int);
            assert(all_digits(t)) by {
                assert forall|i: int| 0 <= i < t.len() implies is_digit(#[trigger] t[i]) by {
                    assert(t[i] == s@.subrange(c as int, d as int)[j - c + i]);
                }
            }
            lemma_digits_value_bound(t);
            lemma_pow10_positive(t.len());
            let mv: int = (m2 as nat * digits_value(t)) as int;
            let pt: int = pow10(t.len()) as int;
            assert(mv < (m2 as int) * pt) by (nonlinear_arith)
                requires
                    mv == (m2 as int) * (digits_value(t) as int),
                    (digits_value(t) as int) < pt,
                    m2 >= 1,
            ;
            vstd::arithmetic::div_mod::lemma_fundamental_div_mod(mv, pt);
            vstd::arithmetic::div_mod::lemma_mod_bound(mv, pt);
            assert(mv / pt < m2) by (nonlinear_arith)
                requires
                    mv == pt * (mv / pt) + mv % pt,
                    mv % pt >= 0,
                    mv < (m2 as int) * pt,
                    pt >= 1,
            ;
        }
        let dig = (ch as u32 - '0' as u32) as u64;
        q = (dig * m2 + q) / 10;
    }
    let frac_round = (q + 1) / 2;
    proof {
        lemma_pow10_positive(frac.len());
        lemma_round_split(digits_value(int_digits), digits_value(frac), pow10(frac.len()), mult as nat, q as nat);
    }
    let mut ival: u64 = 0;
    let mut i: usize = a;
    proof {
        assert(s@.subrange(a as int, a as int) =~= Seq::<char>::empty());
    }
    while i < b
        invariant
            a <= i <= b <= s@.len(),
            1 <= mult <= 0x4000_0000,
            int_digits == s@.subrange(a as int, b as int),
            frac == s@.subrange(c as int, d as int),
            scaled_rounded(int_digits, frac, mult as nat) == digits_value(int_digits) * (mult as nat)
                + (frac_round as nat),
            all_digits(s@.subrange(a as int, b as int)),
            ival == digits_value(s@.subrange(a as int, i as int)),
        decreases b - i,
    {
        let ch = s[i];
        proof {
            assert(s@.subrange(a as int, i + 1).drop_last() =~= s@.subrange(a as int, i as int));
            assert(s@.subrange(a as int, i + 1).last() == ch);
            assert(s@.subrange(a as int, b as int)[i - a] == ch);
        }
        let dig = (ch as u32 - '0' as u32) as u64;
        if ival > (u64::MAX - dig) / 10 {
            proof {
                assert(ival * 10 + dig > u64::MAX) by (nonlinear_arith)
                    requires
                        ival > (u64::MAX - dig) / 10,
                        dig <= 9,
                ;
                assert(s@.subrange(a as int, b as int).take(i + 1 - a) =~= s@.subrange(a as int, i + 1));
                lemma_digits_value_grows(s@.subrange(a as int, b as int), i + 1 - a);
                assert(digits_value(int_digits) * (mult as nat) >= digits_value(int_digits))
                    by (nonlinear_arith)
                    requires
                        mult >= 1,
                ;
            }
            return u64::MAX;
        }
        proof {
            assert(ival * 10 + dig <= u64::MAX) by (nonlinear_arith)
                requires
                    ival <= (u64::MAX - dig) / 10,
                    dig <= 9,
            ;
        }
        ival = ival * 10 + dig;
        i = i + 1;
    }
    match ival.checked_mul(mult) {
        Some(whole) => match whole.checked_add(frac_round) {
            Some(total) => total,
            None => u64::MAX,
        },
        None => u64::MAX,
    }
}

} // verus!
