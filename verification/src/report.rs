//! Comparison-report logic: the rows of the comparison table (one per
//! candidate name, in name order), RFC 4180 field escaping for the CSV
//! export, blank rendering of absent values, and the overall verdict of a
//! row.

use crate::text::{chars_of, str_equal, string_views};
use vstd::prelude::*;

verus! {

/// Lexicographic order on character sequences. `String`s compare in this
/// order: UTF-8 byte order agrees with code-point order.
pub open spec fn lex_less(a: Seq<char>, b: Seq<char>) -> bool
    decreases a.len(),
{
    if b.len() == 0 {
        false
    } else if a.len() == 0 {
        true
    } else if a[0] != b[0] {
        (a[0] as u32) < (b[0] as u32)
    } else {
        lex_less(a.drop_first(), b.drop_first())
    }
}

/// No sequence precedes itself.
pub proof fn lemma_lex_less_irreflexive(a: Seq<char>)
    ensures
        !lex_less(a, a),
    decreases a.len(),
{
    if a.len() > 0 {
        lemma_lex_less_irreflexive(a.drop_first());
    }
}

/// The order is transitive.
pub proof fn lemma_lex_less_transitive(a: Seq<char>, b: Seq<char>, c: Seq<char>)
    requires
        lex_less(a, b),
        lex_less(b, c),
    ensures
        lex_less(a, c),
    decreases a.len(),
{
    if a.len() > 0 && b.len() > 0 && c.len() > 0 && a[0] == b[0] && b[0] == c[0] {
        lemma_lex_less_transitive(a.drop_first(), b.drop_first(), c.drop_first());
    }
}

/// Of two different sequences, one precedes the other.
pub proof fn lemma_lex_less_total(a: Seq<char>, b: Seq<char>)
    ensures
        a == b || lex_less(a, b) || lex_less(b, a),
    decreases a.len(),
{
    if a.len() > 0 && b.len() > 0 {
        if a[0] == b[0] {
            lemma_lex_less_total(a.drop_first(), b.drop_first());
            if a.drop_first() == b.drop_first() {
                assert(a =~= seq![a[0]] + a.drop_first());
                assert(b =~= seq![b[0]] + b.drop_first());
            }
        } else {
            vstd::utf8::char_u32_cast(a[0], a[0] as u32);
            vstd::utf8::char_u32_cast(b[0], b[0] as u32);
        }
    } else if a.len() == 0 && b.len() == 0 {
        assert(a =~= b);
    }
}

/// Each sequence precedes every later one: ascending, with no repeats.
pub open spec fn strictly_ascending(s: Seq<Seq<char>>) -> bool {
    forall|i: int, j: int| 0 <= i < j < s.len() ==> lex_less(#[trigger] s[i], #[trigger] s[j])
}

/// Two strictly ascending sequences that hold the same elements are
/// equal: the set of names fixes the rows and their order.
pub proof fn lemma_ascending_unique(a: Seq<Seq<char>>, b: Seq<Seq<char>>)
    requires
        strictly_ascending(a),
        strictly_ascending(b),
        a.to_set() == b.to_set(),
    ensures
        a == b,
    decreases a.len(),
{
    if a.len() == 0 {
        if b.len() > 0 {
            assert(b.to_set().contains(b[0]));
            assert(!a.to_set().contains(b[0]));
        }
        assert(a =~= b);
    } else if b.len() == 0 {
        assert(a.to_set().contains(a[0]));
        assert(!b.to_set().contains(a[0]));
    } else {
        // The first element of each is the least element of the common set.
        assert(a.to_set().contains(a[0]));
        assert(b.to_set().contains(b[0]));
        let ia = choose|i: int| 0 <= i < a.len() && a[i] == b[0];
        let ib = choose|i: int| 0 <= i < b.len() && b[i] == a[0];
        assert(b.to_set().contains(a[0]));
        assert(a.to_set().contains(b[0]));
        assert(exists|i: int| 0 <= i < a.len() && a[i] == b[0]);
        assert(exists|i: int| 0 <= i < b.len() && b[i] == a[0]);
        if a[0] != b[0] {
            assert(ia > 0);
            assert(ib > 0);
            assert(lex_less(a[0], a[ia]));
            assert(lex_less(b[0], b[ib]));
            lemma_lex_less_transitive(a[0], b[0], a[0]);
            lemma_lex_less_irreflexive(a[0]);
        }
        let a1 = a.drop_first();
        let b1 = b.drop_first();
        assert(strictly_ascending(a1)) by {
            assert forall|i: int, j: int| 0 <= i < j < a1.len() implies lex_less(
                #[trigger] a1[i],
                #[trigger] a1[j],
            ) by {
                assert(a1[i] == a[i + 1]);
                assert(a1[j] == a[j + 1]);
            }
        }
        assert(strictly_ascending(b1)) by {
            assert forall|i: int, j: int| 0 <= i < j < b1.len() implies lex_less(
                #[trigger] b1[i],
                #[trigger] b1[j],
            ) by {
                assert(b1[i] == b[i + 1]);
                assert(b1[j] == b[j + 1]);
            }
        }
        assert(a1.to_set() =~= b1.to_set()) by {
            assert forall|x: Seq<char>| a1.to_set().contains(x) implies b1.to_set().contains(x) by {
                let i = choose|i: int| 0 <= i < a1.len() && a1[i] == x;
                assert(a[i + 1] == x);
                assert(lex_less(a[0], x));
                assert(a.to_set().contains(x));
                let k = choose|k: int| 0 <= k < b.len() && b[k] == x;
                if k == 0 {
                    lemma_lex_less_irreflexive(x);
                }
                assert(b1[k - 1] == x);
            }
            assert forall|x: Seq<char>| b1.to_set().contains(x) implies a1.to_set().contains(x) by {
                let i = choose|i: int| 0 <= i < b1.len() && b1[i] == x;
                assert(b[i + 1] == x);
                assert(lex_less(b[0], x));
                assert(b.to_set().contains(x));
                let k = choose|k: int| 0 <= k < a.len() && a[k] == x;
                if k == 0 {
                    lemma_lex_less_irreflexive(x);
                }
                assert(a1[k - 1] == x);
            }
        }
        lemma_ascending_unique(a1, b1);
        assert(a =~= seq![a[0]] + a1);
        assert(b =~= seq![b[0]] + b1);
    }
}

/// Whether `a` precedes `b`.
pub(crate) fn chars_less(a: &Vec<char>, b: &Vec<char>) -> (r: bool)
    ensures
        r == lex_less(a@, b@),
{
    let mut i: usize = 0;
    assert(a@.skip(0) =~= a@);
    assert(b@.skip(0) =~= b@);
    while i < a.len() && i < b.len()
        invariant
            i <= a@.len(),
            i <= b@.len(),
            lex_less(a@, b@) == lex_less(a@.skip(i as int), b@.skip(i as int)),
        decreases a@.len() - i,
    {
        let x = a[i];
        let y = b[i];
        proof {
            assert(a@.skip(i as int)[0] == x);
            assert(b@.skip(i as int)[0] == y);
        }
        if x != y {
            let r = (x as u32) < (y as u32);
            proof {
                let sa = a@.skip(i as int);
                let sb = b@.skip(i as int);
                assert(lex_less(sa, sb) == ((sa[0] as u32) < (sb[0] as u32)));
            }
            return r;
        }
        proof {
            assert(a@.skip(i as int).drop_first() =~= a@.skip(i + 1));
            assert(b@.skip(i as int).drop_first() =~= b@.skip(i + 1));
        }
        i = i + 1;
    }
    i < b.len()
}

/// The keys of the comparison table's rows: every candidate name once,
/// in ascending order, as a map keyed by name lists them. Rows are found
/// again with `key_index`.
pub fn row_keys(names: &Vec<String>) -> (keys: Vec<String>)
    ensures
        strictly_ascending(string_views(keys@)),
        string_views(keys@).to_set() == string_views(names@).to_set(),
{
    let mut keys: Vec<String> = Vec::new();
    let mut key_chars: Vec<Vec<char>> = Vec::new();
    let mut n: usize = 0;
    while n < names.len()
        invariant
            n <= names@.len(),
            keys@.len() == key_chars@.len(),
            forall|k: int| 0 <= k < keys@.len() ==> (#[trigger] key_chars@[k])@ == keys@[k]@,
            strictly_ascending(string_views(keys@)),
            string_views(keys@).to_set() == string_views(names@.take(n as int)).to_set(),
        decreases names@.len() - n,
    {
        let name = &names[n];
        let chars = chars_of(name.as_str());
        let ghost old_keys = string_views(keys@);
        // `p` is the first key that does not precede the name.
        let mut p: usize = 0;
        while p < keys.len() && chars_less(&key_chars[p], &chars)
            invariant
                p <= keys@.len(),
                keys@.len() == key_chars@.len(),
                forall|k: int| 0 <= k < keys@.len() ==> (#[trigger] key_chars@[k])@ == keys@[k]@,
                forall|k: int| 0 <= k < p ==> lex_less(#[trigger] old_keys[k], chars@),
                old_keys == string_views(keys@),
            decreases keys@.len() - p,
        {
            p = p + 1;
        }
        let ghost seen = string_views(names@.take(n as int));
        assert(string_views(names@.take(n + 1)) =~= seen.push(name@));
        assert(seen.push(name@).to_set() =~= seen.to_set().insert(name@)) by {
            let t = seen.push(name@);
            assert forall|x: Seq<char>| t.to_set().contains(x) implies seen.to_set().insert(
                name@,
            ).contains(x) by {
                let i = choose|i: int| 0 <= i < t.len() && t[i] == x;
                if i < seen.len() {
                    assert(seen[i] == x);
                }
            }
            assert forall|x: Seq<char>| seen.to_set().insert(name@).contains(x) implies t.to_set().contains(
                x,
            ) by {
                if x == name@ {
                    assert(t[seen.len() as int] == x);
                } else {
                    let i = choose|i: int| 0 <= i < seen.len() && seen[i] == x;
                    assert(t[i] == x);
                }
            }
        }
        let present = p < keys.len() && !chars_less(&chars, &key_chars[p]);
        if present {
            proof {
                lemma_lex_less_total(old_keys[p as int], chars@);
                assert(old_keys[p as int] == name@);
                assert(old_keys.to_set().contains(name@));
                assert(old_keys.to_set().insert(name@) =~= old_keys.to_set());
            }
        } else {
            let ghost s = old_keys.insert(p as int, name@);
            proof {
                assert forall|k: int| p <= k < old_keys.len() implies lex_less(
                    chars@,
                    #[trigger] old_keys[k],
                ) by {
                    lemma_lex_less_total(old_keys[p as int], chars@);
                    if k > p {
                        lemma_lex_less_transitive(chars@, old_keys[p as int], old_keys[k]);
                    }
                }
                assert forall|i: int, j: int| 0 <= i < j < s.len() implies lex_less(
                    #[trigger] s[i],
                    #[trigger] s[j],
                ) by {
                    if j < p {
                        assert(s[i] == old_keys[i]);
                        assert(s[j] == old_keys[j]);
                    } else if j == p {
                        assert(s[i] == old_keys[i]);
                    } else if i < p {
                        assert(s[i] == old_keys[i]);
                        assert(s[j] == old_keys[j - 1]);
                    } else if i == p {
                        assert(s[j] == old_keys[j - 1]);
                    } else {
                        assert(s[i] == old_keys[i - 1]);
                        assert(s[j] == old_keys[j - 1]);
                    }
                }
                assert(s.to_set() =~= old_keys.to_set().insert(name@)) by {
                    assert forall|x: Seq<char>| s.to_set().contains(x) implies old_keys.to_set().insert(
                        name@,
                    ).contains(x) by {
                        let i = choose|i: int| 0 <= i < s.len() && s[i] == x;
                        if i < p {
                            assert(old_keys[i] == x);
                        } else if i > p {
                            assert(old_keys[i - 1] == x);
                        }
                    }
                    assert forall|x: Seq<char>| old_keys.to_set().insert(name@).contains(x) implies s.to_set().contains(
                        x,
                    ) by {
                        if x == name@ {
                            assert(s[p as int] == x);
                        } else {
                            let i = choose|i: int| 0 <= i < old_keys.len() && old_keys[i] == x;
                            if i < p {
                                assert(s[i] == x);
                            } else {
                                assert(s[i + 1] == x);
                            }
                        }
                    }
                }
            }
            let ghost keys_before = keys@;
            let ghost chars_before = key_chars@;
            keys.insert(p, name.clone());
            key_chars.insert(p, chars);
            proof {
                assert(string_views(keys@) =~= s);
                assert forall|k: int| 0 <= k < keys@.len() implies (#[trigger] key_chars@[k])@
                    == keys@[k]@ by {
                    if k > p {
                        assert(key_chars@[k] == chars_before[k - 1]);
                        assert(keys@[k] == keys_before[k - 1]);
                    }
                }
            }
        }
        n = n + 1;
    }
    assert(names@.take(names@.len() as int) =~= names@);
    keys
}

/// Where `name` stands among the keys: the first position that holds
/// it, or `None` when no key is `name`.
pub fn key_index(keys: &Vec<String>, name: &str) -> (r: Option<usize>)
    ensures
        match r {
            Some(i) => i < keys@.len() && keys@[i as int]@ == name@ && forall|j: int|
                0 <= j < i ==> (#[trigger] keys@[j])@ != name@,
            None => forall|j: int| 0 <= j < keys@.len() ==> (#[trigger] keys@[j])@ != name@,
        },
{
    let mut i: usize = 0;
    while i < keys.len()
        invariant
            i <= keys@.len(),
            forall|j: int| 0 <= j < i ==> (#[trigger] keys@[j])@ != name@,
        decreases keys@.len() - i,
    {
        if str_equal(keys[i].as_str(), name) {
            return Some(i);
        }
        i = i + 1;
    }
    None
}

/// Whether a CSV field must be quoted: it holds a comma, a double quote,
/// a line feed or a carriage return.
pub open spec fn needs_quotes(field: Seq<char>) -> bool {
    exists|i: int|
        0 <= i < field.len() && (field[i] == ',' || field[i] == '"' || field[i] == '\n'
            || field[i] == '\r')
}

/// `field` with every double quote doubled.
pub open spec fn doubled_quotes(field: Seq<char>) -> Seq<char>
    decreases field.len(),
{
    if field.len() == 0 {
        Seq::empty()
    } else {
        doubled_quotes(field.drop_last()) + if field.last() == '"' {
            seq!['"', '"']
        } else {
            seq![field.last()]
        }
    }
}

/// RFC 4180 escaping: a field that needs quotes is wrapped in double
/// quotes with its own double quotes doubled; any other field is left as
/// it is.
pub open spec fn csv_escaped(field: Seq<char>) -> Seq<char> {
    if needs_quotes(field) {
        seq!['"'] + doubled_quotes(field) + seq!['"']
    } else {
        field
    }
}

proof fn lemma_doubled_quotes_append(a: Seq<char>, b: Seq<char>)
    ensures
        doubled_quotes(a + b) == doubled_quotes(a) + doubled_quotes(b),
    decreases b.len(),
{
    if b.len() == 0 {
        assert(a + b =~= a);
        assert(doubled_quotes(a) + doubled_quotes(b) =~= doubled_quotes(a));
    } else {
        lemma_doubled_quotes_append(a, b.drop_last());
        assert((a + b).drop_last() =~= a + b.drop_last());
        assert((a + b).last() == b.last());
        let tail = if b.last() == '"' {
            seq!['"', '"']
        } else {
            seq![b.last()]
        };
        assert(doubled_quotes(a) + doubled_quotes(b.drop_last()) + tail =~= doubled_quotes(a) + (
        doubled_quotes(b.drop_last()) + tail));
    }
}

proof fn lemma_doubled_quotes_plain(f: Seq<char>)
    requires
        forall|i: int| 0 <= i < f.len() ==> f[i] != '"',
    ensures
        doubled_quotes(f) == f,
    decreases f.len(),
{
    if f.len() > 0 {
        lemma_doubled_quotes_plain(f.drop_last());
        assert(f.drop_last().push(f.last()) =~= f);
        assert(f.last() == f[f.len() - 1]);
    }
}

/// Whether the field needs quotes.
fn has_special(chars: &Vec<char>) -> (r: bool)
    ensures
        r == needs_quotes(chars@),
{
    let mut i: usize = 0;
    while i < chars.len()
        invariant
            i <= chars@.len(),
            forall|j: int|
                0 <= j < i ==> !(chars@[j] == ',' || chars@[j] == '"' || chars@[j] == '\n'
                    || chars@[j] == '\r'),
        decreases chars@.len() - i,
    {
        let c = chars[i];
        if c == ',' || c == '"' || c == '\n' || c == '\r' {
            return true;
        }
        i = i + 1;
    }
    false
}

/// RFC 4180 field escaping: wraps the field in double quotes, doubling
/// any double quote inside it, whenever it contains a comma, a double
/// quote, a line feed or a carriage return.
pub fn csv_escape(field: &str) -> (r: String)
    ensures
        r@ == csv_escaped(field@),
{
    let chars = chars_of(field);
    if !has_special(&chars) {
        return field.to_owned();
    }
    proof {
        reveal_strlit("\"");
    }
    let mut out = String::from_str("\"");
    let n = chars.len();
    let mut start: usize = 0;
    let mut i: usize = 0;
    while i < n
        invariant
            n == chars@.len(),
            chars@ == field@,
            start <= i <= n,
            forall|j: int| start <= j < i ==> chars@[j] != '"',
            out@ == seq!['"'] + doubled_quotes(chars@.take(start as int)),
        decreases n - i,
    {
        if chars[i] == '"' {
            let piece = field.substring_char(start, i + 1);
            out.append(piece);
            out.append("\"");
            proof {
                let before = chars@.take(start as int);
                let run = chars@.subrange(start as int, i as int);
                assert(chars@.take(i + 1) =~= before + (run + seq!['"']));
                lemma_doubled_quotes_append(before, run + seq!['"']);
                lemma_doubled_quotes_append(run, seq!['"']);
                lemma_doubled_quotes_plain(run);
                reveal_strlit("\"");
                assert(seq!['"'].drop_last() =~= Seq::<char>::empty());
                assert(seq!['"'].last() == '"');
                assert(doubled_quotes(Seq::<char>::empty()) =~= Seq::<char>::empty());
                assert(doubled_quotes(seq!['"']) =~= seq!['"', '"']);
                assert(piece@ =~= run + seq!['"']);
                assert(out@ =~= seq!['"'] + doubled_quotes(chars@.take(i + 1)));
            }
            start = i + 1;
        }
        i = i + 1;
    }
    let rest = field.substring_char(start, n);
    out.append(rest);
    out.append("\"");
    proof {
        reveal_strlit("\"");
        let before = chars@.take(start as int);
        let run = chars@.subrange(start as int, n as int);
        assert(chars@ =~= before + run);
        lemma_doubled_quotes_append(before, run);
        lemma_doubled_quotes_plain(run);
        assert(out@ =~= seq!['"'] + doubled_quotes(chars@) + seq!['"']);
    }
    out
}

/// An absent value renders as an empty field.
pub fn opt_str(value: Option<String>) -> (r: String)
    ensures
        r@ == (match value {
            Some(s) => s@,
            None => Seq::<char>::empty(),
        }),
{
    match value {
        Some(s) => s,
        None => String::new(),
    }
}

/// The overall verdict of a comparison row from its three gates (Tier 1
/// statistics, determinism, API parity): `None` when no gate ran,
/// otherwise whether every gate that ran passed.
pub open spec fn verdict(gates: Seq<Option<bool>>) -> Option<bool> {
    if forall|i: int| 0 <= i < gates.len() ==> gates[i] is None {
        None
    } else {
        Some(forall|i: int| 0 <= i < gates.len() ==> gates[i] != Some(false))
    }
}

/// `Some(true)` only if every gate that ran passed, `Some(false)` if any
/// gate that ran failed, and `None` when no gate ran at all.
pub fn overall_verdict(
    tier1_pass: Option<bool>,
    deterministic: Option<bool>,
    api_parity_pass: Option<bool>,
) -> (r: Option<bool>)
    ensures
        r == verdict(seq![tier1_pass, deterministic, api_parity_pass]),
{
    let ghost gates = seq![tier1_pass, deterministic, api_parity_pass];
    if tier1_pass.is_none() && deterministic.is_none() && api_parity_pass.is_none() {
        assert(forall|i: int| 0 <= i < gates.len() ==> gates[i] is None) by {
            assert forall|i: int| 0 <= i < gates.len() implies gates[i] is None by {
                assert(i == 0 || i == 1 || i == 2);
            }
        }
        return None;
    }
    let passed = tier1_pass != Some(false) && deterministic != Some(false) && api_parity_pass
        != Some(false);
    proof {
        assert(gates[0] == tier1_pass);
        assert(gates[1] == deterministic);
        assert(gates[2] == api_parity_pass);
        assert(passed == forall|i: int| 0 <= i < gates.len() ==> gates[i] != Some(false)) by {
            if passed {
                assert forall|i: int| 0 <= i < gates.len() implies gates[i] != Some(false) by {
                    assert(i == 0 || i == 1 || i == 2);
                }
            }
        }
    }
    Some(passed)
}

/// The Markdown cell of an optional verdict.
pub open spec fn verdict_cell(value: Option<bool>) -> Seq<char> {
    match value {
        Some(true) => "✅"@,
        Some(false) => "❌"@,
        None => "—"@,
    }
}

/// Renders an optional verdict as a Markdown cell: a check mark, a cross
/// mark, or an em dash when absent.
pub fn fmt_bool(value: Option<bool>) -> (r: String)
    ensures
        r@ == verdict_cell(value),
{
    match value {
        Some(true) => "✅".to_owned(),
        Some(false) => "❌".to_owned(),
        None => "—".to_owned(),
    }
}

} // verus!
