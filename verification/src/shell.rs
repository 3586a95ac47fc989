use vstd::prelude::*;
use vstd::string::*;
use crate::text::str_less;

verus! {

/// The four characters that stand for one quote inside a single-quoted shell word.
pub open spec fn escaped_quote() -> Seq<char> {
    seq!['\'', '\\', '\'', '\'']
}

/// How one character is written inside single quotes.
pub open spec fn quote_char(c: char) -> Seq<char> {
    if c == '\'' {
        escaped_quote()
    } else {
        seq![c]
    }
}

/// The characters of `s` as written inside single quotes.
pub open spec fn quote_body(s: Seq<char>) -> Seq<char>
    decreases s.len(),
{
    if s.len() == 0 {
        Seq::empty()
    } else {
        quote_char(s[0]) + quote_body(s.drop_first())
    }
}

/// `s` as one single-quoted shell word.
pub open spec fn spec_shell_single_quote(s: Seq<char>) -> Seq<char> {
    seq!['\''] + quote_body(s) + seq!['\'']
}

/// `s` with each escaped quote, taken from left to right without overlap,
/// turned back into one quote.
pub open spec fn unescape_quotes(s: Seq<char>) -> Seq<char>
    decreases s.len(),
{
    if s.len() >= 4 && s.take(4) == escaped_quote() {
        seq!['\''] + unescape_quotes(s.skip(4))
    } else if s.len() == 0 {
        Seq::empty()
    } else {
        seq![s[0]] + unescape_quotes(s.drop_first())
    }
}

/// A single-quoted word loses its quotes and its escapes; anything else stays.
pub open spec fn spec_shell_unquote(raw: Seq<char>) -> Seq<char> {
    if raw.len() >= 2 && raw[0] == '\'' && raw.last() == '\'' {
        unescape_quotes(raw.subrange(1, raw.len() - 1))
    } else {
        raw
    }
}

proof fn lemma_quote_body_concat(a: Seq<char>, b: Seq<char>)
    ensures
        quote_body(a + b) == quote_body(a) + quote_body(b),
    decreases a.len(),
{
    if a.len() == 0 {
        assert(a + b =~= b);
    } else {
        assert((a + b).drop_first() =~= a.drop_first() + b);
        lemma_quote_body_concat(a.drop_first(), b);
        assert((a + b)[0] == a[0]);
    }
}

proof fn lemma_quote_body_single(c: char)
    ensures
        quote_body(seq![c]) == quote_char(c),
{
    assert(seq![c].drop_first() =~= Seq::<char>::empty());
    assert(quote_body(Seq::<char>::empty()) == Seq::<char>::empty());
    assert(quote_char(c) + Seq::<char>::empty() =~= quote_char(c));
}

/// Unquoting a quoted word gives the word back.
pub proof fn lemma_unescape_quote_body(s: Seq<char>)
    ensures
        unescape_quotes(quote_body(s)) == s,
    decreases s.len(),
{
    if s.len() > 0 {
        let rest = s.drop_first();
        let q = quote_body(s);
        lemma_unescape_quote_body(rest);
        if s[0] == '\'' {
            assert(q.take(4) =~= escaped_quote());
            assert(q.skip(4) =~= quote_body(rest));
            assert(s =~= seq!['\''] + rest);
        } else {
            assert(q =~= seq![s[0]] + quote_body(rest));
            assert(q[0] == s[0]);
            assert(!(q.len() >= 4 && q.take(4) == escaped_quote())) by {
                if q.len() >= 4 {
                    assert(q.take(4)[0] == s[0]);
                    assert(escaped_quote()[0] == '\'');
                }
            }
            assert(q.drop_first() =~= quote_body(rest));
            assert(s =~= seq![s[0]] + rest);
        }
    } else {
        assert(s =~= Seq::<char>::empty());
    }
}

/// Unquoting undoes quoting, for every value.
pub proof fn law_unquote_undoes_quote(v: Seq<char>)
    ensures
        spec_shell_unquote(spec_shell_single_quote(v)) == v,
{
    let q = spec_shell_single_quote(v);
    assert(q.subrange(1, q.len() - 1) =~= quote_body(v));
    lemma_unescape_quote_body(v);
}

/// Writes `value` as one single-quoted shell word.
pub fn shell_single_quote(value: &str) -> (r: String)
    ensures
        r@ == spec_shell_single_quote(value@),
{
    let n = value.unicode_len();
    let mut r = "'".to_owned();
    proof {
        reveal_strlit("'");
        assert(value@.take(0) =~= Seq::<char>::empty());
        assert(r@ =~= seq!['\''] + quote_body(value@.take(0)));
    }
    let mut i: usize = 0;
    while i < n
        invariant
            n == value@.len(),
            i <= n,
            r@ == seq!['\''] + quote_body(value@.take(i as int)),
        decreases n - i,
    {
        let c = value.get_char(i);
        if c == '\'' {
            r.append("'\\''");
            proof {
                reveal_strlit("'\\''");
                assert("'\\''"@ =~= escaped_quote());
            }
        } else {
            r.append(value.substring_char(i, i + 1));
            proof {
                assert(value@.subrange(i as int, i + 1) =~= seq![c]);
            }
        }
        proof {
            assert(value@.take(i + 1) =~= value@.take(i as int) + seq![c]);
            lemma_quote_body_concat(value@.take(i as int), seq![c]);
            lemma_quote_body_single(c);
            assert(r@ =~= seq!['\''] + quote_body(value@.take(i + 1)));
        }
        i = i + 1;
    }
    r.append("'");
    proof {
        reveal_strlit("'");
        assert(value@.take(n as int) =~= value@);
        assert(r@ =~= spec_shell_single_quote(value@));
    }
    r
}

/// Turns each escaped quote of `s` back into a quote (`unescape_quotes`).
fn unescape(s: &str) -> (r: String)
    ensures
        r@ == unescape_quotes(s@),
{
    let n = s.unicode_len();
    let mut out = String::new();
    let mut i: usize = 0;
    proof {
        assert(s@.subrange(0, n as int) =~= s@);
        assert(out@ =~= Seq::<char>::empty());
    }
    while i < n
        invariant
            n == s@.len(),
            i <= n,
            out@ + unescape_quotes(s@.subrange(i as int, n as int)) == unescape_quotes(s@),
        decreases n - i,
    {
        let ghost t = s@.subrange(i as int, n as int);
        let is_escape = n - i >= 4 && s.get_char(i) == '\'' && s.get_char(i + 1) == '\\' && s.get_char(i + 2)
            == '\'' && s.get_char(i + 3) == '\'';
        proof {
            if t.len() >= 4 {
                assert(t.take(4)[0] == s@[i as int]);
                assert(t.take(4)[1] == s@[i + 1]);
                assert(t.take(4)[2] == s@[i + 2]);
                assert(t.take(4)[3] == s@[i + 3]);
            }
            if is_escape {
                assert(t.take(4) =~= escaped_quote());
            }
        }
        if is_escape {
            let ghost before = out@;
            out.append("'");
            proof {
                reveal_strlit("'");
                assert(t.skip(4) =~= s@.subrange(i + 4, n as int));
                assert(out@ + unescape_quotes(s@.subrange(i + 4, n as int)) =~= before + unescape_quotes(t));
            }
            i = i + 4;
        } else {
            let ghost before = out@;
            out.append(s.substring_char(i, i + 1));
            proof {
                assert(t.drop_first() =~= s@.subrange(i + 1, n as int));
                assert(s@.subrange(i as int, i + 1) =~= seq![t[0]]);
                assert(out@ + unescape_quotes(s@.subrange(i + 1, n as int)) =~= before + unescape_quotes(t));
            }
            i = i + 1;
        }
    }
    proof {
        assert(s@.subrange(n as int, n as int) =~= Seq::<char>::empty());
        assert(out@ + Seq::<char>::empty() =~= out@);
    }
    out
}

/// Reads back a value written by `shell_single_quote`; text that is not a
/// single-quoted word comes back as it is.
pub fn shell_unquote(raw: &str) -> (r: String)
    ensures
        r@ == spec_shell_unquote(raw@),
{
    let n = raw.unicode_len();
    if n >= 2 && raw.get_char(0) == '\'' && raw.get_char(n - 1) == '\'' {
        unescape(raw.substring_char(1, n - 1))
    } else {
        raw.to_owned()
    }
}

/// The position of the first `c` in `s`, or the length of `s` when there is none.
pub open spec fn index_of_char(s: Seq<char>, c: char) -> nat
    decreases s.len(),
{
    if s.len() == 0 {
        0
    } else if s[0] == c {
        0
    } else {
        1 + index_of_char(s.drop_first(), c)
    }
}

proof fn lemma_index_of_char(s: Seq<char>, c: char, m: int)
    requires
        0 <= m <= s.len(),
        forall|k: int| 0 <= k < m ==> s[k] != c,
        m == s.len() || s[m] == c,
    ensures
        index_of_char(s, c) == m,
    decreases m,
{
    if m > 0 {
        let t = s.drop_first();
        assert forall|k: int| 0 <= k < m - 1 implies t[k] != c by {
            assert(t[k] == s[k + 1]);
        }
        if m < s.len() {
            assert(t[m - 1] == s[m]);
        }
        lemma_index_of_char(t, c, m - 1);
    }
}

proof fn lemma_index_of_char_facts(s: Seq<char>, c: char)
    ensures
        index_of_char(s, c) <= s.len(),
        index_of_char(s, c) < s.len() ==> s[index_of_char(s, c) as int] == c,
        forall|k: int| 0 <= k < index_of_char(s, c) ==> s[k] != c,
    decreases s.len(),
{
    if s.len() > 0 && s[0] != c {
        let t = s.drop_first();
        lemma_index_of_char_facts(t, c);
        assert forall|k: int| 0 <= k < index_of_char(s, c) implies s[k] != c by {
            if k > 0 {
                assert(s[k] == t[k - 1]);
            }
        }
    }
}

/// A line without the carriage return that ended it.
pub open spec fn strip_cr(l: Seq<char>) -> Seq<char> {
    if l.len() > 0 && l.last() == '\r' {
        l.drop_last()
    } else {
        l
    }
}

/// The lines of a text: split at each line feed, a carriage return just
/// before it dropped; a final line feed starts no further line.
pub open spec fn lines_of(s: Seq<char>) -> Seq<Seq<char>>
    decreases s.len(),
{
    if s.len() == 0 {
        Seq::empty()
    } else {
        let i = index_of_char(s, '\n');
        if i < s.len() {
            seq![strip_cr(s.take(i as int))] + lines_of(s.skip(i + 1 as int))
        } else {
            seq![s]
        }
    }
}

/// The word that starts an exported variable's line.
pub open spec fn export_prefix() -> Seq<char> {
    seq!['e', 'x', 'p', 'o', 'r', 't', ' ']
}

/// The value that a line assigns to `key`: the line reads `export NAME=VALUE`
/// where NAME, trimmed, is `key`; VALUE is trimmed and unquoted.
pub open spec fn parse_export(l: Seq<char>, key: Seq<char>) -> Option<Seq<char>> {
    if l.len() >= 7 && l.take(7) == export_prefix() {
        let rest = l.skip(7);
        let e = index_of_char(rest, '=');
        if e < rest.len() && crate::text::trim(rest.take(e as int)) == key {
            Some(spec_shell_unquote(crate::text::trim(rest.skip(e + 1 as int))))
        } else {
            None
        }
    } else {
        None
    }
}

/// The value that the first line assigning `key` gives it.
pub open spec fn lookup_lines(ls: Seq<Seq<char>>, key: Seq<char>) -> Option<Seq<char>>
    decreases ls.len(),
{
    if ls.len() == 0 {
        None
    } else {
        match parse_export(ls[0], key) {
            Some(v) => Some(v),
            None => lookup_lines(ls.drop_first(), key),
        }
    }
}

/// The value that a shell snapshot gives `key`, if any.
pub open spec fn spec_snapshot_lookup(content: Seq<char>, key: Seq<char>) -> Option<Seq<char>> {
    lookup_lines(lines_of(content), key)
}

/// The position of the first `c` in `s`, or its length.
fn char_index(s: &str, c: char) -> (r: usize)
    ensures
        r == index_of_char(s@, c),
{
    let n = s.unicode_len();
    let mut i: usize = 0;
    while i < n && s.get_char(i) != c
        invariant
            n == s@.len(),
            i <= n,
            forall|k: int| 0 <= k < i ==> s@[k] != c,
        decreases n - i,
    {
        i = i + 1;
    }
    proof {
        lemma_index_of_char(s@, c, i as int);
    }
    i
}

fn starts_with_export(l: &str) -> (b: bool)
    ensures
        b == (l@.len() >= 7 && l@.take(7) == export_prefix()),
{
    let n = l.unicode_len();
    if n < 7 {
        return false;
    }
    let b = l.get_char(0) == 'e' && l.get_char(1) == 'x' && l.get_char(2) == 'p' && l.get_char(3) == 'o'
        && l.get_char(4) == 'r' && l.get_char(5) == 't' && l.get_char(6) == ' ';
    proof {
        if b {
            assert(l@.take(7) =~= export_prefix());
        } else {
            if l@.take(7) == export_prefix() {
                assert(l@.take(7)[0] == l@[0]);
                assert(l@.take(7)[1] == l@[1]);
                assert(l@.take(7)[2] == l@[2]);
                assert(l@.take(7)[3] == l@[3]);
                assert(l@.take(7)[4] == l@[4]);
                assert(l@.take(7)[5] == l@[5]);
                assert(l@.take(7)[6] == l@[6]);
            }
        }
    }
    b
}

/// The value that one line assigns to `key`, if it does (`parse_export`).
fn parse_export_line(l: &str, key: &String) -> (r: Option<String>)
    ensures
        r.deep_view() == parse_export(l@, key@),
{
    if !starts_with_export(l) {
        return None;
    }
    let n = l.unicode_len();
    let rest = l.substring_char(7, n);
    let e = char_index(rest, '=');
    proof {
        assert(rest@ == l@.skip(7));
    }
    let m = rest.unicode_len();
    if e >= m {
        return None;
    }
    let name = crate::text::trim_string(&rest.substring_char(0, e).to_owned());
    if name != *key {
        return None;
    }
    let raw = crate::text::trim_string(&rest.substring_char(e + 1, m).to_owned());
    proof {
        assert(rest@.subrange(0, e as int) =~= rest@.take(e as int));
        assert(rest@.subrange(e + 1, m as int) =~= rest@.skip(e + 1));
    }
    Some(shell_unquote(raw.as_str()))
}

/// The value that a shell snapshot gives `key`: the first line of the form
/// `export NAME=VALUE` whose trimmed NAME is `key`, with VALUE trimmed and unquoted.
pub fn snapshot_lookup(content: &str, key: &String) -> (r: Option<String>)
    ensures
        r.deep_view() == spec_snapshot_lookup(content@, key@),
{
    let n = content.unicode_len();
    let mut pos: usize = 0;
    proof {
        assert(content@.subrange(0, n as int) =~= content@);
    }
    while pos < n
        invariant
            n == content@.len(),
            pos <= n,
            lookup_lines(lines_of(content@.subrange(pos as int, n as int)), key@) == spec_snapshot_lookup(content@, key@),
        decreases n - pos,
    {
        let rest = content.substring_char(pos, n);
        let ghost t = rest@;
        let i = char_index(rest, '\n');
        proof {
            lemma_index_of_char_facts(t, '\n');
        }
        if i < n - pos {
            let raw_line = rest.substring_char(0, i);
            let line = if i > 0 && raw_line.get_char(i - 1) == '\r' {
                raw_line.substring_char(0, i - 1)
            } else {
                raw_line
            };
            proof {
                assert(raw_line@ == t.take(i as int));
                if i > 0 && raw_line@[i - 1] == '\r' {
                    assert(line@ =~= strip_cr(t.take(i as int)));
                }
                assert(line@ == strip_cr(t.take(i as int)));
                let ls = lines_of(t);
                assert(ls == seq![strip_cr(t.take(i as int))] + lines_of(t.skip(i + 1)));
                assert(ls[0] == line@);
                assert(ls.drop_first() =~= lines_of(t.skip(i + 1)));
                assert(t.skip(i + 1) =~= content@.subrange(pos + i + 1, n as int));
            }
            match parse_export_line(line, key) {
                Some(v) => {
                    return Some(v);
                },
                None => {},
            }
            pos = pos + i + 1;
        } else {
            proof {
                let ls = lines_of(t);
                assert(t.len() > 0);
                assert(i == t.len());
                assert(ls == seq![t]);
                assert(ls.drop_first() =~= Seq::<Seq<char>>::empty());
                assert(lookup_lines(Seq::<Seq<char>>::empty(), key@) is None);
                assert(ls[0] == t);
            }
            return parse_export_line(rest, key);
        }
    }
    None
}

/// Inserts `x` after every entry whose key is not greater than its own.
pub open spec fn sort_insert(t: Seq<(Seq<char>, Seq<char>)>, x: (Seq<char>, Seq<char>)) -> Seq<(Seq<char>, Seq<char>)>
    decreases t.len(),
{
    if t.len() == 0 {
        seq![x]
    } else if str_less(x.0, t.last().0) {
        sort_insert(t.drop_last(), x).push(t.last())
    } else {
        t.push(x)
    }
}

/// The entries ordered by key; entries with equal keys keep their order.
pub open spec fn sort_by_key(s: Seq<(Seq<char>, Seq<char>)>) -> Seq<(Seq<char>, Seq<char>)>
    decreases s.len(),
{
    if s.len() == 0 {
        Seq::empty()
    } else {
        sort_insert(sort_by_key(s.drop_last()), s.last())
    }
}

proof fn lemma_sort_insert_at(t: Seq<(Seq<char>, Seq<char>)>, x: (Seq<char>, Seq<char>), p: int)
    requires
        0 <= p <= t.len(),
        forall|j: int| p <= j < t.len() ==> str_less(x.0, #[trigger] t[j].0),
        p == 0 || !str_less(x.0, t[p - 1].0),
    ensures
        sort_insert(t, x) == t.insert(p, x),
    decreases t.len(),
{
    if t.len() == 0 {
        assert(t.insert(p, x) =~= seq![x]);
    } else if p == t.len() {
        assert(t.insert(p, x) =~= t.push(x));
    } else {
        let u = t.drop_last();
        assert(str_less(x.0, t[t.len() - 1].0));
        assert forall|j: int| p <= j < u.len() implies str_less(x.0, #[trigger] u[j].0) by {
            assert(u[j] == t[j]);
        }
        if p > 0 {
            assert(u[p - 1] == t[p - 1]);
        }
        lemma_sort_insert_at(u, x, p);
        assert(u.insert(p, x).push(t.last()) =~= t.insert(p, x));
    }
}

/// The entries of `items`, ordered by key, equal keys in their given order.
fn sorted_by_key(items: &Vec<(String, String)>) -> (r: Vec<(String, String)>)
    ensures
        r.deep_view() == sort_by_key(items.deep_view()),
{
    let ghost iv = items.deep_view();
    let mut out: Vec<(String, String)> = Vec::new();
    let n = items.len();
    let mut i: usize = 0;
    proof {
        assert(iv.take(0) =~= Seq::<(Seq<char>, Seq<char>)>::empty());
        assert(out.deep_view() =~= Seq::<(Seq<char>, Seq<char>)>::empty());
    }
    while i < n
        invariant
            n == items.len(),
            iv == items.deep_view(),
            i <= n,
            out.deep_view() == sort_by_key(iv.take(i as int)),
        decreases n - i,
    {
        let x = (items[i].0.clone(), items[i].1.clone());
        let ghost xv = x.deep_view();
        let ghost ov = out.deep_view();
        let mut p: usize = out.len();
        while p > 0 && crate::text::string_less(&x.0, &out[p - 1].0)
            invariant
                p <= out.len(),
                ov == out.deep_view(),
                xv == x.deep_view(),
                forall|j: int| p <= j < ov.len() ==> str_less(xv.0, #[trigger] ov[j].0),
            decreases p,
        {
            p = p - 1;
        }
        proof {
            if p > 0 {
                assert(ov[p - 1].0 == out@[p - 1].0@);
            }
            lemma_sort_insert_at(ov, xv, p as int);
            assert(iv[i as int] == xv);
            assert(iv.take(i + 1).drop_last() =~= iv.take(i as int));
        }
        out.insert(p, x);
        proof {
            assert(out.deep_view() =~= ov.insert(p as int, xv));
        }
        i = i + 1;
    }
    proof {
        assert(iv.take(n as int) =~= iv);
    }
    out
}

/// The first line of every shell snapshot.
pub open spec fn snapshot_header() -> Seq<char> {
    "# Managed by Clicky. Do not edit manually.\n"@
}

/// The line that exports one variable.
pub open spec fn export_line(kv: (Seq<char>, Seq<char>)) -> Seq<char> {
    export_prefix() + kv.0 + seq!['='] + spec_shell_single_quote(kv.1) + seq!['\n']
}

/// The export lines of the entries, in order.
pub open spec fn export_lines(s: Seq<(Seq<char>, Seq<char>)>) -> Seq<char>
    decreases s.len(),
{
    if s.len() == 0 {
        Seq::empty()
    } else {
        export_lines(s.drop_last()) + export_line(s.last())
    }
}

/// A shell snapshot: the header, then one export line per entry, by key.
pub open spec fn spec_render_snapshot(items: Seq<(Seq<char>, Seq<char>)>) -> Seq<char> {
    snapshot_header() + export_lines(sort_by_key(items))
}

/// The text of the shell snapshot that exports `items` (ordered by key).
pub fn render_shell_snapshot(items: &Vec<(String, String)>) -> (r: String)
    ensures
        r@ == spec_render_snapshot(items.deep_view()),
{
    let sorted = sorted_by_key(items);
    let ghost sv = sorted.deep_view();
    let mut content = "# Managed by Clicky. Do not edit manually.\n".to_owned();
    let n = sorted.len();
    let mut i: usize = 0;
    proof {
        assert(sv.take(0) =~= Seq::<(Seq<char>, Seq<char>)>::empty());
        assert(content@ =~= snapshot_header() + export_lines(sv.take(0)));
    }
    while i < n
        invariant
            n == sorted.len(),
            sv == sorted.deep_view(),
            i <= n,
            content@ == snapshot_header() + export_lines(sv.take(i as int)),
        decreases n - i,
    {
        let ghost before = content@;
        content.append("export ");
        content.append(sorted[i].0.as_str());
        content.append("=");
        let quoted = shell_single_quote(sorted[i].1.as_str());
        content.append(quoted.as_str());
        content.append("\n");
        proof {
            reveal_strlit("export ");
            reveal_strlit("=");
            reveal_strlit("\n");
            assert("export "@ =~= export_prefix());
            assert(sv[i as int] == (sorted@[i as int].0@, sorted@[i as int].1@));
            assert(sv.take(i + 1).drop_last() =~= sv.take(i as int));
            assert(content@ =~= before + export_line(sv[i as int]));
        }
        i = i + 1;
    }
    proof {
        assert(sv.take(n as int) =~= sv);
    }
    content
}

/// A variable that a shell snapshot can hold and give back: its name has no
/// `=`, no line feed and no surrounding white space, and its value no line feed.
pub open spec fn snapshot_entry_fits(kv: (Seq<char>, Seq<char>)) -> bool {
    &&& !kv.0.contains('=')
    &&& !kv.0.contains('\n')
    &&& crate::text::trim(kv.0) == kv.0
    &&& !kv.1.contains('\n')
}

/// The export line of an entry without its line feed.
pub open spec fn export_body(kv: (Seq<char>, Seq<char>)) -> Seq<char> {
    export_prefix() + kv.0 + seq!['='] + spec_shell_single_quote(kv.1)
}

proof fn lemma_lines_of_split(a: Seq<char>, b: Seq<char>)
    requires
        !a.contains('\n'),
    ensures
        lines_of(a + seq!['\n'] + b) == seq![strip_cr(a)] + lines_of(b),
{
    let s = a + seq!['\n'] + b;
    assert forall|k: int| 0 <= k < a.len() implies s[k] != '\n' by {
        assert(s[k] == a[k]);
    }
    assert(s[a.len() as int] == '\n');
    lemma_index_of_char(s, '\n', a.len() as int);
    assert(s.take(a.len() as int) =~= a);
    assert(s.skip(a.len() + 1 as int) =~= b);
}

proof fn lemma_quote_body_no_newline(v: Seq<char>)
    requires
        !v.contains('\n'),
    ensures
        !quote_body(v).contains('\n'),
    decreases v.len(),
{
    if v.len() > 0 {
        let rest = v.drop_first();
        assert(!rest.contains('\n')) by {
            if rest.contains('\n') {
                let k = choose|k: int| 0 <= k < rest.len() && rest[k] == '\n';
                assert(v[k + 1] == '\n');
            }
        }
        lemma_quote_body_no_newline(rest);
        assert(v[0] != '\n') by {
            assert(v.contains(v[0]));
        }
        let q = quote_char(v[0]) + quote_body(rest);
        assert forall|k: int| 0 <= k < q.len() implies q[k] != '\n' by {
            if k < quote_char(v[0]).len() {
                if v[0] == '\'' {
                    assert(q[k] == escaped_quote()[k]);
                }
            } else {
                assert(q[k] == quote_body(rest)[k - quote_char(v[0]).len()]);
                assert(quote_body(rest).contains(q[k]));
            }
        }
    } else {
        assert(quote_body(v) =~= Seq::<char>::empty());
    }
}

proof fn lemma_export_body_shape(kv: (Seq<char>, Seq<char>))
    requires
        snapshot_entry_fits(kv),
    ensures
        !export_body(kv).contains('\n'),
        strip_cr(export_body(kv)) == export_body(kv),
        export_line(kv) == export_body(kv) + seq!['\n'],
{
    let b = export_body(kv);
    let q = quote_body(kv.1);
    lemma_quote_body_no_newline(kv.1);
    let p = export_prefix().len() + kv.0.len();
    assert forall|k: int| 0 <= k < b.len() implies b[k] != '\n' by {
        if k < 7 {
            assert(b[k] == export_prefix()[k]);
        } else if k < p {
            assert(b[k] == kv.0[k - 7]);
            assert(kv.0.contains(b[k]));
        } else if k == p {
            assert(b[k] == '=');
        } else if k == p + 1 {
            assert(b[k] == '\'');
        } else if k < b.len() - 1 {
            assert(b[k] == q[k - p - 2]);
            assert(q.contains(b[k]));
        } else {
            assert(b[k] == '\'');
        }
    }
    assert(b.last() == '\'');
    assert(export_line(kv) =~= b + seq!['\n']);
}

/// Trimming leaves a text alone whose ends are not white space.
proof fn lemma_trim_keeps(s: Seq<char>)
    requires
        s.len() > 0,
        !crate::text::is_white_space(s[0]),
        !crate::text::is_white_space(s.last()),
    ensures
        crate::text::trim(s) == s,
{
    assert(crate::text::trim_start(s) == s);
    assert(crate::text::trim_end(s) == s);
}

proof fn lemma_parse_export_body(kv: (Seq<char>, Seq<char>), key: Seq<char>)
    requires
        snapshot_entry_fits(kv),
    ensures
        parse_export(export_body(kv), key) == (if kv.0 == key {
            Some(kv.1)
        } else {
            None::<Seq<char>>
        }),
{
    let l = export_body(kv);
    let q = spec_shell_single_quote(kv.1);
    assert(l.take(7) =~= export_prefix());
    let rest = l.skip(7);
    assert(rest =~= kv.0 + seq!['='] + q);
    assert forall|k: int| 0 <= k < kv.0.len() implies rest[k] != '=' by {
        assert(rest[k] == kv.0[k]);
        assert(kv.0.contains(rest[k]));
    }
    lemma_index_of_char(rest, '=', kv.0.len() as int);
    assert(rest.take(kv.0.len() as int) =~= kv.0);
    assert(rest.skip(kv.0.len() + 1 as int) =~= q);
    assert(q[0] == '\'');
    assert(q.last() == '\'');
    lemma_trim_keeps(q);
    law_unquote_undoes_quote(kv.1);
}

/// The lines of a list of export lines followed by `tail`.
proof fn lemma_lines_of_exports(s: Seq<(Seq<char>, Seq<char>)>, tail: Seq<char>)
    requires
        forall|i: int| 0 <= i < s.len() ==> snapshot_entry_fits(#[trigger] s[i]),
    ensures
        lines_of(export_lines(s) + tail) == s.map_values(|kv: (Seq<char>, Seq<char>)| export_body(kv)) + lines_of(
            tail,
        ),
    decreases s.len(),
{
    if s.len() == 0 {
        assert(export_lines(s) + tail =~= tail);
        assert(s.map_values(|kv: (Seq<char>, Seq<char>)| export_body(kv)) =~= Seq::<Seq<char>>::empty());
        assert(Seq::<Seq<char>>::empty() + lines_of(tail) =~= lines_of(tail));
    } else {
        let u = s.drop_last();
        let x = s.last();
        assert(snapshot_entry_fits(s[s.len() - 1]));
        lemma_export_body_shape(x);
        let t2 = export_line(x) + tail;
        assert forall|i: int| 0 <= i < u.len() implies snapshot_entry_fits(#[trigger] u[i]) by {
            assert(u[i] == s[i]);
        }
        lemma_lines_of_exports(u, t2);
        assert(export_lines(s) + tail =~= export_lines(u) + t2);
        assert(t2 =~= export_body(x) + seq!['\n'] + tail);
        lemma_lines_of_split(export_body(x), tail);
        assert(s.map_values(|kv: (Seq<char>, Seq<char>)| export_body(kv)) =~= u.map_values(
            |kv: (Seq<char>, Seq<char>)| export_body(kv),
        ) + seq![export_body(x)]);
    }
}

proof fn lemma_lookup_exports(s: Seq<(Seq<char>, Seq<char>)>, key: Seq<char>)
    requires
        forall|i: int| 0 <= i < s.len() ==> snapshot_entry_fits(#[trigger] s[i]),
    ensures
        match lookup_lines(s.map_values(|kv: (Seq<char>, Seq<char>)| export_body(kv)), key) {
            Some(v) => s.contains((key, v)),
            None => forall|i: int| 0 <= i < s.len() ==> (#[trigger] s[i]).0 != key,
        },
    decreases s.len(),
{
    let ls = s.map_values(|kv: (Seq<char>, Seq<char>)| export_body(kv));
    if s.len() > 0 {
        let u = s.drop_first();
        assert forall|i: int| 0 <= i < u.len() implies snapshot_entry_fits(#[trigger] u[i]) by {
            assert(u[i] == s[i + 1]);
        }
        lemma_lookup_exports(u, key);
        assert(snapshot_entry_fits(s[0]));
        lemma_parse_export_body(s[0], key);
        assert(ls[0] == export_body(s[0]));
        assert(ls.drop_first() =~= u.map_values(|kv: (Seq<char>, Seq<char>)| export_body(kv)));
        if s[0].0 == key {
            assert(s[0] == (key, s[0].1));
            assert(s.contains((key, s[0].1)));
        } else {
            match lookup_lines(ls.drop_first(), key) {
                Some(v) => {
                    let k = choose|k: int| 0 <= k < u.len() && u[k] == (key, v);
                    assert(s[k + 1] == (key, v));
                },
                None => {
                    assert forall|i: int| 0 <= i < s.len() implies (#[trigger] s[i]).0 != key by {
                        if i > 0 {
                            assert(s[i] == u[i - 1]);
                        }
                    }
                },
            }
        }
    }
}

proof fn lemma_sort_insert_contains(t: Seq<(Seq<char>, Seq<char>)>, x: (Seq<char>, Seq<char>), y: (Seq<char>, Seq<char>))
    ensures
        sort_insert(t, x).contains(y) <==> (t.contains(y) || y == x),
    decreases t.len(),
{
    if t.len() == 0 {
        assert(seq![x][0] == x);
    } else if str_less(x.0, t.last().0) {
        let u = t.drop_last();
        lemma_sort_insert_contains(u, x, y);
        let r = sort_insert(u, x);
        if r.push(t.last()).contains(y) {
            let k = choose|k: int| 0 <= k < r.push(t.last()).len() && r.push(t.last())[k] == y;
            if k < r.len() {
                assert(r[k] == y);
            } else {
                assert(t[t.len() - 1] == y);
            }
        }
        if t.contains(y) {
            let k = choose|k: int| 0 <= k < t.len() && t[k] == y;
            if k < u.len() {
                assert(u[k] == y);
                let k2 = choose|k2: int| 0 <= k2 < r.len() && r[k2] == y;
                assert(r.push(t.last())[k2] == y);
            } else {
                assert(r.push(t.last())[r.len() as int] == y);
            }
        }
        if y == x {
            let k2 = choose|k2: int| 0 <= k2 < r.len() && r[k2] == y;
            assert(r.push(t.last())[k2] == y);
        }
    } else {
        if t.push(x).contains(y) {
            let k = choose|k: int| 0 <= k < t.push(x).len() && t.push(x)[k] == y;
            if k < t.len() {
                assert(t[k] == y);
            }
        }
        if t.contains(y) {
            let k = choose|k: int| 0 <= k < t.len() && t[k] == y;
            assert(t.push(x)[k] == y);
        }
        assert(t.push(x)[t.len() as int] == x);
    }
}

proof fn lemma_sort_by_key_contains(s: Seq<(Seq<char>, Seq<char>)>, y: (Seq<char>, Seq<char>))
    ensures
        sort_by_key(s).contains(y) <==> s.contains(y),
    decreases s.len(),
{
    if s.len() > 0 {
        let u = s.drop_last();
        lemma_sort_by_key_contains(u, y);
        lemma_sort_insert_contains(sort_by_key(u), s.last(), y);
        if s.contains(y) {
            let k = choose|k: int| 0 <= k < s.len() && s[k] == y;
            if k < u.len() {
                assert(u[k] == y);
            }
        }
        if u.contains(y) {
            let k = choose|k: int| 0 <= k < u.len() && u[k] == y;
            assert(s[k] == y);
        }
    }
}

proof fn lemma_header_lines(rest: Seq<char>, key: Seq<char>)
    ensures
        lookup_lines(lines_of(snapshot_header() + rest), key) == lookup_lines(lines_of(rest), key),
{
    reveal_strlit("# Managed by Clicky. Do not edit manually.\n");
    let h = snapshot_header();
    let a = h.drop_last();
    assert(h.len() == 43);
    assert(h.last() == '\n');
    assert forall|k: int| 0 <= k < a.len() implies a[k] != '\n' by {
        assert(a[k] == h[k]);
    }
    assert(!a.contains('\n'));
    assert(h + rest =~= a + seq!['\n'] + rest);
    lemma_lines_of_split(a, rest);
    assert(a.last() == '.');
    assert(strip_cr(a) == a);
    assert(a[0] == '#');
    assert(!(a.len() >= 7 && a.take(7) == export_prefix())) by {
        assert(a.take(7)[0] == '#');
    }
    let ls = seq![a] + lines_of(rest);
    assert(ls[0] == a);
    assert(ls.drop_first() =~= lines_of(rest));
}

/// What a shell snapshot gives back: looking up a name in the snapshot of
/// `items` finds a value that `items` holds for that name, and finds nothing
/// when no entry has that name.
pub proof fn law_snapshot_reads_back(items: Seq<(Seq<char>, Seq<char>)>, key: Seq<char>)
    requires
        forall|i: int| 0 <= i < items.len() ==> snapshot_entry_fits(#[trigger] items[i]),
    ensures
        match spec_snapshot_lookup(spec_render_snapshot(items), key) {
            Some(v) => items.contains((key, v)),
            None => forall|i: int| 0 <= i < items.len() ==> (#[trigger] items[i]).0 != key,
        },
{
    let s = sort_by_key(items);
    assert forall|i: int| 0 <= i < s.len() implies snapshot_entry_fits(#[trigger] s[i]) by {
        assert(s.contains(s[i]));
        lemma_sort_by_key_contains(items, s[i]);
        let k = choose|k: int| 0 <= k < items.len() && items[k] == s[i];
        assert(snapshot_entry_fits(items[k]));
    }
    lemma_header_lines(export_lines(s), key);
    lemma_lines_of_exports(s, Seq::empty());
    assert(export_lines(s) + Seq::<char>::empty() =~= export_lines(s));
    assert(lines_of(Seq::<char>::empty()) =~= Seq::<Seq<char>>::empty());
    let ls = s.map_values(|kv: (Seq<char>, Seq<char>)| export_body(kv));
    assert(ls + Seq::<Seq<char>>::empty() =~= ls);
    lemma_lookup_exports(s, key);
    match lookup_lines(ls, key) {
        Some(v) => {
            lemma_sort_by_key_contains(items, (key, v));
        },
        None => {
            assert forall|i: int| 0 <= i < items.len() implies (#[trigger] items[i]).0 != key by {
                assert(items.contains(items[i]));
                lemma_sort_by_key_contains(items, items[i]);
                let k = choose|k: int| 0 <= k < s.len() && s[k] == items[i];
                assert(s[k].0 != key);
            }
        },
    }
}

} // verus!
