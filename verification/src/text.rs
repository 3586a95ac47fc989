use vstd::prelude::*;
use vstd::string::*;

verus! {

/// Unicode `White_Space`: the characters that trimming removes.
pub open spec fn is_white_space(c: char) -> bool {
    let u = c as u32;
    ||| 0x9 <= u <= 0xD
    ||| u == 0x20
    ||| u == 0x85
    ||| u == 0xA0
    ||| u == 0x1680
    ||| 0x2000 <= u <= 0x200A
    ||| u == 0x2028
    ||| u == 0x2029
    ||| u == 0x202F
    ||| u == 0x205F
    ||| u == 0x3000
}

pub open spec fn trim_start(s: Seq<char>) -> Seq<char>
    decreases s.len(),
{
    if s.len() > 0 && is_white_space(s[0]) {
        trim_start(s.drop_first())
    } else {
        s
    }
}

pub open spec fn trim_end(s: Seq<char>) -> Seq<char>
    decreases s.len(),
{
    if s.len() > 0 && is_white_space(s.last()) {
        trim_end(s.drop_last())
    } else {
        s
    }
}

/// `s` without leading and trailing white space.
pub open spec fn trim(s: Seq<char>) -> Seq<char> {
    trim_end(trim_start(s))
}

/// Strict lexicographic order of strings by code point.
pub open spec fn str_less(a: Seq<char>, b: Seq<char>) -> bool
    decreases a.len(),
{
    if a.len() == 0 {
        b.len() > 0
    } else if b.len() == 0 {
        false
    } else if a[0] != b[0] {
        (a[0] as int) < (b[0] as int)
    } else {
        str_less(a.drop_first(), b.drop_first())
    }
}

pub proof fn lemma_str_less_transitive(a: Seq<char>, b: Seq<char>, c: Seq<char>)
    requires
        str_less(a, b),
        str_less(b, c),
    ensures
        str_less(a, c),
    decreases a.len(),
{
    if a.len() > 0 && b.len() > 0 && c.len() > 0 && a[0] == b[0] && b[0] == c[0] {
        lemma_str_less_transitive(a.drop_first(), b.drop_first(), c.drop_first());
    }
}

pub proof fn lemma_str_less_total(a: Seq<char>, b: Seq<char>)
    requires
        a != b,
    ensures
        str_less(a, b) || str_less(b, a),
    decreases a.len(),
{
    if a.len() > 0 && b.len() > 0 {
        if a[0] == b[0] {
            if a.drop_first() == b.drop_first() {
                assert(a =~= seq![a[0]] + a.drop_first());
                assert(b =~= seq![b[0]] + b.drop_first());
            }
            lemma_str_less_total(a.drop_first(), b.drop_first());
        }
    } else if a.len() == 0 && b.len() == 0 {
        assert(a =~= b);
    }
}

/// Whether `c` is Unicode white space.
pub fn char_is_white_space(c: char) -> (b: bool)
    ensures
        b == is_white_space(c),
{
    let u = c as u32;
    (0x9 <= u && u <= 0xD) || u == 0x20 || u == 0x85 || u == 0xA0 || u == 0x1680 || (0x2000 <= u
        && u <= 0x200A) || u == 0x2028 || u == 0x2029 || u == 0x202F || u == 0x205F || u == 0x3000
}

proof fn lemma_trim_start_skip(s: Seq<char>, i: int)
    requires
        0 <= i <= s.len(),
        forall|j: int| 0 <= j < i ==> is_white_space(#[trigger] s[j]),
    ensures
        trim_start(s) == trim_start(s.subrange(i, s.len() as int)),
    decreases i,
{
    if i > 0 {
        assert(is_white_space(s[0]));
        let t = s.drop_first();
        assert forall|j: int| 0 <= j < i - 1 implies is_white_space(#[trigger] t[j]) by {
            assert(t[j] == s[j + 1]);
        }
        lemma_trim_start_skip(t, i - 1);
        assert(t.subrange(i - 1, t.len() as int) =~= s.subrange(i, s.len() as int));
    } else {
        assert(s.subrange(0, s.len() as int) =~= s);
    }
}

proof fn lemma_trim_end_cut(s: Seq<char>, j: int)
    requires
        0 <= j <= s.len(),
        forall|k: int| j <= k < s.len() ==> is_white_space(#[trigger] s[k]),
    ensures
        trim_end(s) == trim_end(s.subrange(0, j)),
    decreases s.len() - j,
{
    if j < s.len() {
        assert(is_white_space(s.last()));
        let t = s.drop_last();
        lemma_trim_end_cut(t, j);
        assert(t.subrange(0, j) =~= s.subrange(0, j));
    } else {
        assert(s.subrange(0, j) =~= s);
    }
}

/// `s` without leading and trailing white space.
pub fn trim_string(s: &String) -> (r: String)
    ensures
        r@ == trim(s@),
{
    let st = s.as_str();
    let n = st.unicode_len();
    let mut i: usize = 0;
    while i < n && char_is_white_space(st.get_char(i))
        invariant
            n == st@.len(),
            st@ == s@,
            i <= n,
            forall|j: int| 0 <= j < i ==> is_white_space(#[trigger] s@[j]),
        decreases n - i,
    {
        i = i + 1;
    }
    proof {
        lemma_trim_start_skip(s@, i as int);
        let t = s@.subrange(i as int, n as int);
        if i < n {
            assert(t[0] == s@[i as int]);
            assert(!is_white_space(t[0]));
        }
        assert(trim_start(t) == t);
    }
    let mut j: usize = n;
    while j > i && char_is_white_space(st.get_char(j - 1))
        invariant
            n == st@.len(),
            st@ == s@,
            i <= j <= n,
            forall|k: int| j <= k < n ==> is_white_space(#[trigger] s@[k]),
        decreases j,
    {
        j = j - 1;
    }
    proof {
        let t = s@.subrange(i as int, n as int);
        assert forall|k: int| j - i <= k < t.len() implies is_white_space(#[trigger] t[k]) by {
            assert(t[k] == s@[i + k]);
        }
        lemma_trim_end_cut(t, j - i);
        let u = t.subrange(0, j - i);
        assert(u =~= s@.subrange(i as int, j as int));
        if j > i {
            assert(u.last() == s@[j - 1]);
        }
        assert(trim_end(u) == u);
    }
    st.substring_char(i, j).to_owned()
}

/// Strict lexicographic comparison by code point.
pub fn string_less(a: &String, b: &String) -> (r: bool)
    ensures
        r == str_less(a@, b@),
{
    let sa = a.as_str();
    let sb = b.as_str();
    let na = sa.unicode_len();
    let nb = sb.unicode_len();
    let mut i: usize = 0;
    assert(a@.subrange(0, na as int) =~= a@);
    assert(b@.subrange(0, nb as int) =~= b@);
    while i < na && i < nb
        invariant
            na == a@.len(),
            nb == b@.len(),
            sa@ == a@,
            sb@ == b@,
            i <= na,
            i <= nb,
            str_less(a@, b@) == str_less(a@.subrange(i as int, na as int), b@.subrange(i as int, nb as int)),
        decreases na - i,
    {
        let ca = sa.get_char(i);
        let cb = sb.get_char(i);
        let ghost ta = a@.subrange(i as int, na as int);
        let ghost tb = b@.subrange(i as int, nb as int);
        assert(ta[0] == ca);
        assert(tb[0] == cb);
        if ca != cb {
            let x = ca as u32;
            let y = cb as u32;
            assert(x as int == ca as int);
            assert(y as int == cb as int);
            return x < y;
        }
        assert(ta.drop_first() =~= a@.subrange(i + 1, na as int));
        assert(tb.drop_first() =~= b@.subrange(i + 1, nb as int));
        i = i + 1;
    }
    i < nb
}

/// The concatenation of three pieces of text.
pub fn concat3(a: &str, b: &str, c: &str) -> (r: String)
    ensures
        r@ == a@ + b@ + c@,
{
    let mut r = a.to_owned();
    r.append(b);
    r.append(c);
    r
}

/// The concatenation of five pieces of text.
pub fn concat5(a: &str, b: &str, c: &str, d: &str, e: &str) -> (r: String)
    ensures
        r@ == a@ + b@ + c@ + d@ + e@,
{
    let mut r = a.to_owned();
    r.append(b);
    r.append(c);
    r.append(d);
    r.append(e);
    r
}

/// The concatenation of seven pieces of text.
pub fn concat7(a: &str, b: &str, c: &str, d: &str, e: &str, f: &str, g: &str) -> (r: String)
    ensures
        r@ == a@ + b@ + c@ + d@ + e@ + f@ + g@,
{
    let mut r = a.to_owned();
    r.append(b);
    r.append(c);
    r.append(d);
    r.append(e);
    r.append(f);
    r.append(g);
    r
}

/// The decimal digit `d`.
pub open spec fn digit_char(d: int) -> char {
    seq!['0', '1', '2', '3', '4', '5', '6', '7', '8', '9'][d]
}

/// The decimal digits of `m`, without leading zeros.
pub open spec fn decimal(m: nat) -> Seq<char>
    decreases m,
{
    if m < 10 {
        seq![digit_char(m as int)]
    } else {
        decimal(m / 10) + seq![digit_char((m % 10) as int)]
    }
}

/// Appends the decimal digits of `m`.
pub fn append_decimal(out: &mut String, m: u64)
    ensures
        final(out)@ == old(out)@ + decimal(m as nat),
    decreases m,
{
    if m >= 10 {
        append_decimal(out, m / 10);
    }
    let d = (m % 10) as usize;
    let digits = "0123456789";
    proof {
        reveal_strlit("0123456789");
    }
    out.append(digits.substring_char(d, d + 1));
    proof {
        assert(digits@.subrange(d as int, d + 1) =~= seq![digit_char(d as int)]);
        if m < 10 {
            assert(d == m);
        }
    }
}

} // verus!
