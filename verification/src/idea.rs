use vstd::prelude::*;
use crate::apply::entries_of;

verus! {

/// The line of one variable in an IDE environment file: `NAME=value`.
pub open spec fn env_file_line(kv: (String, String)) -> Seq<char> {
    kv.0@ + seq!['='] + kv.1@ + seq!['\n']
}

/// The lines of the variables, in order.
pub open spec fn env_file_lines(s: Seq<(String, String)>) -> Seq<char>
    decreases s.len(),
{
    if s.len() == 0 {
        Seq::empty()
    } else {
        env_file_lines(s.drop_last()) + env_file_line(s.last())
    }
}

/// The text of the IDE environment file (`idea/current.env`) for the
/// variables of an apply plan: one `NAME=value` line each, in the plan's order.
pub fn render_idea_env(entries: &Vec<(String, String)>) -> (r: String)
    ensures
        r@ == env_file_lines(entries@),
{
    let mut text = String::new();
    let n = entries.len();
    let mut i: usize = 0;
    proof {
        assert(entries@.take(0) =~= Seq::<(String, String)>::empty());
        assert(text@ =~= Seq::<char>::empty());
    }
    while i < n
        invariant
            n == entries@.len(),
            i <= n,
            text@ == env_file_lines(entries@.take(i as int)),
        decreases n - i,
    {
        let ghost before = text@;
        text.append(entries[i].0.as_str());
        text.append("=");
        text.append(entries[i].1.as_str());
        text.append("\n");
        proof {
            reveal_strlit("=");
            reveal_strlit("\n");
            assert(entries@.take(i + 1).drop_last() =~= entries@.take(i as int));
            assert(entries@.take(i + 1).last() == entries@[i as int]);
            assert(text@ =~= before + env_file_line(entries@[i as int]));
        }
        i = i + 1;
    }
    proof {
        assert(entries@.take(n as int) =~= entries@);
    }
    text
}

proof fn lemma_line_in_lines(s: Seq<(String, String)>, i: int)
    requires
        0 <= i < s.len(),
    ensures
        exists|p: int|
            0 <= p && p + env_file_line(s[i]).len() <= env_file_lines(s).len() && #[trigger] env_file_lines(s).subrange(
                p,
                p + env_file_line(s[i]).len(),
            ) == env_file_line(s[i]),
    decreases s.len(),
{
    let t = env_file_lines(s);
    let init = s.drop_last();
    let a = env_file_lines(init);
    if i == s.len() - 1 {
        let l = env_file_line(s[i]);
        assert(t.subrange(a.len() as int, a.len() + l.len() as int) =~= l);
    } else {
        lemma_line_in_lines(init, i);
        assert(init[i] == s[i]);
        let l = env_file_line(s[i]);
        let p = choose|p: int|
            0 <= p && p + l.len() <= a.len() && #[trigger] a.subrange(p, p + l.len()) == l;
        assert(t.subrange(p, p + l.len()) =~= a.subrange(p, p + l.len()));
    }
}

/// The IDE environment file of an apply plan has a `NAME=value` line for every
/// variable of the environment, with its value.
pub proof fn law_idea_env_lists_variables(entries: Seq<(String, String)>, vars: Map<Seq<char>, Seq<char>>, k: Seq<char>)
    requires
        entries_of(entries, vars),
        vars.contains_key(k),
    ensures
        exists|p: int|
            0 <= p && p + k.len() + vars[k].len() + 2 <= env_file_lines(entries).len() && #[trigger] env_file_lines(
                entries,
            ).subrange(p, p + k.len() + vars[k].len() + 2) == k + seq!['='] + vars[k] + seq!['\n'],
{
    let i = choose|i: int| 0 <= i < entries.len() && #[trigger] entries[i].0@ == k;
    assert(vars[entries[i].0@] == entries[i].1@);
    lemma_line_in_lines(entries, i);
    let l = env_file_line(entries[i]);
    assert(l == k + seq!['='] + vars[k] + seq!['\n']);
    assert(l.len() == k.len() + vars[k].len() + 2);
    let t = env_file_lines(entries);
    let p = choose|p: int| 0 <= p && p + l.len() <= t.len() && #[trigger] t.subrange(p, p + l.len()) == l;
    assert(t.subrange(p, p + k.len() + vars[k].len() + 2) == k + seq!['='] + vars[k] + seq!['\n']);
}

} // verus!
