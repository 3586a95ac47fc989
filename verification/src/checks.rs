use vstd::prelude::*;
use crate::messages::{msg_var_reused, var_reused_message};
use crate::model::{ConfigFile, ConfigView, GroupDef, GroupView, Item};

verus! {

/// Some environment of the group has variable `k`.
pub open spec fn group_uses(g: GroupView, k: Seq<char>) -> bool {
    exists|e: Seq<char>| #[trigger] g.environments.contains_key(e) && g.environments[e].variables.contains_key(k)
}

/// A variable name may occur in several environments of one group, but never
/// in two different groups.
pub open spec fn vars_unique_across_groups(c: ConfigView) -> bool {
    forall|g1: Seq<char>, g2: Seq<char>, k: Seq<char>|
        #![trigger group_uses(c.groups[g1], k), group_uses(c.groups[g2], k)]
        c.groups.contains_key(g1) && c.groups.contains_key(g2) && g1 != g2 && group_uses(c.groups[g1], k)
            ==> !group_uses(c.groups[g2], k)
}

/// `m` reports a variable that two different groups of `c` both use.
pub open spec fn reports_conflict(c: ConfigView, m: Seq<char>) -> bool {
    exists|k: Seq<char>, g1: Seq<char>, g2: Seq<char>|
        #![trigger msg_var_reused(k, g1, g2)]
        c.groups.contains_key(g1) && c.groups.contains_key(g2) && g1 != g2 && group_uses(c.groups[g1], k)
            && group_uses(c.groups[g2], k) && m == msg_var_reused(k, g1, g2)
}

/// Whether some environment of the group has variable `k`.
pub fn group_uses_key(g: &GroupDef, k: &String) -> (b: bool)
    requires
        g.environments.deep_wf(),
    ensures
        b == group_uses(g@, k@),
{
    let n = g.environments.size();
    let mut i: usize = 0;
    while i < n
        invariant
            n == g.environments.len(),
            g.environments.deep_wf(),
            i <= n,
            forall|j: int| 0 <= j < i ==> !(#[trigger] g.environments.value_at(j)).variables.contains_key(k@),
        decreases n - i,
    {
        let (name, e) = g.environments.entry(i);
        proof {
            g.environments.lemma_map_at(i as int);
            assert(g.environments.entry_seq()[i as int].1.inv());
        }
        if e.variables.contains_key(k) {
            proof {
                assert(g@.environments.contains_key(name@));
            }
            return true;
        }
        i = i + 1;
    }
    proof {
        assert forall|e: Seq<char>| #[trigger] g@.environments.contains_key(e) implies !g@.environments[e].variables.contains_key(k@) by {
            let j = g.environments.index_of(e);
            g.environments.lemma_map_at(j);
        }
    }
    false
}

/// Checks that no variable name is used by two different groups; the error
/// names one such variable and the two groups.
pub fn validate_group_variable_uniqueness(cfg: &ConfigFile) -> (r: Result<(), String>)
    requires
        cfg.wf(),
    ensures
        r is Ok <==> vars_unique_across_groups(cfg@),
        r matches Err(m) ==> reports_conflict(cfg@, m@),
{
    let groups = &cfg.groups;
    let n = groups.size();
    let mut i: usize = 0;
    while i < n
        invariant
            n == groups.len(),
            groups.deep_wf(),
            *groups == cfg.groups,
            i <= n,
            forall|a: int, b: int, k: Seq<char>|
                #![trigger group_uses(groups.value_at(a), k), group_uses(groups.value_at(b), k)]
                0 <= a < i && 0 <= b < i && a != b && group_uses(groups.value_at(a), k) ==> !group_uses(groups.value_at(b), k),
        decreases n - i,
    {
        let (gname, grp) = groups.entry(i);
        proof {
            groups.lemma_map_at(i as int);
            assert(groups.entry_seq()[i as int].1.inv());
        }
        let ne = grp.environments.size();
        let mut ei: usize = 0;
        while ei < ne
            invariant
                n == groups.len(),
                groups.deep_wf(),
                *groups == cfg.groups,
                i < n,
                *grp == groups.entry_seq()[i as int].1,
                grp.environments.deep_wf(),
                gname@ == groups.key_at(i as int),
                ne == grp.environments.len(),
                ei <= ne,
                forall|a: int, b: int, k: Seq<char>|
                    #![trigger group_uses(groups.value_at(a), k), group_uses(groups.value_at(b), k)]
                    0 <= a < i && 0 <= b < i && a != b && group_uses(groups.value_at(a), k) ==> !group_uses(groups.value_at(b), k),
                forall|e: int, k: Seq<char>, a: int|
                    #![trigger grp.environments.value_at(e).variables.contains_key(k), group_uses(groups.value_at(a), k)]
                    0 <= e < ei && grp.environments.value_at(e).variables.contains_key(k) && 0 <= a < i
                        ==> !group_uses(groups.value_at(a), k),
            decreases ne - ei,
        {
            let (_ename, env) = grp.environments.entry(ei);
            proof {
                assert(grp.environments.entry_seq()[ei as int].1.inv());
            }
            let nv = env.variables.size();
            let mut vi: usize = 0;
            while vi < nv
                invariant
                    n == groups.len(),
                    groups.deep_wf(),
                    *groups == cfg.groups,
                    i < n,
                    *grp == groups.entry_seq()[i as int].1,
                    grp.environments.deep_wf(),
                    gname@ == groups.key_at(i as int),
                    ei < ne,
                    ne == grp.environments.len(),
                    *env == grp.environments.entry_seq()[ei as int].1,
                    env.variables.wf(),
                    nv == env.variables.len(),
                    vi <= nv,
                    forall|v: int, a: int|
                        #![trigger env.variables.key_at(v), groups.value_at(a)]
                        0 <= v < vi && 0 <= a < i ==> !group_uses(groups.value_at(a), env.variables.key_at(v)),
                decreases nv - vi,
            {
                let (key, _val) = env.variables.entry(vi);
                let mut j: usize = 0;
                while j < i
                    invariant
                        n == groups.len(),
                        groups.deep_wf(),
                        *groups == cfg.groups,
                        i < n,
                        j <= i,
                        *grp == groups.entry_seq()[i as int].1,
                        grp.environments.deep_wf(),
                        gname@ == groups.key_at(i as int),
                        ei < ne,
                        ne == grp.environments.len(),
                        *env == grp.environments.entry_seq()[ei as int].1,
                        env.variables.wf(),
                        nv == env.variables.len(),
                        vi < nv,
                        key@ == env.variables.key_at(vi as int),
                        forall|a: int| 0 <= a < j ==> !group_uses(#[trigger] groups.value_at(a), key@),
                    decreases i - j,
                {
                    let (other_name, other) = groups.entry(j);
                    proof {
                        assert(groups.entry_seq()[j as int].1.inv());
                    }
                    if group_uses_key(other, key) {
                        proof {
                            groups.lemma_map_at(j as int);
                            assert(groups.key_at(j as int) != groups.key_at(i as int));
                            let ev = grp.environments.value_at(ei as int);
                            grp.environments.lemma_map_at(ei as int);
                            env.variables.lemma_map_at(vi as int);
                            assert(group_uses(groups.value_at(i as int), key@));
                            assert(cfg@.groups.contains_key(other_name@));
                            assert(reports_conflict(cfg@, msg_var_reused(key@, other_name@, gname@)));
                        }
                        return Err(var_reused_message(key, other_name, gname));
                    }
                    j = j + 1;
                }
                vi = vi + 1;
            }
            proof {
                assert forall|k: Seq<char>, a: int|
                    #![trigger grp.environments.value_at(ei as int).variables.contains_key(k), group_uses(groups.value_at(a), k)]
                    grp.environments.value_at(ei as int).variables.contains_key(k) && 0 <= a < i
                        implies !group_uses(groups.value_at(a), k) by {
                    let v = env.variables.index_of(k);
                    assert(env.variables.key_at(v) == k);
                    assert(groups.value_at(a) == groups.value_at(a));
                }
            }
            ei = ei + 1;
        }
        proof {
            assert forall|a: int, b: int, k: Seq<char>|
                #![trigger group_uses(groups.value_at(a), k), group_uses(groups.value_at(b), k)]
                0 <= a < i + 1 && 0 <= b < i + 1 && a != b && group_uses(groups.value_at(a), k)
                    implies !group_uses(groups.value_at(b), k) by {
                if a == i || b == i {
                    let gv = groups.value_at(i as int);
                    if group_uses(gv, k) {
                        let e = choose|e: Seq<char>| #[trigger] gv.environments.contains_key(e) && gv.environments[e].variables.contains_key(k);
                        let ix = grp.environments.index_of(e);
                        grp.environments.lemma_map_at(ix);
                        assert(grp.environments.value_at(ix).variables.contains_key(k));
                        let other = if a == i { b } else { a };
                        assert(!group_uses(groups.value_at(other), k));
                    }
                }
            }
        }
        i = i + 1;
    }
    proof {
        assert forall|g1: Seq<char>, g2: Seq<char>, k: Seq<char>|
            #![trigger group_uses(cfg@.groups[g1], k), group_uses(cfg@.groups[g2], k)]
            cfg@.groups.contains_key(g1) && cfg@.groups.contains_key(g2) && g1 != g2 && group_uses(cfg@.groups[g1], k)
                implies !group_uses(cfg@.groups[g2], k) by {
            let a = groups.index_of(g1);
            let b = groups.index_of(g2);
            groups.lemma_map_at(a);
            groups.lemma_map_at(b);
        }
    }
    Ok(())
}

} // verus!
