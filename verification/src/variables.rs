use vstd::prelude::*;
use crate::checks::{group_uses, reports_conflict, validate_group_variable_uniqueness, vars_unique_across_groups};
use crate::editing::{new_group_view, with_groups};
use crate::messages::{env_description, env_description_text, group_description_text};
use crate::model::{ConfigFile, ConfigView, EnvDef, EnvView, GroupDef, GroupView, HooksDef, Item};
use crate::strmap::StrMap;

verus! {

/// The variable names used anywhere in the group.
pub open spec fn group_keys(g: GroupView) -> Set<Seq<char>> {
    Set::new(|k: Seq<char>| group_uses(g, k))
}

/// The environment with every name of `keys` it lacks added, with an empty value.
pub open spec fn pad_env(e: EnvView, keys: Set<Seq<char>>) -> EnvView {
    EnvView {
        description: e.description,
        variables: Map::new(
            |k: Seq<char>| keys.contains(k) || e.variables.contains_key(k),
            |k: Seq<char>|
                if e.variables.contains_key(k) {
                    e.variables[k]
                } else {
                    Seq::empty()
                },
        ),
        hooks: e.hooks,
    }
}

/// Every environment of the group keyed by the same set of names.
pub open spec fn spec_normalize_keys(g: GroupView) -> GroupView {
    GroupView {
        description: g.description,
        environments: g.environments.map_values(|e: EnvView| pad_env(e, group_keys(g))),
    }
}

/// The names of `keys` are distinct and are exactly `set`.
pub open spec fn lists_set(keys: Seq<String>, set: Set<Seq<char>>) -> bool {
    &&& forall|a: int, b: int| 0 <= a < keys.len() && 0 <= b < keys.len() && a != b ==> #[trigger] keys[a]@ != #[trigger] keys[b]@
    &&& forall|a: int| 0 <= a < keys.len() ==> set.contains(#[trigger] keys[a]@)
    &&& forall|k: Seq<char>| #[trigger] set.contains(k) ==> exists|a: int| 0 <= a < keys.len() && #[trigger] keys[a]@ == k
}

fn push_if_absent(keys: &mut Vec<String>, k: &String)
    ensures
        forall|a: int| 0 <= a < old(keys)@.len() ==> #[trigger] final(keys)@[a] == old(keys)@[a],
        (exists|a: int| 0 <= a < old(keys)@.len() && #[trigger] old(keys)@[a]@ == k@) ==> final(keys)@ == old(keys)@,
        final(keys)@.len() <= old(keys)@.len() + 1,
        !(exists|a: int| 0 <= a < old(keys)@.len() && #[trigger] old(keys)@[a]@ == k@) ==> final(keys)@.len() == old(keys)@.len() + 1 && final(keys)@.last()@ == k@,
{
    let mut i: usize = 0;
    while i < keys.len()
        invariant
            i <= keys@.len(),
            keys@ == old(keys)@,
            forall|a: int| 0 <= a < i ==> #[trigger] keys@[a]@ != k@,
        decreases keys@.len() - i,
    {
        if keys[i] == *k {
            return;
        }
        i = i + 1;
    }
    keys.push(k.clone());
}

/// The variable names used anywhere in the group, each once.
pub fn collect_group_keys(g: &GroupDef) -> (keys: Vec<String>)
    requires
        g.inv(),
    ensures
        lists_set(keys@, group_keys(g@)),
{
    let n = g.environments.size();
    let mut keys: Vec<String> = Vec::new();
    let mut ei: usize = 0;
    while ei < n
        invariant
            n == g.environments.len(),
            g.environments.deep_wf(),
            ei <= n,
            lists_set(keys@, Set::new(|k: Seq<char>| exists|e: int| 0 <= e < ei && #[trigger] g.environments.value_at(e).variables.contains_key(k))),
        decreases n - ei,
    {
        let (_name, env) = g.environments.entry(ei);
        proof {
            assert(g.environments.entry_seq()[ei as int].1.inv());
        }
        let nv = env.variables.size();
        let mut vi: usize = 0;
        proof {
            let s0 = Set::new(|k: Seq<char>| exists|e: int| 0 <= e < ei && #[trigger] g.environments.value_at(e).variables.contains_key(k));
            let s1 = Set::new(|k: Seq<char>|
                    (exists|e: int| 0 <= e < ei && #[trigger] g.environments.value_at(e).variables.contains_key(k))
                    || (exists|v: int| 0 <= v < 0 && #[trigger] env.variables.key_at(v) == k));
            assert(s0 =~= s1);
        }
        while vi < nv
            invariant
                n == g.environments.len(),
                g.environments.deep_wf(),
                ei < n,
                *env == g.environments.entry_seq()[ei as int].1,
                env.variables.wf(),
                nv == env.variables.len(),
                vi <= nv,
                lists_set(keys@, Set::new(|k: Seq<char>|
                    (exists|e: int| 0 <= e < ei && #[trigger] g.environments.value_at(e).variables.contains_key(k))
                    || (exists|v: int| 0 <= v < vi && #[trigger] env.variables.key_at(v) == k))),
            decreases nv - vi,
        {
            let (k, _v) = env.variables.entry(vi);
            let ghost before = keys@;
            let ghost s_old = Set::new(|x: Seq<char>|
                    (exists|e: int| 0 <= e < ei && #[trigger] g.environments.value_at(e).variables.contains_key(x))
                    || (exists|v: int| 0 <= v < vi && #[trigger] env.variables.key_at(v) == x));
            let ghost s_new = Set::new(|x: Seq<char>|
                    (exists|e: int| 0 <= e < ei && #[trigger] g.environments.value_at(e).variables.contains_key(x))
                    || (exists|v: int| 0 <= v < vi + 1 && #[trigger] env.variables.key_at(v) == x));
            push_if_absent(&mut keys, k);
            proof {
                assert(s_new.contains(k@));
                assert forall|x: Seq<char>| #[trigger] s_new.contains(x) implies s_old.contains(x) || x == k@ by {
                    if !s_old.contains(x) {
                        let v = choose|v: int| 0 <= v < vi + 1 && #[trigger] env.variables.key_at(v) == x;
                        if v < vi {
                            assert(s_old.contains(x));
                        }
                    }
                }
                assert forall|x: Seq<char>| #[trigger] s_old.contains(x) implies s_new.contains(x) by {
                    if exists|v: int| 0 <= v < vi && #[trigger] env.variables.key_at(v) == x {
                        let v = choose|v: int| 0 <= v < vi && #[trigger] env.variables.key_at(v) == x;
                        assert(env.variables.key_at(v) == x);
                    }
                }
                if exists|a: int| 0 <= a < before.len() && #[trigger] before[a]@ == k@ {
                    assert(keys@ == before);
                } else {
                    assert forall|x: Seq<char>| #[trigger] s_new.contains(x) implies exists|a: int| 0 <= a < keys@.len() && #[trigger] keys@[a]@ == x by {
                        if x == k@ {
                            assert(keys@[before.len() as int]@ == x);
                        } else {
                            assert(s_old.contains(x));
                            let a = choose|a: int| 0 <= a < before.len() && #[trigger] before[a]@ == x;
                            assert(keys@[a] == before[a]);
                        }
                    }
                    assert forall|a: int| 0 <= a < keys@.len() implies s_new.contains(#[trigger] keys@[a]@) by {
                        if a < before.len() {
                            assert(keys@[a] == before[a]);
                            assert(s_old.contains(before[a]@));
                        }
                    }
                }
            }
            vi = vi + 1;
        }
        proof {
            let s_old = Set::new(|x: Seq<char>|
                    (exists|e: int| 0 <= e < ei && #[trigger] g.environments.value_at(e).variables.contains_key(x))
                    || (exists|v: int| 0 <= v < nv && #[trigger] env.variables.key_at(v) == x));
            let s_new = Set::new(|x: Seq<char>| exists|e: int| 0 <= e < ei + 1 && #[trigger] g.environments.value_at(e).variables.contains_key(x));
            assert forall|x: Seq<char>| #[trigger] s_new.contains(x) <==> s_old.contains(x) by {
                if s_new.contains(x) {
                    let e = choose|e: int| 0 <= e < ei + 1 && #[trigger] g.environments.value_at(e).variables.contains_key(x);
                    if e == ei {
                        let v = env.variables.index_of(x);
                        assert(env.variables.key_at(v) == x);
                    }
                }
                if s_old.contains(x) {
                    if exists|v: int| 0 <= v < nv && #[trigger] env.variables.key_at(v) == x {
                        let v = choose|v: int| 0 <= v < nv && #[trigger] env.variables.key_at(v) == x;
                        env.variables.lemma_map_at(v);
                        assert(g.environments.value_at(ei as int).variables.contains_key(x));
                    }
                }
            }
            assert(s_new =~= s_old);
        }
        ei = ei + 1;
    }
    proof {
        let s = Set::new(|k: Seq<char>| exists|e: int| 0 <= e < n && #[trigger] g.environments.value_at(e).variables.contains_key(k));
        assert forall|x: Seq<char>| #[trigger] s.contains(x) <==> group_keys(g@).contains(x) by {
            if s.contains(x) {
                let e = choose|e: int| 0 <= e < n && #[trigger] g.environments.value_at(e).variables.contains_key(x);
                g.environments.lemma_map_at(e);
                assert(g@.environments.contains_key(g.environments.key_at(e)));
            }
            if group_uses(g@, x) {
                let en = choose|en: Seq<char>| #[trigger] g@.environments.contains_key(en) && g@.environments[en].variables.contains_key(x);
                let e = g.environments.index_of(en);
                g.environments.lemma_map_at(e);
            }
        }
        assert(s =~= group_keys(g@));
    }
    keys
}

/// Gives every environment of the group every variable name used in the
/// group; a missing variable gets an empty value.
pub fn normalize_group_variable_keys(group: &mut GroupDef)
    requires
        old(group).inv(),
    ensures
        final(group).inv(),
        final(group)@ == spec_normalize_keys(old(group)@),
{
    let keys = collect_group_keys(group);
    let ghost gk = group_keys(group@);
    let ghost orig = group.environments;
    let n = group.environments.size();
    let mut ei: usize = 0;
    while ei < n
        invariant
            n == group.environments.len(),
            n == orig.len(),
            orig.deep_wf(),
            group.environments.deep_wf(),
            group.description == old(group).description,
            orig == old(group).environments,
            lists_set(keys@, gk),
            ei <= n,
            forall|j: int| 0 <= j < n ==> #[trigger] group.environments.key_at(j) == orig.key_at(j),
            forall|j: int| 0 <= j < n ==> #[trigger] group.environments.value_at(j) == if j < ei {
                pad_env(orig.value_at(j), gk)
            } else {
                orig.value_at(j)
            },
        decreases n - ei,
    {
        let ghost before = group.environments;
        proof {
            assert(before.entry_seq()[ei as int].1.inv());
        }
        let env = group.environments.value_mut(ei);
        let ghost env0 = *env;
        let nk = keys.len();
        let mut ki: usize = 0;
        while ki < nk
            invariant
                nk == keys@.len(),
                ki <= nk,
                env.variables.wf(),
                env.description == env0.description,
                env.hooks == env0.hooks,
                lists_set(keys@, gk),
                env.variables@ == Map::new(
                    |k: Seq<char>| (exists|a: int| 0 <= a < ki && #[trigger] keys@[a]@ == k) || env0.variables@.contains_key(k),
                    |k: Seq<char>| if env0.variables@.contains_key(k) { env0.variables@[k] } else { Seq::<char>::empty() },
                ),
            decreases nk - ki,
        {
            let k = &keys[ki];
            let ghost m_old = env.variables@;
            if !env.variables.contains_key(k) {
                env.variables.insert(k.clone(), String::new());
            }
            proof {
                let target = Map::new(
                    |x: Seq<char>| (exists|a: int| 0 <= a < ki + 1 && #[trigger] keys@[a]@ == x) || env0.variables@.contains_key(x),
                    |x: Seq<char>| if env0.variables@.contains_key(x) { env0.variables@[x] } else { Seq::<char>::empty() },
                );
                assert forall|x: Seq<char>| #[trigger] env.variables@.contains_key(x) <==> target.contains_key(x) by {
                    if exists|a: int| 0 <= a < ki && #[trigger] keys@[a]@ == x {
                        let a = choose|a: int| 0 <= a < ki && #[trigger] keys@[a]@ == x;
                        assert(keys@[a]@ == x);
                    }
                    if exists|a: int| 0 <= a < ki + 1 && #[trigger] keys@[a]@ == x {
                        let a = choose|a: int| 0 <= a < ki + 1 && #[trigger] keys@[a]@ == x;
                        if a < ki {
                            assert(m_old.contains_key(x));
                        }
                    }
                }
                assert(env.variables@ =~= target);
            }
            ki = ki + 1;
        }
        let ghost env1 = *env;
        proof {
            assert(env1.deep_view() == pad_env(env0.deep_view(), gk)) by {
                assert forall|x: Seq<char>| (exists|a: int| 0 <= a < nk && #[trigger] keys@[a]@ == x) <==> gk.contains(x) by {
                    if gk.contains(x) {
                        let a = choose|a: int| 0 <= a < keys@.len() && #[trigger] keys@[a]@ == x;
                    }
                }
                assert(env1.variables@ =~= pad_env(env0.deep_view(), gk).variables);
            }
            assert(env1.inv());
            StrMap::lemma_deep_update(before, group.environments, ei as int, env1);
            assert forall|j: int| 0 <= j < n implies #[trigger] group.environments.key_at(j) == orig.key_at(j) by {
                assert(group.environments.pairs()[j] == before.pairs().update(ei as int, (before.key_at(ei as int), env1.deep_view()))[j]);
                assert(before.pairs()[j].0 == before.key_at(j));
            }
            assert forall|j: int| 0 <= j < n implies #[trigger] group.environments.value_at(j) == if j < ei + 1 {
                pad_env(orig.value_at(j), gk)
            } else {
                orig.value_at(j)
            } by {
                assert(group.environments.pairs()[j] == before.pairs().update(ei as int, (before.key_at(ei as int), env1.deep_view()))[j]);
                assert(before.pairs()[j].1 == before.value_at(j));
            }
        }
        ei = ei + 1;
    }
    proof {
        let target = spec_normalize_keys(old(group)@);
        assert(gk == group_keys(old(group)@));
        assert forall|x: Seq<char>| #[trigger] group.environments@.contains_key(x) <==> target.environments.contains_key(x) by {
            if group.environments.has_key(x) {
                let j = group.environments.index_of(x);
                assert(orig.key_at(j) == x);
            }
            if orig.has_key(x) {
                let j = orig.index_of(x);
                assert(group.environments.key_at(j) == x);
            }
        }
        assert forall|x: Seq<char>| #[trigger] group.environments@.contains_key(x) implies group.environments@[x] == target.environments[x] by {
            let j = group.environments.index_of(x);
            group.environments.lemma_map_at(j);
            assert(orig.key_at(j) == x);
            orig.lemma_map_at(j);
        }
        assert(group.environments@ =~= target.environments);
        assert(group@ =~= target);
    }
}

/// The configuration after the variables of one environment are replaced.
/// The group and the environment are created when missing; afterwards every
/// environment of the group has every variable name used in the group.
pub open spec fn spec_saved(c: ConfigView, g: Seq<char>, e: Seq<char>, vars: Map<Seq<char>, Seq<char>>) -> ConfigView {
    let groups1 = if c.groups.contains_key(g) { c.groups } else { c.groups.insert(g, new_group_view(g)) };
    let grp = groups1[g];
    let env = if grp.environments.contains_key(e) {
        EnvView { description: grp.environments[e].description, variables: vars, hooks: grp.environments[e].hooks }
    } else {
        EnvView { description: Some(env_description(e)), variables: vars, hooks: Some(None) }
    };
    let grp2 = spec_normalize_keys(GroupView { description: grp.description, environments: grp.environments.insert(e, env) });
    with_groups(c, groups1.insert(g, grp2))
}

/// Replaces the variables of one environment (names taken as given). The
/// configuration is updated in any case; the result is an error exactly when
/// the update makes a variable name appear in two groups.
pub fn save_environment_variables(cfg: &mut ConfigFile, group_name: String, env_name: String, variables: StrMap<String>) -> (r: Result<(), String>)
    requires
        old(cfg).wf(),
        variables.wf(),
    ensures
        final(cfg).wf(),
        final(cfg)@ == spec_saved(old(cfg)@, group_name@, env_name@, variables@),
        r is Ok <==> vars_unique_across_groups(final(cfg)@),
        r matches Err(m) ==> reports_conflict(final(cfg)@, m@),
{
    let ghost c0 = cfg@;
    if !cfg.groups.contains_key(&group_name) {
        let desc = group_description_text(&group_name);
        let g = GroupDef { description: Some(desc), environments: StrMap::new() };
        proof {
            assert(g.environments@ =~= Map::<Seq<char>, EnvView>::empty());
        }
        cfg.groups.put(group_name.clone(), g);
    }
    let gi = cfg.groups.find(&group_name).unwrap();
    let ghost before = cfg.groups;
    proof {
        before.lemma_map_at(gi as int);
        assert(before.entry_seq()[gi as int].1.inv());
    }
    let grp = cfg.groups.value_mut(gi);
    let existing = match grp.environments.get(&env_name) {
        Some(e) => {
            proof {
                grp.environments.lemma_value_inv(env_name@);
            }
            Some(e.duplicate())
        },
        None => None,
    };
    let ghost vv = variables@;
    let updated = match existing {
        Some(mut env) => {
            env.variables = variables;
            env
        },
        None => EnvDef {
            description: Some(env_description_text(&env_name)),
            variables,
            hooks: Some(HooksDef { post: None }),
        },
    };
    grp.environments.put(env_name, updated);
    normalize_group_variable_keys(grp);
    let ghost grp_final = *grp;
    proof {
        StrMap::lemma_deep_update(before, cfg.groups, gi as int, grp_final);
        assert(cfg@ =~= spec_saved(c0, group_name@, env_name@, vv));
    }
    validate_group_variable_uniqueness(cfg)
}

} // verus!
