use vstd::prelude::*;
use crate::messages::{env_not_found_message, group_not_found_message, msg_env_not_found, msg_group_not_found};
use crate::model::{duplicate_opt_string, ConfigFile, EnvView, GroupView, Item};
use crate::sorting::{insert_sorted, sorted_by_name, Named};
use crate::strmap::StrMap;

verus! {

/// One line of the group list.
pub struct GroupSummary {
    pub name: String,
    pub description: Option<String>,
    pub env_count: usize,
}

impl Named for GroupSummary {
    open spec fn name_view(&self) -> Seq<char> {
        self.name@
    }

    fn name(&self) -> (r: &String) {
        &self.name
    }
}

/// One line of the environment list of a group.
pub struct EnvSummary {
    pub group: String,
    pub name: String,
    pub description: Option<String>,
    pub var_count: usize,
}

impl Named for EnvSummary {
    open spec fn name_view(&self) -> Seq<char> {
        self.name@
    }

    fn name(&self) -> (r: &String) {
        &self.name
    }
}

/// `k` is one of `names`.
pub open spec fn names_key(names: Seq<String>, k: Seq<char>) -> bool {
    exists|a: int| 0 <= a < names.len() && #[trigger] names[a]@ == k
}

/// `names` lists the keys of `m`, each once.
pub open spec fn lists_keys<V>(names: Seq<String>, m: Map<Seq<char>, V>) -> bool {
    &&& forall|i: int| 0 <= i < names.len() ==> m.contains_key(#[trigger] names[i]@)
    &&& forall|k: Seq<char>| #[trigger] m.contains_key(k) ==> exists|i: int| 0 <= i < names.len() && #[trigger] names[i]@ == k
}

/// The keys of `m` in name order.
pub fn sorted_keys<V: DeepView>(m: &StrMap<V>) -> (r: Vec<String>)
    requires
        m.wf(),
    ensures
        sorted_by_name(r@),
        r@.len() == m.len(),
        lists_keys(r@, m@),
{
    let n = m.size();
    let mut r: Vec<String> = Vec::new();
    let mut i: usize = 0;
    while i < n
        invariant
            n == m.len(),
            m.wf(),
            i <= n,
            r@.len() == i,
            sorted_by_name(r@),
            forall|a: int| #![trigger r@[a]] 0 <= a < r@.len() ==> exists|j: int| 0 <= j < i && #[trigger] m.key_at(j) == r@[a]@,
            forall|j: int| 0 <= j < i ==> exists|a: int| 0 <= a < r@.len() && r@[a]@ == #[trigger] m.key_at(j),
        decreases n - i,
    {
        let (k, _v) = m.entry(i);
        let key = k.clone();
        let ghost before = r@;
        proof {
            assert forall|a: int| 0 <= a < before.len() implies #[trigger] before[a].name_view() != key.name_view() by {
                let j = choose|j: int| 0 <= j < i && #[trigger] m.key_at(j) == before[a]@;
                assert(m.key_at(j) != m.key_at(i as int));
            }
        }
        insert_sorted(&mut r, key);
        proof {
            let p = choose|p: int| 0 <= p <= before.len() && r@ == before.insert(p, key);
            assert forall|a: int| #![trigger r@[a]] 0 <= a < r@.len() implies exists|j: int| 0 <= j < i + 1 && #[trigger] m.key_at(j) == r@[a]@ by {
                if a < p {
                    assert(r@[a] == before[a]);
                    let j = choose|j: int| 0 <= j < i && #[trigger] m.key_at(j) == before[a]@;
                    assert(m.key_at(j) == r@[a]@);
                } else if a == p {
                    assert(m.key_at(i as int) == r@[a]@);
                } else {
                    assert(r@[a] == before[a - 1]);
                    let j = choose|j: int| 0 <= j < i && #[trigger] m.key_at(j) == before[a - 1]@;
                    assert(m.key_at(j) == r@[a]@);
                }
            }
            assert forall|j: int| 0 <= j < i + 1 implies exists|a: int| 0 <= a < r@.len() && r@[a]@ == #[trigger] m.key_at(j) by {
                if j < i {
                    let a = choose|a: int| 0 <= a < before.len() && before[a]@ == #[trigger] m.key_at(j);
                    if a < p {
                        assert(r@[a] == before[a]);
                    } else {
                        assert(r@[a + 1] == before[a]);
                    }
                } else {
                    assert(r@[p] == key);
                }
            }
        }
        i = i + 1;
    }
    proof {
        assert forall|a: int| 0 <= a < r@.len() implies m@.contains_key(#[trigger] r@[a]@) by {
            let j = choose|j: int| 0 <= j < n && #[trigger] m.key_at(j) == r@[a]@;
            m.lemma_map_at(j);
        }
        assert forall|k: Seq<char>| #[trigger] m@.contains_key(k) implies exists|a: int| 0 <= a < r@.len() && #[trigger] r@[a]@ == k by {
            let j = m.index_of(k);
            assert(m.key_at(j) == k);
            let a = choose|a: int| 0 <= a < r@.len() && r@[a]@ == #[trigger] m.key_at(j);
        }
    }
    r
}

/// The number of groups, environments of each group and so on: the number of keys of a map.
pub open spec fn count<V>(m: Map<Seq<char>, V>) -> nat {
    m.dom().len()
}

pub open spec fn describes_group(s: GroupSummary, c: Map<Seq<char>, GroupView>) -> bool {
    &&& c.contains_key(s.name@)
    &&& s.description.deep_view() == c[s.name@].description
    &&& s.env_count == count(c[s.name@].environments)
}

/// The groups in name order, each with its description and number of environments.
pub fn list_groups(cfg: &ConfigFile) -> (r: Vec<GroupSummary>)
    requires
        cfg.wf(),
    ensures
        sorted_by_name(r@),
        r@.len() == count(cfg@.groups),
        forall|i: int| 0 <= i < r@.len() ==> describes_group(#[trigger] r@[i], cfg@.groups),
        forall|k: Seq<char>| #[trigger] cfg@.groups.contains_key(k) ==> exists|i: int| 0 <= i < r@.len() && #[trigger] r@[i].name@ == k,
{
    let names = sorted_keys(&cfg.groups);
    let mut r: Vec<GroupSummary> = Vec::new();
    let mut i: usize = 0;
    while i < names.len()
        invariant
            cfg.wf(),
            i <= names@.len(),
            r@.len() == i,
            lists_keys(names@, cfg@.groups),
            forall|a: int| 0 <= a < i ==> #[trigger] r@[a].name@ == names@[a]@,
            forall|a: int| 0 <= a < i ==> describes_group(#[trigger] r@[a], cfg@.groups),
        decreases names@.len() - i,
    {
        let name = &names[i];
        let g = cfg.groups.get(name);
        proof {
            assert(cfg@.groups.contains_key(names@[i as int]@));
        }
        let g = g.unwrap();
        proof {
            cfg.groups.lemma_value_inv(name@);
            g.environments.lemma_dom_len();
        }
        let s = GroupSummary {
            name: name.clone(),
            description: duplicate_opt_string(&g.description),
            env_count: g.environments.size(),
        };
        r.push(s);
        i = i + 1;
    }
    proof {
        cfg.groups.lemma_dom_len();
        assert forall|a: int, b: int| 0 <= a < b < r@.len() implies crate::text::str_less(#[trigger] r@[a].name_view(), #[trigger] r@[b].name_view()) by {
            assert(crate::text::str_less(names@[a].name_view(), names@[b].name_view()));
        }
        assert forall|k: Seq<char>| #[trigger] cfg@.groups.contains_key(k) implies exists|i: int| 0 <= i < r@.len() && #[trigger] r@[i].name@ == k by {
            let a = choose|a: int| 0 <= a < names@.len() && #[trigger] names@[a]@ == k;
            assert(r@[a].name@ == k);
        }
    }
    r
}

pub open spec fn describes_env(s: EnvSummary, group: Seq<char>, envs: Map<Seq<char>, EnvView>) -> bool {
    &&& s.group@ == group
    &&& envs.contains_key(s.name@)
    &&& s.description.deep_view() == envs[s.name@].description
    &&& s.var_count == count(envs[s.name@].variables)
}

/// The environments of a group in name order, each with its description and
/// number of variables. The group is looked up by the name as given.
pub fn list_environments(cfg: &ConfigFile, group_name: String) -> (r: Result<Vec<EnvSummary>, String>)
    requires
        cfg.wf(),
    ensures
        !cfg@.groups.contains_key(group_name@) ==> (r matches Err(e) && e@ == msg_group_not_found(group_name@)),
        cfg@.groups.contains_key(group_name@) ==> (r matches Ok(list) && {
            let envs = cfg@.groups[group_name@].environments;
            &&& sorted_by_name(list@)
            &&& list@.len() == count(envs)
            &&& forall|i: int| 0 <= i < list@.len() ==> describes_env(#[trigger] list@[i], group_name@, envs)
            &&& forall|k: Seq<char>| #[trigger] envs.contains_key(k) ==> exists|i: int| 0 <= i < list@.len() && #[trigger] list@[i].name@ == k
        }),
{
    let g = match cfg.groups.get(&group_name) {
        Some(g) => g,
        None => {
            return Err(group_not_found_message(&group_name));
        },
    };
    proof {
        cfg.groups.lemma_value_inv(group_name@);
    }
    let ghost envs = g.environments@;
    let names = sorted_keys(&g.environments);
    let mut r: Vec<EnvSummary> = Vec::new();
    let mut i: usize = 0;
    while i < names.len()
        invariant
            g.environments.deep_wf(),
            envs == g.environments@,
            i <= names@.len(),
            r@.len() == i,
            lists_keys(names@, envs),
            forall|a: int| 0 <= a < i ==> #[trigger] r@[a].name@ == names@[a]@,
            forall|a: int| 0 <= a < i ==> describes_env(#[trigger] r@[a], group_name@, envs),
        decreases names@.len() - i,
    {
        let name = &names[i];
        proof {
            assert(envs.contains_key(names@[i as int]@));
        }
        let e = g.environments.get(name).unwrap();
        proof {
            g.environments.lemma_value_inv(name@);
            e.variables.lemma_dom_len();
        }
        let s = EnvSummary {
            group: group_name.clone(),
            name: name.clone(),
            description: duplicate_opt_string(&e.description),
            var_count: e.variables.size(),
        };
        r.push(s);
        i = i + 1;
    }
    proof {
        g.environments.lemma_dom_len();
        assert forall|a: int, b: int| 0 <= a < b < r@.len() implies crate::text::str_less(#[trigger] r@[a].name_view(), #[trigger] r@[b].name_view()) by {
            assert(crate::text::str_less(names@[a].name_view(), names@[b].name_view()));
        }
        assert forall|k: Seq<char>| #[trigger] envs.contains_key(k) implies exists|i: int| 0 <= i < r@.len() && #[trigger] r@[i].name@ == k by {
            let a = choose|a: int| 0 <= a < names@.len() && #[trigger] names@[a]@ == k;
            assert(r@[a].name@ == k);
        }
    }
    Ok(r)
}

/// The variables of one environment, looked up by the names as given.
pub fn get_environment_variables(cfg: &ConfigFile, group_name: String, env_name: String) -> (r: Result<
    StrMap<String>,
    String,
>)
    requires
        cfg.wf(),
    ensures
        !cfg@.groups.contains_key(group_name@) ==> (r matches Err(e) && e@ == msg_group_not_found(group_name@)),
        cfg@.groups.contains_key(group_name@) && !cfg@.groups[group_name@].environments.contains_key(env_name@)
            ==> (r matches Err(e) && e@ == msg_env_not_found(env_name@, group_name@)),
        cfg@.groups.contains_key(group_name@) && cfg@.groups[group_name@].environments.contains_key(env_name@)
            ==> (r matches Ok(vars) && vars.wf() && vars@ == cfg@.groups[group_name@].environments[env_name@].variables),
{
    let g = match cfg.groups.get(&group_name) {
        Some(g) => g,
        None => {
            return Err(group_not_found_message(&group_name));
        },
    };
    proof {
        cfg.groups.lemma_value_inv(group_name@);
    }
    match g.environments.get(&env_name) {
        Some(e) => {
            proof {
                g.environments.lemma_value_inv(env_name@);
            }
            Ok(e.variables.duplicate_map())
        },
        None => Err(env_not_found_message(&env_name, &group_name)),
    }
}

/// Every variable of the environment currently has the environment's value.
pub open spec fn env_is_active(e: EnvView, current: Map<Seq<char>, Seq<char>>) -> bool {
    forall|k: Seq<char>| #[trigger] e.variables.contains_key(k) ==> current.contains_key(k) && current[k] == e.variables[k]
}

fn env_matches(vars: &StrMap<String>, current: &StrMap<String>) -> (b: bool)
    requires
        vars.wf(),
        current.wf(),
    ensures
        b == (forall|k: Seq<char>| #[trigger] vars@.contains_key(k) ==> current@.contains_key(k) && current@[k] == vars@[k]),
{
    let n = vars.size();
    let mut i: usize = 0;
    while i < n
        invariant
            n == vars.len(),
            vars.wf(),
            current.wf(),
            i <= n,
            forall|j: int| 0 <= j < i ==> current@.contains_key(#[trigger] vars.key_at(j)) && current@[vars.key_at(j)] == vars.value_at(j),
        decreases n - i,
    {
        let (k, v) = vars.entry(i);
        proof {
            vars.lemma_map_at(i as int);
        }
        match current.get(k) {
            Some(cv) => {
                if !(*cv == *v) {
                    proof {
                        assert(vars@.contains_key(k@));
                    }
                    return false;
                }
            },
            None => {
                proof {
                    assert(vars@.contains_key(k@));
                }
                return false;
            },
        }
        i = i + 1;
    }
    proof {
        assert forall|k: Seq<char>| #[trigger] vars@.contains_key(k) implies current@.contains_key(k) && current@[k] == vars@[k] by {
            let j = vars.index_of(k);
            vars.lemma_map_at(j);
        }
    }
    true
}

/// The environments of a group whose variables all hold their values in
/// `current` (the values read from the persistent scope), in name order.
pub fn detect_active_environments(cfg: &ConfigFile, group_name: String, current: &StrMap<String>) -> (r:
    Result<Vec<String>, String>)
    requires
        cfg.wf(),
        current.wf(),
    ensures
        !cfg@.groups.contains_key(group_name@) ==> (r matches Err(e) && e@ == msg_group_not_found(group_name@)),
        cfg@.groups.contains_key(group_name@) ==> (r matches Ok(list) && {
            let envs = cfg@.groups[group_name@].environments;
            &&& sorted_by_name(list@)
            &&& forall|i: int| 0 <= i < list@.len() ==> envs.contains_key(#[trigger] list@[i]@) && env_is_active(envs[list@[i]@], current@)
            &&& forall|k: Seq<char>| #[trigger] envs.contains_key(k) && env_is_active(envs[k], current@) ==> exists|i: int| 0 <= i < list@.len() && #[trigger] list@[i]@ == k
        }),
{
    let g = match cfg.groups.get(&group_name) {
        Some(g) => g,
        None => {
            return Err(group_not_found_message(&group_name));
        },
    };
    proof {
        cfg.groups.lemma_value_inv(group_name@);
    }
    let ghost envs = g.environments@;
    let n = g.environments.size();
    let mut r: Vec<String> = Vec::new();
    let mut i: usize = 0;
    while i < n
        invariant
            n == g.environments.len(),
            g.environments.deep_wf(),
            envs == g.environments@,
            current.wf(),
            i <= n,
            sorted_by_name(r@),
            forall|a: int| #![trigger r@[a]] 0 <= a < r@.len() ==> exists|j: int| 0 <= j < i && #[trigger] g.environments.key_at(j) == r@[a]@,
            forall|a: int| 0 <= a < r@.len() ==> envs.contains_key(#[trigger] r@[a]@) && env_is_active(envs[r@[a]@], current@),
            forall|j: int| 0 <= j < i && env_is_active(g.environments.value_at(j), current@) ==> names_key(r@, #[trigger] g.environments.key_at(j)),
        decreases n - i,
    {
        let (k, e) = g.environments.entry(i);
        proof {
            g.environments.lemma_map_at(i as int);
            assert(g.environments.entry_seq()[i as int].1.inv());
        }
        if env_matches(&e.variables, current) {
            let key = k.clone();
            let ghost before = r@;
            proof {
                assert forall|a: int| 0 <= a < before.len() implies #[trigger] before[a].name_view() != key.name_view() by {
                    let j = choose|j: int| 0 <= j < i && #[trigger] g.environments.key_at(j) == before[a]@;
                    assert(g.environments.key_at(j) != g.environments.key_at(i as int));
                }
            }
            insert_sorted(&mut r, key);
            proof {
                let p = choose|p: int| 0 <= p <= before.len() && r@ == before.insert(p, key);
                assert forall|a: int| #![trigger r@[a]] 0 <= a < r@.len() implies exists|j: int| 0 <= j < i + 1 && #[trigger] g.environments.key_at(j) == r@[a]@ by {
                    if a < p {
                        assert(r@[a] == before[a]);
                        let j = choose|j: int| 0 <= j < i && #[trigger] g.environments.key_at(j) == before[a]@;
                        assert(g.environments.key_at(j) == r@[a]@);
                    } else if a == p {
                        assert(g.environments.key_at(i as int) == r@[a]@);
                    } else {
                        assert(r@[a] == before[a - 1]);
                        let j = choose|j: int| 0 <= j < i && #[trigger] g.environments.key_at(j) == before[a - 1]@;
                        assert(g.environments.key_at(j) == r@[a]@);
                    }
                }
                assert forall|a: int| 0 <= a < r@.len() implies envs.contains_key(#[trigger] r@[a]@) && env_is_active(envs[r@[a]@], current@) by {
                    if a < p {
                        assert(r@[a] == before[a]);
                    } else if a > p {
                        assert(r@[a] == before[a - 1]);
                    }
                }
                assert forall|j: int| 0 <= j < i + 1 && env_is_active(g.environments.value_at(j), current@) implies names_key(r@, #[trigger] g.environments.key_at(j)) by {
                    if j < i {
                        assert(names_key(before, g.environments.key_at(j)));
                        let a = choose|a: int| 0 <= a < before.len() && #[trigger] before[a]@ == g.environments.key_at(j);
                        if a < p {
                            assert(r@[a] == before[a]);
                        } else {
                            assert(r@[a + 1] == before[a]);
                        }
                    } else {
                        assert(r@[p] == key);
                        assert(r@[p]@ == g.environments.key_at(j));
                    }
                }
            }
        } else {
            proof {
                let ev = g.environments.value_at(i as int);
                assert(e.deep_view() == ev);
                if env_is_active(ev, current@) {
                    assert forall|k: Seq<char>| #[trigger] e.variables@.contains_key(k) implies current@.contains_key(k) && current@[k] == e.variables@[k] by {
                        assert(ev.variables.contains_key(k));
                    }
                    assert(false);
                }
                assert forall|j: int| 0 <= j < i + 1 && env_is_active(g.environments.value_at(j), current@) implies names_key(r@, #[trigger] g.environments.key_at(j)) by {
                    if j < i {
                        assert(env_is_active(g.environments.value_at(j), current@));
                        assert(names_key(r@, g.environments.key_at(j)));
                    } else {
                        assert(j == i);
                        assert(!env_is_active(ev, current@));
                        assert(false);
                    }
                }
            }
        }
        i = i + 1;
    }
    proof {
        assert forall|k: Seq<char>| #[trigger] envs.contains_key(k) && env_is_active(envs[k], current@) implies exists|a: int| 0 <= a < r@.len() && #[trigger] r@[a]@ == k by {
            let j = g.environments.index_of(k);
            g.environments.lemma_map_at(j);
            assert(names_key(r@, g.environments.key_at(j)));
            let a = choose|a: int| 0 <= a < r@.len() && #[trigger] r@[a]@ == g.environments.key_at(j);
        }
    }
    Ok(r)
}

} // verus!
