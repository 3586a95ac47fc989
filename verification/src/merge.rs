use vstd::prelude::*;
use crate::checks::group_uses;
use crate::model::{ConfigFile, ConfigView, EnvDef, EnvView, GroupDef, GroupView, Item};
use crate::messages::{group_description, group_description_text, msg_target_group_required, target_group_required_message};
use crate::text::{trim, trim_string};
use crate::variables::collect_group_keys;
use crate::strmap::StrMap;

verus! {

/// Where imported environments go.
#[derive(Clone, Copy, PartialEq, Eq, Structural)]
pub enum ImportTargetMode {
    /// Each imported group is merged into the group of the same name.
    KeepGroups,
    /// All imported environments are merged into one target group.
    IntoGroup,
}

/// What happens to a variable that the target environment already has.
#[derive(Clone, Copy, PartialEq, Eq, Structural)]
pub enum ImportConflictStrategy {
    SkipExisting,
    OverwriteExisting,
    OnlyAddNew,
}

/// What an import added, skipped and overwrote.
pub struct ImportSummary {
    pub groups_added: usize,
    pub groups_skipped: usize,
    pub envs_added: usize,
    pub envs_skipped: usize,
    pub vars_added: usize,
    pub vars_overwritten: usize,
    pub vars_skipped: usize,
}

/// The counts of an import summary.
#[verifier::ext_equal]
pub struct Counts {
    pub groups_added: nat,
    pub groups_skipped: nat,
    pub envs_added: nat,
    pub envs_skipped: nat,
    pub vars_added: nat,
    pub vars_overwritten: nat,
    pub vars_skipped: nat,
}

impl View for ImportSummary {
    type V = Counts;

    open spec fn view(&self) -> Counts {
        Counts {
            groups_added: self.groups_added as nat,
            groups_skipped: self.groups_skipped as nat,
            envs_added: self.envs_added as nat,
            envs_skipped: self.envs_skipped as nat,
            vars_added: self.vars_added as nat,
            vars_overwritten: self.vars_overwritten as nat,
            vars_skipped: self.vars_skipped as nat,
        }
    }
}

pub open spec fn zero_counts() -> Counts {
    Counts {
        groups_added: 0,
        groups_skipped: 0,
        envs_added: 0,
        envs_skipped: 0,
        vars_added: 0,
        vars_overwritten: 0,
        vars_skipped: 0,
    }
}

/// The sum of all counts.
pub open spec fn total(c: Counts) -> nat {
    c.groups_added + c.groups_skipped + c.envs_added + c.envs_skipped + c.vars_added + c.vars_overwritten
        + c.vars_skipped
}

impl ImportSummary {
    /// All counts zero.
    pub fn zero() -> (r: Self)
        ensures
            r@ == zero_counts(),
    {
        ImportSummary {
            groups_added: 0,
            groups_skipped: 0,
            envs_added: 0,
            envs_skipped: 0,
            vars_added: 0,
            vars_overwritten: 0,
            vars_skipped: 0,
        }
    }
}

/// Variable `k` belongs to a group other than `target`.
pub open spec fn foreign(owner: Map<Seq<char>, Seq<char>>, target: Seq<char>, k: Seq<char>) -> bool {
    owner.contains_key(k) && owner[k] != target
}

/// Whether an imported variable is taken: it must not belong to another group,
/// and it replaces an existing value only when overwriting.
pub open spec fn takes_var(
    dst: Map<Seq<char>, Seq<char>>,
    src: Map<Seq<char>, Seq<char>>,
    owner: Map<Seq<char>, Seq<char>>,
    target: Seq<char>,
    overwrite: bool,
    k: Seq<char>,
) -> bool {
    src.contains_key(k) && !foreign(owner, target, k) && (overwrite || !dst.contains_key(k))
}

/// The variables of an existing environment after the imported ones are merged in.
pub open spec fn merged_vars(
    dst: Map<Seq<char>, Seq<char>>,
    src: Map<Seq<char>, Seq<char>>,
    owner: Map<Seq<char>, Seq<char>>,
    target: Seq<char>,
    overwrite: bool,
) -> Map<Seq<char>, Seq<char>> {
    Map::new(
        |k: Seq<char>| dst.contains_key(k) || (src.contains_key(k) && !foreign(owner, target, k)),
        |k: Seq<char>|
            if takes_var(dst, src, owner, target, overwrite, k) {
                src[k]
            } else {
                dst[k]
            },
    )
}

/// A variable that is new to the environment now belongs to `target`.
pub open spec fn merged_owner(
    dst: Map<Seq<char>, Seq<char>>,
    src: Map<Seq<char>, Seq<char>>,
    owner: Map<Seq<char>, Seq<char>>,
    target: Seq<char>,
) -> Map<Seq<char>, Seq<char>> {
    Map::new(
        |k: Seq<char>| owner.contains_key(k) || (src.contains_key(k) && !dst.contains_key(k)),
        |k: Seq<char>|
            if src.contains_key(k) && !foreign(owner, target, k) && !dst.contains_key(k) {
                target
            } else {
                owner[k]
            },
    )
}

pub open spec fn count_new(dst: Map<Seq<char>, Seq<char>>, src: Map<Seq<char>, Seq<char>>, owner: Map<Seq<char>, Seq<char>>, target: Seq<char>) -> nat {
    src.dom().filter(|k: Seq<char>| !foreign(owner, target, k) && !dst.contains_key(k)).len()
}

pub open spec fn count_existing(dst: Map<Seq<char>, Seq<char>>, src: Map<Seq<char>, Seq<char>>, owner: Map<Seq<char>, Seq<char>>, target: Seq<char>) -> nat {
    src.dom().filter(|k: Seq<char>| !foreign(owner, target, k) && dst.contains_key(k)).len()
}

pub open spec fn count_foreign(src: Map<Seq<char>, Seq<char>>, owner: Map<Seq<char>, Seq<char>>, target: Seq<char>) -> nat {
    src.dom().filter(|k: Seq<char>| foreign(owner, target, k)).len()
}

/// The counts after merging the variables of an existing environment.
pub open spec fn counts_after_vars(
    c: Counts,
    dst: Map<Seq<char>, Seq<char>>,
    src: Map<Seq<char>, Seq<char>>,
    owner: Map<Seq<char>, Seq<char>>,
    target: Seq<char>,
    overwrite: bool,
) -> Counts {
    let added = count_new(dst, src, owner, target);
    let existing = count_existing(dst, src, owner, target);
    let skipped = count_foreign(src, owner, target);
    Counts {
        vars_added: c.vars_added + added,
        vars_overwritten: c.vars_overwritten + if overwrite { existing } else { 0 },
        vars_skipped: c.vars_skipped + skipped + if overwrite { 0 } else { existing },
        ..c
    }
}

proof fn lemma_count_step(p: Set<Seq<char>>, k: Seq<char>, pred: spec_fn(Seq<char>) -> bool)
    requires
        p.finite(),
        !p.contains(k),
    ensures
        p.insert(k).filter(pred).len() == p.filter(pred).len() + if pred(k) { 1nat } else { 0nat },
        p.filter(pred).finite(),
{
    vstd::set_lib::lemma_set_subset_finite(p, p.filter(pred));
    if pred(k) {
        assert(p.insert(k).filter(pred) =~= p.filter(pred).insert(k));
    } else {
        assert(p.insert(k).filter(pred) =~= p.filter(pred));
    }
}

/// The set of the first `i` keys of `m`.
pub open spec fn prefix_keys<V: DeepView>(m: StrMap<V>, i: int) -> Set<Seq<char>> {
    Set::new(|k: Seq<char>| exists|j: int| 0 <= j < i && #[trigger] m.key_at(j) == k)
}

proof fn lemma_prefix_keys_step<V: DeepView>(m: StrMap<V>, i: int)
    requires
        m.wf(),
        0 <= i < m.len(),
    ensures
        prefix_keys(m, i + 1) == prefix_keys(m, i).insert(m.key_at(i)),
        !prefix_keys(m, i).contains(m.key_at(i)),
        prefix_keys(m, i).finite(),
        prefix_keys(m, i) <= m@.dom(),
{
    assert forall|x: Seq<char>| #[trigger] prefix_keys(m, i + 1).contains(x) <==> prefix_keys(m, i).insert(m.key_at(i)).contains(x) by {
        if prefix_keys(m, i + 1).contains(x) {
            let j = choose|j: int| 0 <= j < i + 1 && #[trigger] m.key_at(j) == x;
            if j < i {
                assert(prefix_keys(m, i).contains(x));
            }
        }
        if prefix_keys(m, i).contains(x) {
            let j = choose|j: int| 0 <= j < i && #[trigger] m.key_at(j) == x;
            assert(m.key_at(j) == x);
        }
        if x == m.key_at(i) {
            assert(m.key_at(i) == x);
        }
    }
    assert(prefix_keys(m, i + 1) =~= prefix_keys(m, i).insert(m.key_at(i)));
    if prefix_keys(m, i).contains(m.key_at(i)) {
        let j = choose|j: int| 0 <= j < i && #[trigger] m.key_at(j) == m.key_at(i);
        assert(false);
    }
    lemma_prefix_keys_sub(m, i);
}

proof fn lemma_prefix_keys_sub<V: DeepView>(m: StrMap<V>, i: int)
    requires
        m.wf(),
        0 <= i <= m.len(),
    ensures
        prefix_keys(m, i).finite(),
        prefix_keys(m, i) <= m@.dom(),
        i == m.len() ==> prefix_keys(m, i) == m@.dom(),
{
    assert forall|x: Seq<char>| #[trigger] prefix_keys(m, i).contains(x) implies m@.dom().contains(x) by {
        let j = choose|j: int| 0 <= j < i && #[trigger] m.key_at(j) == x;
        m.lemma_map_at(j);
    }
    m.lemma_dom_len();
    vstd::set_lib::lemma_set_subset_finite(m@.dom(), prefix_keys(m, i));
    if i == m.len() {
        assert forall|x: Seq<char>| #[trigger] m@.dom().contains(x) implies prefix_keys(m, i).contains(x) by {
            let j = m.index_of(x);
            assert(m.key_at(j) == x);
        }
        assert(prefix_keys(m, i) =~= m@.dom());
    }
}

/// Merges the variables of `src` into the existing environment variables `dst`.
pub fn merge_vars_into(
    dst: &mut StrMap<String>,
    src: &StrMap<String>,
    owner: &mut StrMap<String>,
    target: &String,
    overwrite: bool,
    counts: &mut ImportSummary,
)
    requires
        old(dst).wf(),
        src.wf(),
        old(owner).wf(),
        total(old(counts)@) + src.len() <= usize::MAX,
    ensures
        final(dst).wf(),
        final(owner).wf(),
        final(dst)@ == merged_vars(old(dst)@, src@, old(owner)@, target@, overwrite),
        final(owner)@ == merged_owner(old(dst)@, src@, old(owner)@, target@),
        final(counts)@ == counts_after_vars(old(counts)@, old(dst)@, src@, old(owner)@, target@, overwrite),
        total(final(counts)@) == total(old(counts)@) + src.len(),
{
    let ghost d0 = dst@;
    let ghost o0 = owner@;
    let ghost c0 = counts@;
    let ghost t = target@;
    let n = src.size();
    let mut i: usize = 0;
    proof {
        let e = src@.restrict(prefix_keys(*src, 0));
        assert(e.dom() =~= Set::<Seq<char>>::empty());
        assert(e.dom().filter(|k: Seq<char>| !foreign(o0, t, k) && !d0.contains_key(k)) =~= Set::<Seq<char>>::empty());
        assert(e.dom().filter(|k: Seq<char>| !foreign(o0, t, k) && d0.contains_key(k)) =~= Set::<Seq<char>>::empty());
        assert(e.dom().filter(|k: Seq<char>| foreign(o0, t, k)) =~= Set::<Seq<char>>::empty());
        assert(counts@ =~= counts_after_vars(c0, d0, e, o0, t, overwrite));
    }
    while i < n
        invariant
            n == src.len(),
            src.wf(),
            dst.wf(),
            owner.wf(),
            i <= n,
            t == target@,
            total(c0) + n <= usize::MAX,
            dst@ == merged_vars(d0, src@.restrict(prefix_keys(*src, i as int)), o0, t, overwrite),
            owner@ == merged_owner(d0, src@.restrict(prefix_keys(*src, i as int)), o0, t),
            counts@ == counts_after_vars(c0, d0, src@.restrict(prefix_keys(*src, i as int)), o0, t, overwrite),
            total(counts@) == total(c0) + i,
        decreases n - i,
    {
        let (key, value) = src.entry(i);
        let ghost p = prefix_keys(*src, i as int);
        let ghost k = key@;
        let ghost sp = src@.restrict(p);
        let ghost sp1 = src@.restrict(p.insert(k));
        proof {
            lemma_prefix_keys_step(*src, i as int);
            src.lemma_map_at(i as int);
            assert(!sp.contains_key(k));
            assert(owner@.contains_key(k) == o0.contains_key(k));
            if o0.contains_key(k) {
                assert(owner@[k] == o0[k]);
            }
            assert(dst@.contains_key(k) == d0.contains_key(k));
        }
        let is_foreign = match owner.get(key) {
            Some(o) => !(*o == *target),
            None => false,
        };
        proof {
            assert(is_foreign == foreign(o0, t, k));
        }
        if is_foreign {
            counts.vars_skipped = counts.vars_skipped + 1;
        } else if !dst.contains_key(key) {
            dst.insert(key.clone(), value.clone());
            owner.insert(key.clone(), target.clone());
            counts.vars_added = counts.vars_added + 1;
        } else if overwrite {
            dst.insert(key.clone(), value.clone());
            counts.vars_overwritten = counts.vars_overwritten + 1;
        } else {
            counts.vars_skipped = counts.vars_skipped + 1;
        }
        proof {
            assert(sp1 =~= sp.insert(k, src@[k]));
            assert(sp1.dom() =~= sp.dom().insert(k));
            assert(sp.dom() =~= p) by {
                lemma_prefix_keys_sub(*src, i as int);
            }
            lemma_count_step(p, k, |x: Seq<char>| !foreign(o0, t, x) && !d0.contains_key(x));
            lemma_count_step(p, k, |x: Seq<char>| !foreign(o0, t, x) && d0.contains_key(x));
            lemma_count_step(p, k, |x: Seq<char>| foreign(o0, t, x));
            assert(dst@ =~= merged_vars(d0, sp1, o0, t, overwrite));
            assert(owner@ =~= merged_owner(d0, sp1, o0, t));
            assert(counts@ =~= counts_after_vars(c0, d0, sp1, o0, t, overwrite));
        }
        i = i + 1;
    }
    proof {
        lemma_prefix_keys_sub(*src, n as int);
        assert(src@.restrict(prefix_keys(*src, n as int)) =~= src@);
    }
}


/// The target group of an import step, the owner of each variable name, and the counts so far.
#[verifier::ext_equal]
pub struct GroupState {
    pub group: GroupView,
    pub owner: Map<Seq<char>, Seq<char>>,
    pub counts: Counts,
}

/// `keys` now belong to `target`.
pub open spec fn owned_by(owner: Map<Seq<char>, Seq<char>>, keys: Set<Seq<char>>, target: Seq<char>) -> Map<
    Seq<char>,
    Seq<char>,
> {
    Map::new(
        |k: Seq<char>| owner.contains_key(k) || keys.contains(k),
        |k: Seq<char>|
            if keys.contains(k) {
                target
            } else {
                owner[k]
            },
    )
}

/// One imported environment merged into the target group: a new environment
/// is added whole, and its variables belong to the target group from then
/// on; an existing one gets the imported variables merged in.
pub open spec fn step_env(s: GroupState, target: Seq<char>, name: Seq<char>, env: EnvView, overwrite: bool) -> GroupState {
    let envs = s.group.environments;
    if !envs.contains_key(name) {
        GroupState {
            group: GroupView { description: s.group.description, environments: envs.insert(name, env) },
            owner: owned_by(s.owner, env.variables.dom(), target),
            counts: Counts {
                envs_added: s.counts.envs_added + 1,
                vars_added: s.counts.vars_added + env.variables.dom().len(),
                ..s.counts
            },
        }
    } else {
        let dst = envs[name];
        GroupState {
            group: GroupView {
                description: s.group.description,
                environments: envs.insert(
                    name,
                    EnvView {
                        description: dst.description,
                        variables: merged_vars(dst.variables, env.variables, s.owner, target, overwrite),
                        hooks: dst.hooks,
                    },
                ),
            },
            owner: merged_owner(dst.variables, env.variables, s.owner, target),
            counts: counts_after_vars(
                Counts { envs_skipped: s.counts.envs_skipped + 1, ..s.counts },
                dst.variables,
                env.variables,
                s.owner,
                target,
                overwrite,
            ),
        }
    }
}

/// The imported environments merged into the target group one after the other.
pub open spec fn step_envs(s: GroupState, target: Seq<char>, envs: Seq<(Seq<char>, EnvView)>, overwrite: bool) -> GroupState
    decreases envs.len(),
{
    if envs.len() == 0 {
        s
    } else {
        step_env(step_envs(s, target, envs.drop_last(), overwrite), target, envs.last().0, envs.last().1, overwrite)
    }
}

/// The number of environments plus the number of their variables.
pub open spec fn weight_envs(envs: Seq<(Seq<char>, EnvView)>) -> nat
    decreases envs.len(),
{
    if envs.len() == 0 {
        0
    } else {
        weight_envs(envs.drop_last()) + 1 + envs.last().1.variables.dom().len()
    }
}

proof fn lemma_weight_envs_prefix(envs: Seq<(Seq<char>, EnvView)>, i: int)
    requires
        0 <= i <= envs.len(),
    ensures
        weight_envs(envs.take(i)) <= weight_envs(envs),
    decreases envs.len(),
{
    if i < envs.len() {
        lemma_weight_envs_prefix(envs.drop_last(), i);
        assert(envs.drop_last().take(i) =~= envs.take(i));
    } else {
        assert(envs.take(i) =~= envs);
    }
}

pub fn merge_env_into(
    group: &mut GroupDef,
    owner: &mut StrMap<String>,
    target: &String,
    name: &String,
    env: &EnvDef,
    overwrite: bool,
    counts: &mut ImportSummary,
)
    requires
        old(group).inv(),
        env.inv(),
        old(owner).wf(),
        total(old(counts)@) + 1 + env.variables.len() <= usize::MAX,
    ensures
        final(group).inv(),
        final(owner).wf(),
        final(group).description == old(group).description,
        (GroupState { group: final(group)@, owner: final(owner)@, counts: final(counts)@ }) == step_env(
            GroupState { group: old(group)@, owner: old(owner)@, counts: old(counts)@ },
            target@,
            name@,
            env@,
            overwrite,
        ),
        total(final(counts)@) == total(old(counts)@) + 1 + env.variables.len(),
{
    let ghost s0 = GroupState { group: group@, owner: owner@, counts: counts@ };
    proof {
        env.variables.lemma_dom_len();
    }
    match group.environments.find(name) {
        None => {
            counts.envs_added = counts.envs_added + 1;
            counts.vars_added = counts.vars_added + env.variables.size();
            let n = env.variables.size();
            let mut i: usize = 0;
            let ghost o0 = owner@;
            while i < n
                invariant
                    n == env.variables.len(),
                    env.variables.wf(),
                    owner.wf(),
                    i <= n,
                    owner@ == owned_by(o0, prefix_keys(env.variables, i as int), target@),
                decreases n - i,
            {
                let (k, _v) = env.variables.entry(i);
                owner.insert(k.clone(), target.clone());
                proof {
                    lemma_prefix_keys_step(env.variables, i as int);
                    assert(owner@ =~= owned_by(o0, prefix_keys(env.variables, i + 1), target@));
                }
                i = i + 1;
            }
            proof {
                lemma_prefix_keys_sub(env.variables, n as int);
            }
            group.environments.put(name.clone(), env.duplicate());
            proof {
                assert(owner@ =~= owned_by(o0, env@.variables.dom(), target@));
                assert((GroupState { group: group@, owner: owner@, counts: counts@ }) =~= step_env(s0, target@, name@, env@, overwrite));
            }
        },
        Some(ei) => {
            counts.envs_skipped = counts.envs_skipped + 1;
            let ghost before = group.environments;
            proof {
                before.lemma_map_at(ei as int);
                assert(before.entry_seq()[ei as int].1.inv());
            }
            let dst = group.environments.value_mut(ei);
            merge_vars_into(&mut dst.variables, &env.variables, owner, target, overwrite, counts);
            let ghost d1 = *dst;
            proof {
                StrMap::lemma_deep_update(before, group.environments, ei as int, d1);
                assert((GroupState { group: group@, owner: owner@, counts: counts@ }) =~= step_env(s0, target@, name@, env@, overwrite));
            }
        },
    }
}

/// Merges every environment of `src` into the target group, in entry order.
pub fn merge_envs_into(
    group: &mut GroupDef,
    owner: &mut StrMap<String>,
    target: &String,
    src: &GroupDef,
    overwrite: bool,
    counts: &mut ImportSummary,
)
    requires
        old(group).inv(),
        src.inv(),
        old(owner).wf(),
        total(old(counts)@) + weight_envs(src.environments.pairs()) <= usize::MAX,
    ensures
        final(group).inv(),
        final(owner).wf(),
        final(group).description == old(group).description,
        (GroupState { group: final(group)@, owner: final(owner)@, counts: final(counts)@ }) == step_envs(
            GroupState { group: old(group)@, owner: old(owner)@, counts: old(counts)@ },
            target@,
            src.environments.pairs(),
            overwrite,
        ),
        total(final(counts)@) == total(old(counts)@) + weight_envs(src.environments.pairs()),
{
    let ghost s0 = GroupState { group: group@, owner: owner@, counts: counts@ };
    let ghost c0 = counts@;
    let ghost d0 = group.description;
    let ghost all = src.environments.pairs();
    let n = src.environments.size();
    let mut i: usize = 0;
    proof {
        assert(all.take(0) =~= Seq::<(Seq<char>, EnvView)>::empty());
    }
    while i < n
        invariant
            n == src.environments.len(),
            src.inv(),
            all == src.environments.pairs(),
            group.inv(),
            owner.wf(),
            group.description == d0,
            i <= n,
            total(c0) + weight_envs(all) <= usize::MAX,
            (GroupState { group: group@, owner: owner@, counts: counts@ }) == step_envs(s0, target@, all.take(i as int), overwrite),
            total(counts@) == total(c0) + weight_envs(all.take(i as int)),
        decreases n - i,
    {
        let (name, env) = src.environments.entry(i);
        proof {
            assert(src.environments.entry_seq()[i as int].1.inv());
            lemma_weight_envs_prefix(all, i + 1);
            assert(all.take(i + 1).drop_last() =~= all.take(i as int));
            env.variables.lemma_dom_len();
        }
        merge_env_into(group, owner, target, name, env, overwrite, counts);
        proof {
            assert(all.take(i + 1).last() == all[i as int]);
        }
        i = i + 1;
    }
    proof {
        assert(all.take(n as int) =~= all);
    }
}

/// Group `i` of `groups` uses variable `k`.
pub open spec fn uses_at(groups: StrMap<GroupDef>, i: int, k: Seq<char>) -> bool {
    group_uses(groups.value_at(i), k)
}

/// Group `i` is the first group, in entry order, that uses `k`.
pub open spec fn is_first_user(groups: StrMap<GroupDef>, i: int, k: Seq<char>) -> bool {
    &&& 0 <= i < groups.len()
    &&& uses_at(groups, i, k)
    &&& forall|j: int| 0 <= j < i ==> !#[trigger] uses_at(groups, j, k)
}

/// Each variable name belongs to the first group that uses it.
pub open spec fn first_owner(groups: StrMap<GroupDef>) -> Map<Seq<char>, Seq<char>> {
    Map::new(
        |k: Seq<char>| exists|i: int| 0 <= i < groups.len() && #[trigger] uses_at(groups, i, k),
        |k: Seq<char>| groups.key_at(choose|i: int| #[trigger] is_first_user(groups, i, k)),
    )
}

spec fn owners_upto(groups: StrMap<GroupDef>, n: int) -> Map<Seq<char>, Seq<char>> {
    Map::new(
        |k: Seq<char>| exists|i: int| 0 <= i < n && #[trigger] uses_at(groups, i, k),
        |k: Seq<char>| groups.key_at(choose|i: int| #[trigger] is_first_user(groups, i, k)),
    )
}

proof fn lemma_first_user_unique(groups: StrMap<GroupDef>, a: int, b: int, k: Seq<char>)
    requires
        is_first_user(groups, a, k),
        is_first_user(groups, b, k),
    ensures
        a == b,
{
    if a < b {
        assert(!uses_at(groups, a, k));
    } else if b < a {
        assert(!uses_at(groups, b, k));
    }
}

pub proof fn lemma_first_user_exists(groups: StrMap<GroupDef>, i: int, k: Seq<char>)
    requires
        0 <= i < groups.len(),
        uses_at(groups, i, k),
    ensures
        exists|j: int| 0 <= j <= i && #[trigger] is_first_user(groups, j, k),
    decreases i,
{
    if exists|j: int| 0 <= j < i && #[trigger] uses_at(groups, j, k) {
        let j = choose|j: int| 0 <= j < i && #[trigger] uses_at(groups, j, k);
        lemma_first_user_exists(groups, j, k);
    } else {
        assert(is_first_user(groups, i, k));
    }
}

/// The owners depend only on the keys and values of the groups, in order.
pub proof fn lemma_first_owner_pairs(a: StrMap<GroupDef>, b: StrMap<GroupDef>)
    requires
        a.pairs() == b.pairs(),
    ensures
        first_owner(a) == first_owner(b),
{
    assert(a.len() == b.len()) by {
        assert(a.pairs().len() == a.len());
        assert(b.pairs().len() == b.len());
    }
    assert forall|i: int| 0 <= i < a.len() implies #[trigger] a.key_at(i) == b.key_at(i) && a.value_at(i) == b.value_at(i) by {
        assert(a.pairs()[i] == b.pairs()[i]);
    }
    assert forall|i: int, k: Seq<char>| 0 <= i < a.len() implies (#[trigger] uses_at(a, i, k) <==> #[trigger] uses_at(b, i, k)) by {
        assert(a.pairs()[i] == b.pairs()[i]);
        assert(a.value_at(i) == b.value_at(i));
    }
    assert forall|k: Seq<char>| #[trigger] first_owner(a).contains_key(k) <==> first_owner(b).contains_key(k) by {
        if first_owner(a).contains_key(k) {
            let i = choose|i: int| 0 <= i < a.len() && #[trigger] uses_at(a, i, k);
            assert(uses_at(b, i, k));
        }
        if first_owner(b).contains_key(k) {
            let i = choose|i: int| 0 <= i < b.len() && #[trigger] uses_at(b, i, k);
            assert(uses_at(a, i, k));
        }
    }
    assert forall|k: Seq<char>| #[trigger] first_owner(a).contains_key(k) implies first_owner(a)[k] == first_owner(b)[k] by {
        let i = choose|i: int| 0 <= i < a.len() && #[trigger] uses_at(a, i, k);
        lemma_first_user_exists(a, i, k);
        lemma_first_user_exists(b, i, k);
        let ca = choose|j: int| #[trigger] is_first_user(a, j, k);
        let cb = choose|j: int| #[trigger] is_first_user(b, j, k);
        assert(is_first_user(a, cb, k)) by {
            assert forall|j: int| 0 <= j < cb implies !#[trigger] uses_at(a, j, k) by {
                assert(!uses_at(b, j, k));
            }
        }
        lemma_first_user_unique(a, ca, cb, k);
    }
    assert(first_owner(a) =~= first_owner(b));
}

/// The owner of each variable name of the configuration.
fn build_owner(groups: &StrMap<GroupDef>) -> (owner: StrMap<String>)
    requires
        groups.deep_wf(),
    ensures
        owner.wf(),
        owner@ == first_owner(*groups),
{
    let mut owner: StrMap<String> = StrMap::new();
    let n = groups.size();
    let mut i: usize = 0;
    proof {
        assert(owner@ =~= owners_upto(*groups, 0));
    }
    while i < n
        invariant
            n == groups.len(),
            groups.deep_wf(),
            owner.wf(),
            i <= n,
            owner@ == owners_upto(*groups, i as int),
        decreases n - i,
    {
        let (name, grp) = groups.entry(i);
        proof {
            assert(groups.entry_seq()[i as int].1.inv());
        }
        let keys = collect_group_keys(grp);
        let ghost prev = owner@;
        let nk = keys.len();
        let mut ki: usize = 0;
        proof {
            let m = Map::new(
                |k: Seq<char>| prev.contains_key(k) || exists|a: int| 0 <= a < 0 && #[trigger] keys@[a]@ == k,
                |k: Seq<char>| if prev.contains_key(k) { prev[k] } else { name@ },
            );
            assert(owner@ =~= m);
        }
        while ki < nk
            invariant
                nk == keys@.len(),
                ki <= nk,
                owner.wf(),
                owner@ == Map::new(
                    |k: Seq<char>| prev.contains_key(k) || exists|a: int| 0 <= a < ki && #[trigger] keys@[a]@ == k,
                    |k: Seq<char>| if prev.contains_key(k) { prev[k] } else { name@ },
                ),
            decreases nk - ki,
        {
            let key = &keys[ki];
            if !owner.contains_key(key) {
                owner.insert(key.clone(), name.clone());
            }
            proof {
                let m = Map::new(
                    |k: Seq<char>| prev.contains_key(k) || exists|a: int| 0 <= a < ki + 1 && #[trigger] keys@[a]@ == k,
                    |k: Seq<char>| if prev.contains_key(k) { prev[k] } else { name@ },
                );
                assert forall|k: Seq<char>| #[trigger] owner@.contains_key(k) <==> m.contains_key(k) by {
                    if exists|a: int| 0 <= a < ki && #[trigger] keys@[a]@ == k {
                        let a = choose|a: int| 0 <= a < ki && #[trigger] keys@[a]@ == k;
                        assert(keys@[a]@ == k);
                    }
                    if exists|a: int| 0 <= a < ki + 1 && #[trigger] keys@[a]@ == k {
                        let a = choose|a: int| 0 <= a < ki + 1 && #[trigger] keys@[a]@ == k;
                        if a < ki {
                            assert(keys@[a]@ == k);
                        }
                    }
                }
                assert(owner@ =~= m);
            }
            ki = ki + 1;
        }
        proof {
            let gk = crate::variables::group_keys(grp@);
            assert forall|k: Seq<char>| #[trigger] owner@.contains_key(k) <==> owners_upto(*groups, i + 1).contains_key(k) by {
                if exists|a: int| 0 <= a < nk && #[trigger] keys@[a]@ == k {
                    let a = choose|a: int| 0 <= a < nk && #[trigger] keys@[a]@ == k;
                    assert(gk.contains(keys@[a]@));
                    assert(uses_at(*groups, i as int, k));
                }
                if owners_upto(*groups, i + 1).contains_key(k) {
                    let j = choose|j: int| 0 <= j < i + 1 && #[trigger] uses_at(*groups, j, k);
                    if j == i {
                        assert(gk.contains(k));
                        let a = choose|a: int| 0 <= a < keys@.len() && #[trigger] keys@[a]@ == k;
                    } else {
                        assert(prev.contains_key(k));
                    }
                }
            }
            assert forall|k: Seq<char>| #[trigger] owner@.contains_key(k) implies owner@[k] == owners_upto(*groups, i + 1)[k] by {
                if !prev.contains_key(k) {
                    let a = choose|a: int| 0 <= a < nk && #[trigger] keys@[a]@ == k;
                    assert(gk.contains(keys@[a]@));
                    assert(uses_at(*groups, i as int, k));
                    assert(is_first_user(*groups, i as int, k));
                    let c = choose|c: int| #[trigger] is_first_user(*groups, c, k);
                    lemma_first_user_unique(*groups, c, i as int, k);
                }
            }
            assert(owner@ =~= owners_upto(*groups, i + 1));
        }
        i = i + 1;
    }
    proof {
        assert(owner@ =~= first_owner(*groups));
    }
    owner
}

/// The groups of the configuration being imported into, the owner of each
/// variable name, and the counts so far.
#[verifier::ext_equal]
pub struct MergeState {
    pub groups: Map<Seq<char>, GroupView>,
    pub owner: Map<Seq<char>, Seq<char>>,
    pub counts: Counts,
}

/// The target group is counted as skipped when it exists, and otherwise
/// created empty with the given description and counted as added.
pub open spec fn enter_group(st: MergeState, name: Seq<char>, description: Option<Seq<char>>) -> MergeState {
    if st.groups.contains_key(name) {
        MergeState { counts: Counts { groups_skipped: st.counts.groups_skipped + 1, ..st.counts }, ..st }
    } else {
        MergeState {
            groups: st.groups.insert(name, GroupView { description, environments: Map::empty() }),
            owner: st.owner,
            counts: Counts { groups_added: st.counts.groups_added + 1, ..st.counts },
        }
    }
}

pub open spec fn merge_group_envs(st: MergeState, target: Seq<char>, envs: Seq<(Seq<char>, EnvView)>, overwrite: bool) -> MergeState {
    let gs = step_envs(GroupState { group: st.groups[target], owner: st.owner, counts: st.counts }, target, envs, overwrite);
    MergeState { groups: st.groups.insert(target, gs.group), owner: gs.owner, counts: gs.counts }
}

/// Each imported group merged into the group of the same name.
pub open spec fn merge_keep(st: MergeState, gs: Seq<(String, GroupDef)>, overwrite: bool) -> MergeState
    decreases gs.len(),
{
    if gs.len() == 0 {
        st
    } else {
        let prev = merge_keep(st, gs.drop_last(), overwrite);
        let name = gs.last().0@;
        let g = gs.last().1;
        merge_group_envs(enter_group(prev, name, g.description.deep_view()), name, g.environments.pairs(), overwrite)
    }
}

/// The environments of every imported group merged into one target group.
pub open spec fn merge_into(st: MergeState, target: Seq<char>, gs: Seq<(String, GroupDef)>, overwrite: bool) -> MergeState
    decreases gs.len(),
{
    if gs.len() == 0 {
        st
    } else {
        merge_group_envs(merge_into(st, target, gs.drop_last(), overwrite), target, gs.last().1.environments.pairs(), overwrite)
    }
}

/// The number of groups, environments and variables.
pub open spec fn weight_groups(gs: Seq<(String, GroupDef)>) -> nat
    decreases gs.len(),
{
    if gs.len() == 0 {
        0
    } else {
        weight_groups(gs.drop_last()) + 1 + weight_envs(gs.last().1.environments.pairs())
    }
}

proof fn lemma_weight_groups_prefix(gs: Seq<(String, GroupDef)>, i: int)
    requires
        0 <= i <= gs.len(),
    ensures
        weight_groups(gs.take(i)) <= weight_groups(gs),
    decreases gs.len(),
{
    if i < gs.len() {
        lemma_weight_groups_prefix(gs.drop_last(), i);
        assert(gs.drop_last().take(i) =~= gs.take(i));
    } else {
        assert(gs.take(i) =~= gs);
    }
}

/// The trimmed target group, when one is given and it is not blank.
pub open spec fn import_target(tg: Option<Seq<char>>) -> Option<Seq<char>> {
    match tg {
        Some(t) => if trim(t).len() > 0 {
            Some(trim(t))
        } else {
            None
        },
        None => None,
    }
}

/// The result of merging `imported` into `base`. Every variable name first
/// belongs to the first group of `base` that uses it; an imported variable of
/// an existing environment is skipped when it belongs to another group.
pub open spec fn spec_merge_import(
    base: ConfigFile,
    imported: ConfigFile,
    mode: ImportTargetMode,
    tg: Option<Seq<char>>,
    strategy: ImportConflictStrategy,
) -> Result<MergeState, Seq<char>> {
    let overwrite = strategy == ImportConflictStrategy::OverwriteExisting;
    let st0 = MergeState { groups: base@.groups, owner: first_owner(base.groups), counts: zero_counts() };
    match mode {
        ImportTargetMode::KeepGroups => Ok(merge_keep(st0, imported.groups.entry_seq(), overwrite)),
        ImportTargetMode::IntoGroup => match import_target(tg) {
            None => Err(msg_target_group_required()),
            Some(t) => Ok(
                merge_into(enter_group(st0, t, Some(group_description(t))), t, imported.groups.entry_seq(), overwrite),
            ),
        },
    }
}

/// `r` and the configuration after the call are what `expected` says.
pub open spec fn merged_as(
    r: Result<ImportSummary, String>,
    before: ConfigView,
    after: ConfigView,
    expected: Result<MergeState, Seq<char>>,
) -> bool {
    match expected {
        Err(m) => (r matches Err(e) && e@ == m) && after == before,
        Ok(st) => (r matches Ok(s) && s@ == st.counts) && after == (ConfigView {
            groups: st.groups,
            environments: before.environments,
        }),
    }
}

/// Enters the group `name` (creating it when missing) and returns its position.
fn enter_group_exec(base: &mut ConfigFile, name: &String, description: Option<String>, counts: &mut ImportSummary) -> (gi: usize)
    requires
        old(base).wf(),
        total(old(counts)@) + 1 <= usize::MAX,
    ensures
        final(base).wf(),
        final(base)@.environments == old(base)@.environments,
        gi < final(base).groups.len(),
        final(base).groups.key_at(gi as int) == name@,
        ({
            let st = enter_group(
                MergeState { groups: old(base)@.groups, owner: Map::empty(), counts: old(counts)@ },
                name@,
                description.deep_view(),
            );
            final(base)@.groups == st.groups && final(counts)@ == st.counts
        }),
        total(final(counts)@) == total(old(counts)@) + 1,
{
    if base.groups.contains_key(name) {
        counts.groups_skipped = counts.groups_skipped + 1;
    } else {
        let g = GroupDef { description, environments: StrMap::new() };
        proof {
            assert(g.environments@ =~= Map::<Seq<char>, EnvView>::empty());
        }
        base.groups.put(name.clone(), g);
        counts.groups_added = counts.groups_added + 1;
    }
    let gi = base.groups.find(name).unwrap();
    gi
}

/// Merges the environments of `src` into group `gi` of `base`.
fn merge_group_exec(
    base: &mut ConfigFile,
    gi: usize,
    owner: &mut StrMap<String>,
    target: &String,
    src: &GroupDef,
    overwrite: bool,
    counts: &mut ImportSummary,
)
    requires
        old(base).wf(),
        src.inv(),
        old(owner).wf(),
        gi < old(base).groups.len(),
        old(base).groups.key_at(gi as int) == target@,
        total(old(counts)@) + weight_envs(src.environments.pairs()) <= usize::MAX,
    ensures
        final(base).wf(),
        final(owner).wf(),
        final(base)@.environments == old(base)@.environments,
        (MergeState { groups: final(base)@.groups, owner: final(owner)@, counts: final(counts)@ }) == merge_group_envs(
            MergeState { groups: old(base)@.groups, owner: old(owner)@, counts: old(counts)@ },
            target@,
            src.environments.pairs(),
            overwrite,
        ),
        total(final(counts)@) == total(old(counts)@) + weight_envs(src.environments.pairs()),
        final(base).groups.len() == old(base).groups.len(),
        final(base).groups.key_at(gi as int) == target@,
{
    let ghost before = base.groups;
    let ghost st = MergeState { groups: base@.groups, owner: owner@, counts: counts@ };
    proof {
        before.lemma_map_at(gi as int);
        assert(before.entry_seq()[gi as int].1.inv());
    }
    let grp = base.groups.value_mut(gi);
    merge_envs_into(grp, owner, target, src, overwrite, counts);
    let ghost g1 = *grp;
    proof {
        StrMap::lemma_deep_update(before, base.groups, gi as int, g1);
        assert(base.groups.pairs()[gi as int] == before.pairs().update(gi as int, (before.key_at(gi as int), g1.deep_view()))[gi as int]);
        assert((MergeState { groups: base@.groups, owner: owner@, counts: counts@ }) =~= merge_group_envs(
            st,
            target@,
            src.environments.pairs(),
            overwrite,
        ));
    }
}

/// Merges an imported configuration into `base` and counts what was added,
/// skipped and overwritten. `base` is unchanged on an error.
pub fn merge_import(
    base: &mut ConfigFile,
    imported: &ConfigFile,
    target_mode: ImportTargetMode,
    target_group: Option<String>,
    strategy: ImportConflictStrategy,
) -> (r: Result<ImportSummary, String>)
    requires
        old(base).wf(),
        imported.wf(),
        1 + weight_groups(imported.groups.entry_seq()) <= usize::MAX,
    ensures
        final(base).wf(),
        merged_as(r, old(base)@, final(base)@, spec_merge_import(*old(base), *imported, target_mode, target_group.deep_view(), strategy)),
{
    let ghost b0 = *base;
    let overwrite = match strategy {
        ImportConflictStrategy::OverwriteExisting => true,
        _ => false,
    };
    let ghost gs = imported.groups.entry_seq();
    let n = imported.groups.size();
    match target_mode {
        ImportTargetMode::KeepGroups => {
            let mut owner = build_owner(&base.groups);
            let mut counts = ImportSummary::zero();
            let ghost st0 = MergeState { groups: base@.groups, owner: owner@, counts: counts@ };
            let mut i: usize = 0;
            proof {
                assert(gs.take(0) =~= Seq::<(String, GroupDef)>::empty());
            }
            while i < n
                invariant
                    n == imported.groups.len(),
                    imported.wf(),
                    gs == imported.groups.entry_seq(),
                    base.wf(),
                    owner.wf(),
                    base@.environments == b0@.environments,
                    i <= n,
                    1 + weight_groups(gs) <= usize::MAX,
                    (MergeState { groups: base@.groups, owner: owner@, counts: counts@ }) == merge_keep(st0, gs.take(i as int), overwrite),
                    total(counts@) == weight_groups(gs.take(i as int)),
                decreases n - i,
            {
                let (name, src) = imported.groups.entry(i);
                proof {
                    assert(imported.groups.entry_seq()[i as int].1.inv());
                    lemma_weight_groups_prefix(gs, i + 1);
                    assert(gs.take(i + 1).drop_last() =~= gs.take(i as int));
                    assert(gs.take(i + 1).last() == gs[i as int]);
                }
                let ghost stp = MergeState { groups: base@.groups, owner: owner@, counts: counts@ };
                let gi = enter_group_exec(base, name, crate::model::duplicate_opt_string(&src.description), &mut counts);
                proof {
                    assert((MergeState { groups: base@.groups, owner: owner@, counts: counts@ }) =~= enter_group(stp, name@, src.description.deep_view()));
                }
                merge_group_exec(base, gi, &mut owner, name, src, overwrite, &mut counts);
                i = i + 1;
            }
            proof {
                assert(gs.take(n as int) =~= gs);
            }
            Ok(counts)
        },
        ImportTargetMode::IntoGroup => {
            let target = match &target_group {
                Some(t) => {
                    let tt = trim_string(t);
                    if tt.as_str().unicode_len() == 0 {
                        return Err(target_group_required_message());
                    }
                    tt
                },
                None => {
                    return Err(target_group_required_message());
                },
            };
            let mut owner = build_owner(&base.groups);
            let mut counts = ImportSummary::zero();
            let ghost stp = MergeState { groups: base@.groups, owner: owner@, counts: counts@ };
            let desc = group_description_text(&target);
            let gi = enter_group_exec(base, &target, Some(desc), &mut counts);
            let ghost st0 = MergeState { groups: base@.groups, owner: owner@, counts: counts@ };
            proof {
                assert(st0 =~= enter_group(stp, target@, Some(group_description(target@))));
            }
            let mut i: usize = 0;
            proof {
                assert(gs.take(0) =~= Seq::<(String, GroupDef)>::empty());
            }
            while i < n
                invariant
                    n == imported.groups.len(),
                    imported.wf(),
                    gs == imported.groups.entry_seq(),
                    base.wf(),
                    owner.wf(),
                    base@.environments == b0@.environments,
                    gi < base.groups.len(),
                    base.groups.key_at(gi as int) == target@,
                    i <= n,
                    1 + weight_groups(gs) <= usize::MAX,
                    (MergeState { groups: base@.groups, owner: owner@, counts: counts@ }) == merge_into(st0, target@, gs.take(i as int), overwrite),
                    total(counts@) <= 1 + weight_groups(gs.take(i as int)),
                decreases n - i,
            {
                let (_name, src) = imported.groups.entry(i);
                proof {
                    assert(imported.groups.entry_seq()[i as int].1.inv());
                    lemma_weight_groups_prefix(gs, i + 1);
                    assert(gs.take(i + 1).drop_last() =~= gs.take(i as int));
                    assert(gs.take(i + 1).last() == gs[i as int]);
                }
                merge_group_exec(base, gi, &mut owner, &target, src, overwrite, &mut counts);
                i = i + 1;
            }
            proof {
                assert(gs.take(n as int) =~= gs);
            }
            Ok(counts)
        },
    }
}

} // verus!
