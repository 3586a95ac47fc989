use vstd::prelude::*;
use crate::checks::{group_uses, vars_unique_across_groups};
use crate::editing::{spec_create_group, spec_delete_group, spec_rename_environment, spec_rename_group};
use crate::merge::{
    enter_group, merge_group_envs, merge_keep, spec_merge_import, step_env, step_envs, zero_counts, Counts,
    GroupState, ImportConflictStrategy, ImportTargetMode, MergeState,
};
use crate::model::{ConfigFile, ConfigView, EnvDef, EnvView, GroupDef, GroupView, Item};
use crate::storage::spec_normalize_config;
use crate::strmap::StrMap;
use crate::transfer::{env_total, spec_export_subset, var_total, var_total_envs};
use crate::variables::{group_keys, spec_saved};

verus! {

/// Renaming a group and renaming it back gives the configuration it started from.
pub proof fn law_rename_group_round_trip(c: ConfigView, a: Seq<char>, b: Seq<char>)
    requires
        spec_rename_group(c, a, b) is Ok,
    ensures
        spec_rename_group(spec_rename_group(c, a, b)->Ok_0, b, a) == Ok::<ConfigView, Seq<char>>(c),
{
    let old_name = crate::text::trim(a);
    let new_name = crate::text::trim(b);
    if old_name != new_name {
        let g2 = c.groups.remove(old_name).insert(new_name, c.groups[old_name]);
        assert(g2.remove(new_name).insert(old_name, g2[new_name]) =~= c.groups);
    }
}

/// Renaming an environment and renaming it back gives the configuration it started from.
pub proof fn law_rename_environment_round_trip(c: ConfigView, g: Seq<char>, a: Seq<char>, b: Seq<char>)
    requires
        spec_rename_environment(c, g, a, b) is Ok,
    ensures
        spec_rename_environment(spec_rename_environment(c, g, a, b)->Ok_0, g, b, a) == Ok::<ConfigView, Seq<char>>(c),
{
    let gn = crate::text::trim(g);
    let old_name = crate::text::trim(a);
    let new_name = crate::text::trim(b);
    if old_name != new_name {
        let envs = c.groups[gn].environments;
        let e2 = envs.remove(old_name).insert(new_name, envs[old_name]);
        let c2 = spec_rename_environment(c, g, a, b)->Ok_0;
        assert(c2.groups[gn].environments =~= e2);
        assert(e2.remove(new_name).insert(old_name, e2[new_name]) =~= envs);
        let c3 = spec_rename_environment(c2, g, b, a)->Ok_0;
        assert(c3.groups[gn] =~= c.groups[gn]);
        assert(c3.groups =~= c.groups);
    }
}

/// Deleting a group that was just created gives the configuration it started from.
pub proof fn law_create_then_delete_group(c: ConfigView, name: Seq<char>)
    requires
        spec_create_group(c, name) is Ok,
    ensures
        spec_delete_group(spec_create_group(c, name)->Ok_0, name) == Ok::<ConfigView, Seq<char>>(c),
{
    let n = crate::text::trim(name);
    let c2 = spec_create_group(c, name)->Ok_0;
    assert(c2.groups.remove(n) =~= c.groups);
}

/// After saving the variables of an environment, reading them back gives the
/// saved values; any other name the environment has then (one used elsewhere
/// in the group) holds the empty value.
pub proof fn law_saved_variables_read_back(c: ConfigView, g: Seq<char>, e: Seq<char>, vars: Map<Seq<char>, Seq<char>>)
    ensures
        ({
            let c2 = spec_saved(c, g, e, vars);
            &&& c2.groups.contains_key(g)
            &&& c2.groups[g].environments.contains_key(e)
            &&& forall|k: Seq<char>| #[trigger] vars.contains_key(k) ==> c2.groups[g].environments[e].variables.contains_key(k)
                && c2.groups[g].environments[e].variables[k] == vars[k]
            &&& forall|k: Seq<char>|
                #[trigger] c2.groups[g].environments[e].variables.contains_key(k) && !vars.contains_key(k)
                    ==> c2.groups[g].environments[e].variables[k] == Seq::<char>::empty()
        }),
{
}

/// After saving, every environment of the group has the same variable names:
/// all the names used anywhere in the group.
pub proof fn law_saved_group_shares_names(c: ConfigView, g: Seq<char>, e: Seq<char>, vars: Map<Seq<char>, Seq<char>>, e1: Seq<char>, e2: Seq<char>)
    requires
        spec_saved(c, g, e, vars).groups[g].environments.contains_key(e1),
        spec_saved(c, g, e, vars).groups[g].environments.contains_key(e2),
    ensures
        spec_saved(c, g, e, vars).groups[g].environments[e1].variables.dom() == spec_saved(
            c,
            g,
            e,
            vars,
        ).groups[g].environments[e2].variables.dom(),
{
    let groups1 = if c.groups.contains_key(g) {
        c.groups
    } else {
        c.groups.insert(g, crate::editing::new_group_view(g))
    };
    let grp = groups1[g];
    let env = if grp.environments.contains_key(e) {
        EnvView { description: grp.environments[e].description, variables: vars, hooks: grp.environments[e].hooks }
    } else {
        EnvView { description: Some(crate::messages::env_description(e)), variables: vars, hooks: Some(None) }
    };
    let pre = GroupView { description: grp.description, environments: grp.environments.insert(e, env) };
    let keys = group_keys(pre);
    let c2 = spec_saved(c, g, e, vars);
    assert forall|x: Seq<char>, k: Seq<char>| pre.environments.contains_key(x) && #[trigger] pre.environments[x].variables.contains_key(k) implies keys.contains(k) by {
        assert(group_uses(pre, k));
    }
    assert(c2.groups[g].environments[e1].variables.dom() =~= keys);
    assert(c2.groups[g].environments[e2].variables.dom() =~= keys);
}

/// Normalizing twice is normalizing once, and leaves no ungrouped environment.
pub proof fn law_normalize_config_idempotent(c: ConfigView)
    ensures
        spec_normalize_config(spec_normalize_config(c)) == spec_normalize_config(c),
        spec_normalize_config(c).environments.dom().len() == 0,
{
    let n = spec_normalize_config(c);
    if c.environments.dom().len() != 0 {
        assert(n.environments.dom() =~= Set::<Seq<char>>::empty());
    }
}

proof fn lemma_step_envs_fresh(s: GroupState, t: Seq<char>, m: StrMap<EnvDef>, n: int, overwrite: bool)
    requires
        m.wf(),
        0 <= n <= m.len(),
        s.group.environments == Map::<Seq<char>, EnvView>::empty(),
    ensures
        step_envs(s, t, m.pairs().take(n), overwrite).group == (GroupView {
            description: s.group.description,
            environments: StrMap::map_of_prefix(m, n),
        }),
        step_envs(s, t, m.pairs().take(n), overwrite).counts == (Counts {
            envs_added: s.counts.envs_added + n as nat,
            vars_added: s.counts.vars_added + var_total_envs(m.pairs().take(n)),
            ..s.counts
        }),
    decreases n,
{
    let es = m.pairs().take(n);
    if n == 0 {
        assert(StrMap::map_of_prefix(m, 0) =~= Map::<Seq<char>, EnvView>::empty());
    } else {
        assert(es.drop_last() =~= m.pairs().take(n - 1));
        assert(es.last() == (m.key_at(n - 1), m.value_at(n - 1)));
        lemma_step_envs_fresh(s, t, m, n - 1, overwrite);
        StrMap::lemma_map_of_prefix_step(m, n - 1);
        let prev = step_envs(s, t, m.pairs().take(n - 1), overwrite);
        assert(!prev.group.environments.contains_key(m.key_at(n - 1)));
        let next = step_env(prev, t, m.key_at(n - 1), m.value_at(n - 1), overwrite);
        assert(next.group =~= GroupView { description: s.group.description, environments: StrMap::map_of_prefix(m, n) });
    }
}

proof fn lemma_merge_keep_fresh(st0: MergeState, m: StrMap<GroupDef>, n: int, overwrite: bool)
    requires
        m.deep_wf(),
        0 <= n <= m.len(),
        st0.groups == Map::<Seq<char>, GroupView>::empty(),
        st0.counts == zero_counts(),
    ensures
        merge_keep(st0, m.entry_seq().take(n), overwrite).groups == StrMap::map_of_prefix(m, n),
        merge_keep(st0, m.entry_seq().take(n), overwrite).counts == (Counts {
            groups_added: n as nat,
            envs_added: env_total(m.entry_seq().take(n)),
            vars_added: var_total(m.entry_seq().take(n)),
            ..zero_counts()
        }),
    decreases n,
{
    let gs = m.entry_seq().take(n);
    if n == 0 {
        assert(StrMap::map_of_prefix(m, 0) =~= Map::<Seq<char>, GroupView>::empty());
    } else {
        assert(gs.drop_last() =~= m.entry_seq().take(n - 1));
        lemma_merge_keep_fresh(st0, m, n - 1, overwrite);
        StrMap::lemma_map_of_prefix_step(m, n - 1);
        let prev = merge_keep(st0, m.entry_seq().take(n - 1), overwrite);
        let name = m.key_at(n - 1);
        let g = m.entry_seq()[n - 1].1;
        assert(gs.last() == m.entry_seq()[n - 1]);
        assert(g.inv());
        let st1 = enter_group(prev, name, g.description.deep_view());
        assert(!prev.groups.contains_key(name));
        let empty_group = GroupView { description: g.description.deep_view(), environments: Map::empty() };
        assert(st1.groups[name] == empty_group);
        let s = GroupState { group: empty_group, owner: st1.owner, counts: st1.counts };
        lemma_step_envs_fresh(s, name, g.environments, g.environments.len() as int, overwrite);
        assert(g.environments.pairs().take(g.environments.len() as int) =~= g.environments.pairs());
        StrMap::lemma_map_of_prefix_full(g.environments);
        let r = merge_group_envs(st1, name, g.environments.pairs(), overwrite);
        assert(r.groups =~= StrMap::map_of_prefix(m, n));
        assert(r.counts =~= Counts {
            groups_added: n as nat,
            envs_added: env_total(gs),
            vars_added: var_total(gs),
            ..zero_counts()
        });
    }
}

/// Importing a configuration, group by group, into one that has no groups
/// reproduces its groups exactly, whatever the conflict strategy, and counts
/// every group, environment and variable as added and nothing else.
pub proof fn law_import_into_empty(base: ConfigFile, imported: ConfigFile, target: Option<Seq<char>>, strategy: ImportConflictStrategy)
    requires
        base.wf(),
        base@.groups == Map::<Seq<char>, GroupView>::empty(),
        imported.wf(),
    ensures
        spec_merge_import(base, imported, ImportTargetMode::KeepGroups, target, strategy) matches Ok(st) && st.groups
            == imported@.groups && st.counts == (Counts {
            groups_added: imported.groups.len(),
            envs_added: env_total(imported.groups.entry_seq()),
            vars_added: var_total(imported.groups.entry_seq()),
            ..zero_counts()
        }),
{
    let overwrite = strategy == ImportConflictStrategy::OverwriteExisting;
    let st0 = MergeState { groups: base@.groups, owner: crate::merge::first_owner(base.groups), counts: zero_counts() };
    let m = imported.groups;
    lemma_merge_keep_fresh(st0, m, m.len() as int, overwrite);
    assert(m.entry_seq().take(m.len() as int) =~= m.entry_seq());
    StrMap::lemma_map_of_prefix_full(m);
}

/// Exporting groups and importing the export into a configuration without
/// groups gives back exactly the exported groups; when the exported
/// configuration used each variable name in one group only, so does the result.
pub proof fn law_export_then_import(
    cfg: ConfigView,
    names: Seq<Seq<char>>,
    exported: ConfigFile,
    base: ConfigFile,
    strategy: ImportConflictStrategy,
)
    requires
        spec_export_subset(cfg, names) == Ok::<ConfigView, Seq<char>>(exported@),
        exported.wf(),
        base.wf(),
        base@.groups == Map::<Seq<char>, GroupView>::empty(),
    ensures
        spec_merge_import(base, exported, ImportTargetMode::KeepGroups, None, strategy) matches Ok(st) && st.groups == (
        if names.len() == 0 {
            cfg.groups
        } else {
            cfg.groups.restrict(names.to_set())
        }),
        vars_unique_across_groups(cfg) ==> vars_unique_across_groups(
            ConfigView { groups: exported@.groups, environments: base@.environments },
        ),
{
    law_import_into_empty(base, exported, None, strategy);
    if vars_unique_across_groups(cfg) {
        let r = ConfigView { groups: exported@.groups, environments: base@.environments };
        assert forall|g1: Seq<char>, g2: Seq<char>, k: Seq<char>|
            r.groups.contains_key(g1) && r.groups.contains_key(g2) && g1 != g2 && group_uses(r.groups[g1], k)
                implies !group_uses(r.groups[g2], k) by {
            assert(r.groups[g1] == cfg.groups[g1]);
            assert(r.groups[g2] == cfg.groups[g2]);
        }
    }
}

/// `y` is environment `x` with possibly more variables: same description and
/// hooks, every variable name of `x`, and, when `keep`, each with its value.
pub open spec fn env_extends(x: EnvView, y: EnvView, keep: bool) -> bool {
    &&& y.description == x.description
    &&& y.hooks == x.hooks
    &&& forall|k: Seq<char>| #[trigger] x.variables.contains_key(k) ==> y.variables.contains_key(k) && (keep
        ==> y.variables[k] == x.variables[k])
}

/// `b` is group `a` with possibly more: same description, and every
/// environment of `a` extended.
pub open spec fn group_extends(a: GroupView, b: GroupView, keep: bool) -> bool {
    &&& b.description == a.description
    &&& forall|e: Seq<char>| #[trigger] a.environments.contains_key(e) ==> b.environments.contains_key(e) && env_extends(
        a.environments[e],
        b.environments[e],
        keep,
    )
}

/// Every group of `a` is extended in `b`.
pub open spec fn groups_extend(a: Map<Seq<char>, GroupView>, b: Map<Seq<char>, GroupView>, keep: bool) -> bool {
    forall|g: Seq<char>| #[trigger] a.contains_key(g) ==> b.contains_key(g) && group_extends(a[g], b[g], keep)
}

proof fn lemma_group_extends_trans(a: GroupView, b: GroupView, c: GroupView, keep: bool)
    requires
        group_extends(a, b, keep),
        group_extends(b, c, keep),
    ensures
        group_extends(a, c, keep),
{
    assert forall|e: Seq<char>| #[trigger] a.environments.contains_key(e) implies c.environments.contains_key(e) && env_extends(
        a.environments[e],
        c.environments[e],
        keep,
    ) by {
        assert(b.environments.contains_key(e));
        let x = a.environments[e];
        let y = b.environments[e];
        let z = c.environments[e];
        assert forall|k: Seq<char>| #[trigger] x.variables.contains_key(k) implies z.variables.contains_key(k) && (keep
            ==> z.variables[k] == x.variables[k]) by {
            assert(y.variables.contains_key(k));
        }
    }
}

proof fn lemma_groups_extend_trans(a: Map<Seq<char>, GroupView>, b: Map<Seq<char>, GroupView>, c: Map<Seq<char>, GroupView>, keep: bool)
    requires
        groups_extend(a, b, keep),
        groups_extend(b, c, keep),
    ensures
        groups_extend(a, c, keep),
{
    assert forall|g: Seq<char>| #[trigger] a.contains_key(g) implies c.contains_key(g) && group_extends(a[g], c[g], keep) by {
        assert(b.contains_key(g));
        lemma_group_extends_trans(a[g], b[g], c[g], keep);
    }
}

proof fn lemma_groups_extend_refl(a: Map<Seq<char>, GroupView>, keep: bool)
    ensures
        groups_extend(a, a, keep),
{
}

proof fn lemma_step_env_extends(s: GroupState, target: Seq<char>, name: Seq<char>, env: EnvView, overwrite: bool)
    ensures
        group_extends(s.group, step_env(s, target, name, env, overwrite).group, !overwrite),
{
    let r = step_env(s, target, name, env, overwrite);
    if s.group.environments.contains_key(name) {
        let dst = s.group.environments[name];
        let nv = r.group.environments[name];
        assert forall|k: Seq<char>| #[trigger] dst.variables.contains_key(k) implies nv.variables.contains_key(k) && (!overwrite
            ==> nv.variables[k] == dst.variables[k]) by {
            if !overwrite {
                assert(!crate::merge::takes_var(dst.variables, env.variables, s.owner, target, overwrite, k));
            }
        }
        assert(env_extends(dst, nv, !overwrite));
    }
}

proof fn lemma_step_envs_extends(s: GroupState, target: Seq<char>, envs: Seq<(Seq<char>, EnvView)>, overwrite: bool)
    ensures
        group_extends(s.group, step_envs(s, target, envs, overwrite).group, !overwrite),
    decreases envs.len(),
{
    if envs.len() > 0 {
        lemma_step_envs_extends(s, target, envs.drop_last(), overwrite);
        let mid = step_envs(s, target, envs.drop_last(), overwrite);
        lemma_step_env_extends(mid, target, envs.last().0, envs.last().1, overwrite);
        lemma_group_extends_trans(s.group, mid.group, step_envs(s, target, envs, overwrite).group, !overwrite);
    }
}

proof fn lemma_merge_group_envs_extends(st: MergeState, target: Seq<char>, envs: Seq<(Seq<char>, EnvView)>, overwrite: bool)
    ensures
        groups_extend(st.groups, merge_group_envs(st, target, envs, overwrite).groups, !overwrite),
{
    let gs = GroupState { group: st.groups[target], owner: st.owner, counts: st.counts };
    lemma_step_envs_extends(gs, target, envs, overwrite);
}

proof fn lemma_enter_group_extends(st: MergeState, name: Seq<char>, description: Option<Seq<char>>, keep: bool)
    ensures
        groups_extend(st.groups, enter_group(st, name, description).groups, keep),
{
}

proof fn lemma_merge_keep_extends(st: MergeState, gs: Seq<(String, GroupDef)>, overwrite: bool)
    ensures
        groups_extend(st.groups, merge_keep(st, gs, overwrite).groups, !overwrite),
    decreases gs.len(),
{
    if gs.len() == 0 {
        lemma_groups_extend_refl(st.groups, !overwrite);
    } else {
        lemma_merge_keep_extends(st, gs.drop_last(), overwrite);
        let prev = merge_keep(st, gs.drop_last(), overwrite);
        let name = gs.last().0@;
        let g = gs.last().1;
        let st1 = enter_group(prev, name, g.description.deep_view());
        lemma_enter_group_extends(prev, name, g.description.deep_view(), !overwrite);
        lemma_merge_group_envs_extends(st1, name, g.environments.pairs(), overwrite);
        lemma_groups_extend_trans(st.groups, prev.groups, st1.groups, !overwrite);
        lemma_groups_extend_trans(st.groups, st1.groups, merge_keep(st, gs, overwrite).groups, !overwrite);
    }
}

proof fn lemma_merge_into_extends(st: MergeState, target: Seq<char>, gs: Seq<(String, GroupDef)>, overwrite: bool)
    ensures
        groups_extend(st.groups, crate::merge::merge_into(st, target, gs, overwrite).groups, !overwrite),
    decreases gs.len(),
{
    if gs.len() == 0 {
        lemma_groups_extend_refl(st.groups, !overwrite);
    } else {
        lemma_merge_into_extends(st, target, gs.drop_last(), overwrite);
        let prev = crate::merge::merge_into(st, target, gs.drop_last(), overwrite);
        lemma_merge_group_envs_extends(prev, target, gs.last().1.environments.pairs(), overwrite);
        lemma_groups_extend_trans(st.groups, prev.groups, crate::merge::merge_into(st, target, gs, overwrite).groups, !overwrite);
    }
}

/// An import removes nothing: every group keeps its description, every
/// environment its description and hooks, and every variable name stays;
/// unless the import overwrites, every variable also keeps its value.
pub proof fn law_import_keeps_existing(
    base: ConfigFile,
    imported: ConfigFile,
    mode: ImportTargetMode,
    target: Option<Seq<char>>,
    strategy: ImportConflictStrategy,
)
    ensures
        spec_merge_import(base, imported, mode, target, strategy) matches Ok(st) ==> groups_extend(
            base@.groups,
            st.groups,
            strategy != ImportConflictStrategy::OverwriteExisting,
        ),
{
    let overwrite = strategy == ImportConflictStrategy::OverwriteExisting;
    let st0 = MergeState { groups: base@.groups, owner: crate::merge::first_owner(base.groups), counts: zero_counts() };
    match mode {
        ImportTargetMode::KeepGroups => {
            lemma_merge_keep_extends(st0, imported.groups.entry_seq(), overwrite);
        },
        ImportTargetMode::IntoGroup => {
            match crate::merge::import_target(target) {
                Some(t) => {
                    let st1 = enter_group(st0, t, Some(crate::messages::group_description(t)));
                    lemma_enter_group_extends(st0, t, Some(crate::messages::group_description(t)), !overwrite);
                    lemma_merge_into_extends(st1, t, imported.groups.entry_seq(), overwrite);
                    lemma_groups_extend_trans(
                        base@.groups,
                        st1.groups,
                        crate::merge::merge_into(st1, t, imported.groups.entry_seq(), overwrite).groups,
                        !overwrite,
                    );
                },
                None => {},
            }
        },
    }
}

/// Hooks as storage keeps them: the post commands when there are some; hooks
/// without post commands are not stored.
pub open spec fn stored_hooks(h: Option<Option<Seq<Seq<char>>>>) -> Option<Option<Seq<Seq<char>>>> {
    match h {
        Some(Some(list)) => Some(Some(list)),
        _ => None,
    }
}

/// An environment as storage keeps it.
pub open spec fn stored_env(e: EnvView) -> EnvView {
    EnvView { description: e.description, variables: e.variables, hooks: stored_hooks(e.hooks) }
}

/// The groups as storage keeps them.
pub open spec fn stored_groups(c: ConfigView) -> Map<Seq<char>, GroupView> {
    c.groups.map_values(
        |g: GroupView| GroupView { description: g.description, environments: g.environments.map_values(|e: EnvView| stored_env(e)) },
    )
}

/// `grs` holds one row per group of `c`, with its description, in any order.
pub open spec fn are_group_rows(grs: Seq<(Seq<char>, Option<Seq<char>>)>, c: ConfigView) -> bool {
    &&& forall|i: int, j: int| 0 <= i < grs.len() && 0 <= j < grs.len() && i != j ==> #[trigger] grs[i].0 != #[trigger] grs[j].0
    &&& forall|i: int| 0 <= i < grs.len() ==> c.groups.contains_key(#[trigger] grs[i].0) && grs[i].1 == c.groups[grs[i].0].description
    &&& forall|g: Seq<char>| #[trigger] c.groups.contains_key(g) ==> exists|i: int| 0 <= i < grs.len() && #[trigger] grs[i].0 == g
}

/// The variable rows of a record are the variables of `e`, each once, in any order.
pub open spec fn are_var_rows(vs: Seq<(Seq<char>, Seq<char>)>, e: EnvView) -> bool {
    &&& forall|i: int, j: int| 0 <= i < vs.len() && 0 <= j < vs.len() && i != j ==> #[trigger] vs[i].0 != #[trigger] vs[j].0
    &&& forall|i: int| 0 <= i < vs.len() ==> e.variables.contains_key(#[trigger] vs[i].0) && e.variables[vs[i].0] == vs[i].1
    &&& forall|k: Seq<char>| #[trigger] e.variables.contains_key(k) ==> exists|i: int| 0 <= i < vs.len() && #[trigger] vs[i].0 == k
}

/// `recs` holds one record per environment of `c`, in any order, each with the
/// description, the stored hooks text and the variable rows of its environment.
pub open spec fn are_env_records(recs: Seq<crate::storage::EnvRecordView>, c: ConfigView) -> bool {
    &&& forall|i: int, j: int|
        0 <= i < recs.len() && 0 <= j < recs.len() && i != j ==> (#[trigger] recs[i].group_name, recs[i].name) != (
            #[trigger] recs[j].group_name,
            recs[j].name,
        )
    &&& forall|i: int| 0 <= i < recs.len() ==> {
        record_fits(#[trigger] recs[i], c)
    }
    &&& forall|g: Seq<char>, e: Seq<char>|
        c.groups.contains_key(g) && #[trigger] c.groups[g].environments.contains_key(e) ==> exists|i: int|
            0 <= i < recs.len() && #[trigger] recs[i].group_name == g && recs[i].name == e
}

proof fn lemma_vars_of_rows_distinct(rows: Seq<(Seq<char>, Seq<char>)>)
    requires
        forall|i: int, j: int| 0 <= i < rows.len() && 0 <= j < rows.len() && i != j ==> #[trigger] rows[i].0 != #[trigger] rows[j].0,
    ensures
        forall|k: Seq<char>| #[trigger] crate::storage::vars_of_rows(rows).contains_key(k) <==> exists|i: int|
            0 <= i < rows.len() && #[trigger] rows[i].0 == k,
        forall|i: int| 0 <= i < rows.len() ==> crate::storage::vars_of_rows(rows)[#[trigger] rows[i].0] == rows[i].1,
    decreases rows.len(),
{
    if rows.len() > 0 {
        let init = rows.drop_last();
        assert forall|i: int, j: int| 0 <= i < init.len() && 0 <= j < init.len() && i != j implies #[trigger] init[i].0
            != #[trigger] init[j].0 by {
            assert(init[i] == rows[i] && init[j] == rows[j]);
        }
        lemma_vars_of_rows_distinct(init);
        let m = crate::storage::vars_of_rows(rows);
        assert forall|k: Seq<char>| #[trigger] m.contains_key(k) <==> exists|i: int| 0 <= i < rows.len() && #[trigger] rows[i].0 == k by {
            if m.contains_key(k) && k != rows.last().0 {
                assert(crate::storage::vars_of_rows(init).contains_key(k));
                let i = choose|i: int| 0 <= i < init.len() && #[trigger] init[i].0 == k;
                assert(rows[i] == init[i]);
            }
            if exists|i: int| 0 <= i < rows.len() && #[trigger] rows[i].0 == k {
                let i = choose|i: int| 0 <= i < rows.len() && #[trigger] rows[i].0 == k;
                if i < rows.len() - 1 {
                    assert(init[i] == rows[i]);
                }
            }
        }
        assert forall|i: int| 0 <= i < rows.len() implies m[#[trigger] rows[i].0] == rows[i].1 by {
            if i < rows.len() - 1 {
                assert(init[i] == rows[i]);
                assert(rows[i].0 != rows[rows.len() - 1].0);
            }
        }
    }
}

proof fn lemma_groups_of_rows_distinct(rows: Seq<(Seq<char>, Option<Seq<char>>)>)
    requires
        forall|i: int, j: int| 0 <= i < rows.len() && 0 <= j < rows.len() && i != j ==> #[trigger] rows[i].0 != #[trigger] rows[j].0,
    ensures
        forall|k: Seq<char>| #[trigger] crate::storage::groups_of_rows(rows).contains_key(k) <==> exists|i: int|
            0 <= i < rows.len() && #[trigger] rows[i].0 == k,
        forall|i: int| 0 <= i < rows.len() ==> crate::storage::groups_of_rows(rows)[#[trigger] rows[i].0] == (GroupView {
            description: rows[i].1,
            environments: Map::empty(),
        }),
    decreases rows.len(),
{
    if rows.len() > 0 {
        let init = rows.drop_last();
        assert forall|i: int, j: int| 0 <= i < init.len() && 0 <= j < init.len() && i != j implies #[trigger] init[i].0
            != #[trigger] init[j].0 by {
            assert(init[i] == rows[i] && init[j] == rows[j]);
        }
        lemma_groups_of_rows_distinct(init);
        let m = crate::storage::groups_of_rows(rows);
        assert forall|k: Seq<char>| #[trigger] m.contains_key(k) <==> exists|i: int| 0 <= i < rows.len() && #[trigger] rows[i].0 == k by {
            if m.contains_key(k) && k != rows.last().0 {
                assert(crate::storage::groups_of_rows(init).contains_key(k));
                let i = choose|i: int| 0 <= i < init.len() && #[trigger] init[i].0 == k;
                assert(rows[i] == init[i]);
            }
            if exists|i: int| 0 <= i < rows.len() && #[trigger] rows[i].0 == k {
                let i = choose|i: int| 0 <= i < rows.len() && #[trigger] rows[i].0 == k;
                if i < rows.len() - 1 {
                    assert(init[i] == rows[i]);
                }
            }
        }
        assert forall|i: int| 0 <= i < rows.len() implies m[#[trigger] rows[i].0] == (GroupView {
            description: rows[i].1,
            environments: Map::empty(),
        }) by {
            if i < rows.len() - 1 {
                assert(init[i] == rows[i]);
                assert(rows[i].0 != rows[rows.len() - 1].0);
            }
        }
    }
}

/// Adding records with distinct (group, name) to groups that exist and have
/// no environments gives each group exactly the environments of its records.
proof fn lemma_add_records_distinct(m: Map<Seq<char>, GroupView>, recs: Seq<crate::storage::EnvRecordView>)
    requires
        forall|i: int| 0 <= i < recs.len() ==> m.contains_key(#[trigger] recs[i].group_name),
        forall|g: Seq<char>| #[trigger] m.contains_key(g) ==> m[g].environments == Map::<Seq<char>, EnvView>::empty(),
        forall|i: int, j: int|
            0 <= i < recs.len() && 0 <= j < recs.len() && i != j ==> (#[trigger] recs[i].group_name, recs[i].name) != (
                #[trigger] recs[j].group_name,
                recs[j].name,
            ),
    ensures
        crate::storage::add_records(m, recs).dom() == m.dom(),
        forall|g: Seq<char>| #[trigger] m.contains_key(g) ==> crate::storage::add_records(m, recs)[g].description == m[g].description,
        forall|g: Seq<char>, e: Seq<char>|
            m.contains_key(g) ==> (#[trigger] crate::storage::add_records(m, recs)[g].environments.contains_key(e) <==> exists|i: int|
                0 <= i < recs.len() && #[trigger] recs[i].group_name == g && recs[i].name == e),
        forall|i: int| 0 <= i < recs.len() ==> crate::storage::add_records(m, recs)[#[trigger] recs[i].group_name].environments[recs[i].name]
            == crate::storage::env_of_record(recs[i]),
    decreases recs.len(),
{
    if recs.len() > 0 {
        let init = recs.drop_last();
        let last = recs.last();
        assert forall|i: int| 0 <= i < init.len() implies m.contains_key(#[trigger] init[i].group_name) by {
            assert(init[i] == recs[i]);
        }
        assert forall|i: int, j: int| 0 <= i < init.len() && 0 <= j < init.len() && i != j implies (
            #[trigger] init[i].group_name,
            init[i].name,
        ) != (#[trigger] init[j].group_name, init[j].name) by {
            assert(init[i] == recs[i] && init[j] == recs[j]);
        }
        lemma_add_records_distinct(m, init);
        let prev = crate::storage::add_records(m, init);
        let r = crate::storage::add_records(m, recs);
        assert(m.contains_key(recs[recs.len() - 1].group_name));
        assert(prev.contains_key(last.group_name));
        assert(r.dom() =~= m.dom());
        assert forall|g: Seq<char>, e: Seq<char>|
            m.contains_key(g) implies (#[trigger] r[g].environments.contains_key(e) <==> exists|i: int|
                0 <= i < recs.len() && #[trigger] recs[i].group_name == g && recs[i].name == e) by {
            if r[g].environments.contains_key(e) && !(g == last.group_name && e == last.name) {
                assert(prev[g].environments.contains_key(e));
                let i = choose|i: int| 0 <= i < init.len() && #[trigger] init[i].group_name == g && init[i].name == e;
                assert(recs[i] == init[i]);
            }
            if exists|i: int| 0 <= i < recs.len() && #[trigger] recs[i].group_name == g && recs[i].name == e {
                let i = choose|i: int| 0 <= i < recs.len() && #[trigger] recs[i].group_name == g && recs[i].name == e;
                if i < recs.len() - 1 {
                    assert(init[i] == recs[i]);
                    assert(init[i].group_name == g && init[i].name == e);
                }
            }
        }
        assert forall|i: int| 0 <= i < recs.len() implies r[#[trigger] recs[i].group_name].environments[recs[i].name]
            == crate::storage::env_of_record(recs[i]) by {
            if i < recs.len() - 1 {
                assert(init[i] == recs[i]);
                assert((recs[i].group_name, recs[i].name) != (recs[recs.len() - 1].group_name, recs[recs.len() - 1].name));
            }
        }
    }
}

/// What storage gives back: the group rows and environment records of a
/// configuration, in any order, load as its groups, each environment with its
/// description, its variables and its post commands (hooks without post
/// commands are not kept), provided serde_json reads back each list of post
/// commands that it wrote.
pub proof fn law_stored_rows_load_back(
    c: ConfigView,
    grs: Seq<(Seq<char>, Option<Seq<char>>)>,
    recs: Seq<crate::storage::EnvRecordView>,
)
    requires
        are_group_rows(grs, c),
        are_env_records(recs, c),
        forall|g: Seq<char>, e: Seq<char>|
            c.groups.contains_key(g) && #[trigger] c.groups[g].environments.contains_key(e) ==> match c.groups[g].environments[e].hooks {
                Some(Some(list)) => crate::storage::spec_json_string_list(crate::storage::spec_json_of_strings(list)) == Some(list),
                _ => true,
            },
    ensures
        crate::storage::spec_config_from_rows(grs, recs) == (ConfigView { groups: stored_groups(c), environments: Map::empty() }),
{
    lemma_groups_of_rows_distinct(grs);
    let m0 = crate::storage::groups_of_rows(grs);
    assert forall|g: Seq<char>| #[trigger] m0.contains_key(g) implies m0[g].environments == Map::<Seq<char>, EnvView>::empty() by {
        let i = choose|i: int| 0 <= i < grs.len() && #[trigger] grs[i].0 == g;
    }
    assert forall|i: int| 0 <= i < recs.len() implies m0.contains_key(#[trigger] recs[i].group_name) by {
        let g = recs[i].group_name;
        assert(c.groups.contains_key(g));
        let j = choose|j: int| 0 <= j < grs.len() && #[trigger] grs[j].0 == g;
    }
    lemma_add_records_distinct(m0, recs);
    let r = crate::storage::add_records(m0, recs);
    let want = stored_groups(c);
    assert(m0.dom() =~= c.groups.dom()) by {
        assert forall|g: Seq<char>| m0.dom().contains(g) <==> #[trigger] c.groups.dom().contains(g) by {
            if m0.contains_key(g) {
                let i = choose|i: int| 0 <= i < grs.len() && #[trigger] grs[i].0 == g;
            }
            if c.groups.contains_key(g) {
                let i = choose|i: int| 0 <= i < grs.len() && #[trigger] grs[i].0 == g;
            }
        }
    }
    assert forall|g: Seq<char>| #[trigger] c.groups.contains_key(g) implies r[g] == want[g] by {
        let i = choose|i: int| 0 <= i < grs.len() && #[trigger] grs[i].0 == g;
        assert(m0[grs[i].0].description == grs[i].1);
        let cg = c.groups[g];
        let envs = cg.environments.map_values(|e: EnvView| stored_env(e));
        assert forall|e: Seq<char>| #[trigger] r[g].environments.contains_key(e) <==> envs.contains_key(e) by {
            if r[g].environments.contains_key(e) {
                let k = choose|k: int| 0 <= k < recs.len() && #[trigger] recs[k].group_name == g && recs[k].name == e;
            }
            if cg.environments.contains_key(e) {
                let k = choose|k: int| 0 <= k < recs.len() && #[trigger] recs[k].group_name == g && recs[k].name == e;
            }
        }
        assert forall|e: Seq<char>| #[trigger] r[g].environments.contains_key(e) implies r[g].environments[e] == envs[e] by {
            let k = choose|k: int| 0 <= k < recs.len() && #[trigger] recs[k].group_name == g && recs[k].name == e;
            let rec = recs[k];
            let env = cg.environments[e];
            assert(are_var_rows(rec.variables, env));
            lemma_vars_of_rows_distinct(rec.variables);
            let vm = crate::storage::vars_of_rows(rec.variables);
            assert forall|x: Seq<char>| #[trigger] vm.contains_key(x) <==> env.variables.contains_key(x) by {
                if vm.contains_key(x) {
                    let a = choose|a: int| 0 <= a < rec.variables.len() && #[trigger] rec.variables[a].0 == x;
                }
                if env.variables.contains_key(x) {
                    let a = choose|a: int| 0 <= a < rec.variables.len() && #[trigger] rec.variables[a].0 == x;
                }
            }
            assert forall|x: Seq<char>| #[trigger] vm.contains_key(x) implies vm[x] == env.variables[x] by {
                let a = choose|a: int| 0 <= a < rec.variables.len() && #[trigger] rec.variables[a].0 == x;
            }
            assert(vm =~= env.variables);
            assert(crate::storage::env_of_record(rec) =~= stored_env(env));
        }
        assert(r[g].environments =~= envs);
    }
    assert(r =~= want);
}

/// The group rows among stored rows, in order, as `(name, description)`.
pub open spec fn group_rows_of(rows: Seq<crate::storage::RowView>) -> Seq<(Seq<char>, Option<Seq<char>>)>
    decreases rows.len(),
{
    if rows.len() == 0 {
        Seq::empty()
    } else {
        group_rows_of(rows.drop_last()) + match rows.last() {
            crate::storage::RowView::Group { name, description } => seq![(name, description)],
            _ => Seq::empty(),
        }
    }
}

/// The variable rows of environment `e` of group `g` among stored rows, in order.
pub open spec fn var_rows_of(rows: Seq<crate::storage::RowView>, g: Seq<char>, e: Seq<char>) -> Seq<(Seq<char>, Seq<char>)>
    decreases rows.len(),
{
    if rows.len() == 0 {
        Seq::empty()
    } else {
        var_rows_of(rows.drop_last(), g, e) + match rows.last() {
            crate::storage::RowView::Variable { group_name, env_name, key, value } => if group_name == g && env_name == e {
                seq![(key, value)]
            } else {
                Seq::empty()
            },
            _ => Seq::empty(),
        }
    }
}

/// The environment records that a table of stored rows gives: one per
/// environment row among `rows`, with the variable rows of that environment in `table`.
pub open spec fn env_records_in(rows: Seq<crate::storage::RowView>, table: Seq<crate::storage::RowView>) -> Seq<
    crate::storage::EnvRecordView,
>
    decreases rows.len(),
{
    if rows.len() == 0 {
        Seq::empty()
    } else {
        env_records_in(rows.drop_last(), table) + match rows.last() {
            crate::storage::RowView::Environment { group_name, name, description, hooks_post_json } => seq![
                crate::storage::EnvRecordView {
                    group_name,
                    name,
                    description,
                    hooks_post_json,
                    variables: var_rows_of(table, group_name, name),
                },
            ],
            _ => Seq::empty(),
        }
    }
}

proof fn lemma_row_filters_concat(a: Seq<crate::storage::RowView>, b: Seq<crate::storage::RowView>, table: Seq<crate::storage::RowView>, g: Seq<char>, e: Seq<char>)
    ensures
        group_rows_of(a + b) == group_rows_of(a) + group_rows_of(b),
        var_rows_of(a + b, g, e) == var_rows_of(a, g, e) + var_rows_of(b, g, e),
        env_records_in(a + b, table) == env_records_in(a, table) + env_records_in(b, table),
    decreases b.len(),
{
    if b.len() == 0 {
        assert(a + b =~= a);
        assert(group_rows_of(a) + group_rows_of(b) =~= group_rows_of(a));
        assert(var_rows_of(a, g, e) + var_rows_of(b, g, e) =~= var_rows_of(a, g, e));
        assert(env_records_in(a, table) + env_records_in(b, table) =~= env_records_in(a, table));
    } else {
        lemma_row_filters_concat(a, b.drop_last(), table, g, e);
        assert((a + b).drop_last() =~= a + b.drop_last());
        assert((a + b).last() == b.last());
        assert(group_rows_of(a + b) =~= group_rows_of(a) + group_rows_of(b));
        assert(var_rows_of(a + b, g, e) =~= var_rows_of(a, g, e) + var_rows_of(b, g, e));
        assert(env_records_in(a + b, table) =~= env_records_in(a, table) + env_records_in(b, table));
    }
}

proof fn lemma_var_rows_filters(g: Seq<char>, e: Seq<char>, vs: Seq<(Seq<char>, Seq<char>)>, table: Seq<crate::storage::RowView>, g2: Seq<char>, e2: Seq<char>)
    ensures
        group_rows_of(crate::storage::var_rows(g, e, vs)) == Seq::<(Seq<char>, Option<Seq<char>>)>::empty(),
        env_records_in(crate::storage::var_rows(g, e, vs), table) == Seq::<crate::storage::EnvRecordView>::empty(),
        var_rows_of(crate::storage::var_rows(g, e, vs), g2, e2) == (if g == g2 && e == e2 {
            vs
        } else {
            Seq::empty()
        }),
    decreases vs.len(),
{
    let rows = crate::storage::var_rows(g, e, vs);
    if vs.len() == 0 {
        assert(rows =~= Seq::<crate::storage::RowView>::empty());
    } else {
        lemma_var_rows_filters(g, e, vs.drop_last(), table, g2, e2);
        assert(rows.drop_last() =~= crate::storage::var_rows(g, e, vs.drop_last()));
        assert(group_rows_of(rows) =~= Seq::<(Seq<char>, Option<Seq<char>>)>::empty());
        assert(env_records_in(rows, table) =~= Seq::<crate::storage::EnvRecordView>::empty());
        if g == g2 && e == e2 {
            assert(vs.drop_last().push(vs.last()) =~= vs);
            assert(var_rows_of(rows, g2, e2) =~= vs);
        } else {
            assert(var_rows_of(rows, g2, e2) =~= Seq::<(Seq<char>, Seq<char>)>::empty());
        }
    }
}

proof fn lemma_env_row_single(row: crate::storage::RowView, table: Seq<crate::storage::RowView>, g: Seq<char>, e: Seq<char>)
    requires
        row is Environment,
    ensures
        group_rows_of(seq![row]) == Seq::<(Seq<char>, Option<Seq<char>>)>::empty(),
        var_rows_of(seq![row], g, e) == Seq::<(Seq<char>, Seq<char>)>::empty(),
        env_records_in(seq![row], table) == seq![
            crate::storage::EnvRecordView {
                group_name: row->Environment_group_name,
                name: row->Environment_name,
                description: row->Environment_description,
                hooks_post_json: row->Environment_hooks_post_json,
                variables: var_rows_of(table, row->Environment_group_name, row->Environment_name),
            },
        ],
{
    let s = seq![row];
    assert(s.drop_last() =~= Seq::<crate::storage::RowView>::empty());
    assert(s.last() == row);
    assert(group_rows_of(Seq::<crate::storage::RowView>::empty()) == Seq::<(Seq<char>, Option<Seq<char>>)>::empty());
    assert(var_rows_of(Seq::<crate::storage::RowView>::empty(), g, e) == Seq::<(Seq<char>, Seq<char>)>::empty());
    assert(env_records_in(Seq::<crate::storage::RowView>::empty(), table) == Seq::<crate::storage::EnvRecordView>::empty());
    assert(group_rows_of(s) =~= Seq::<(Seq<char>, Option<Seq<char>>)>::empty());
    assert(var_rows_of(s, g, e) =~= Seq::<(Seq<char>, Seq<char>)>::empty());
    assert(env_records_in(s, table) =~= seq![
        crate::storage::EnvRecordView {
            group_name: row->Environment_group_name,
            name: row->Environment_name,
            description: row->Environment_description,
            hooks_post_json: row->Environment_hooks_post_json,
            variables: var_rows_of(table, row->Environment_group_name, row->Environment_name),
        },
    ]);
}

/// The record that the row of an environment gives.
pub open spec fn record_of(g: Seq<char>, x: (String, EnvDef), table: Seq<crate::storage::RowView>) -> crate::storage::EnvRecordView {
    crate::storage::EnvRecordView {
        group_name: g,
        name: x.0@,
        description: x.1@.description,
        hooks_post_json: crate::storage::hooks_json(x.1@.hooks),
        variables: var_rows_of(table, g, x.0@),
    }
}

proof fn lemma_env_rows_filters(g: Seq<char>, es: Seq<(String, EnvDef)>, table: Seq<crate::storage::RowView>)
    ensures
        group_rows_of(crate::storage::env_rows(g, es)) == Seq::<(Seq<char>, Option<Seq<char>>)>::empty(),
        env_records_in(crate::storage::env_rows(g, es), table) == es.map_values(|x: (String, EnvDef)| record_of(g, x, table)),
        forall|g2: Seq<char>, e2: Seq<char>| g2 != g ==> #[trigger] var_rows_of(crate::storage::env_rows(g, es), g2, e2) == Seq::<(Seq<char>, Seq<char>)>::empty(),
    decreases es.len(),
{
    let rows = crate::storage::env_rows(g, es);
    if es.len() == 0 {
        assert(es.map_values(|x: (String, EnvDef)| record_of(g, x, table)) =~= Seq::<crate::storage::EnvRecordView>::empty());
    } else {
        let x = es.last();
        lemma_env_rows_filters(g, es.drop_last(), table);
        let env_row = seq![crate::storage::RowView::Environment {
            group_name: g,
            name: x.0@,
            description: x.1@.description,
            hooks_post_json: crate::storage::hooks_json(x.1@.hooks),
        }];
        let vr = crate::storage::var_rows(g, x.0@, x.1.variables.pairs());
        assert(rows == crate::storage::env_rows(g, es.drop_last()) + env_row + vr);
        assert forall|g2: Seq<char>, e2: Seq<char>| g2 != g implies #[trigger] var_rows_of(rows, g2, e2) == Seq::<(Seq<char>, Seq<char>)>::empty() by {
            lemma_row_filters_concat(crate::storage::env_rows(g, es.drop_last()) + env_row, vr, table, g2, e2);
            lemma_row_filters_concat(crate::storage::env_rows(g, es.drop_last()), env_row, table, g2, e2);
            lemma_var_rows_filters(g, x.0@, x.1.variables.pairs(), table, g2, e2);
            assert(var_rows_of(crate::storage::env_rows(g, es.drop_last()), g2, e2) == Seq::<(Seq<char>, Seq<char>)>::empty());
            lemma_env_row_single(env_row[0], table, g2, e2);
            assert(env_row == seq![env_row[0]]);
            assert(var_rows_of(rows, g2, e2) =~= Seq::<(Seq<char>, Seq<char>)>::empty());
        }
        lemma_row_filters_concat(crate::storage::env_rows(g, es.drop_last()) + env_row, vr, table, g, g);
        lemma_row_filters_concat(crate::storage::env_rows(g, es.drop_last()), env_row, table, g, g);
        lemma_var_rows_filters(g, x.0@, x.1.variables.pairs(), table, g, g);
        lemma_env_row_single(env_row[0], table, g, g);
        assert(env_row == seq![env_row[0]]);
        assert(env_records_in(env_row, table) =~= seq![record_of(g, x, table)]);
        assert(group_rows_of(rows) =~= Seq::<(Seq<char>, Option<Seq<char>>)>::empty());
        assert(es.map_values(|x: (String, EnvDef)| record_of(g, x, table)) =~= es.drop_last().map_values(
            |x: (String, EnvDef)| record_of(g, x, table),
        ) + seq![record_of(g, x, table)]);
        assert(env_records_in(rows, table) =~= es.map_values(|x: (String, EnvDef)| record_of(g, x, table)));
    }
}

/// Within one group, the variable rows of its environment `j` are that
/// environment's variables, and an environment name it lacks has none.
proof fn lemma_env_rows_vars(g: Seq<char>, envs: StrMap<EnvDef>, k: int, e: Seq<char>)
    requires
        envs.wf(),
        0 <= k <= envs.len(),
    ensures
        var_rows_of(crate::storage::env_rows(g, envs.entry_seq().take(k)), g, e) == (if exists|j: int| 0 <= j < k && #[trigger] envs.key_at(j) == e {
            envs.entry_seq()[envs.index_of(e)].1.variables.pairs()
        } else {
            Seq::empty()
        }),
    decreases k,
{
    let es = envs.entry_seq().take(k);
    if k == 0 {
        assert(es =~= Seq::<(String, EnvDef)>::empty());
    } else {
        lemma_env_rows_vars(g, envs, k - 1, e);
        assert(es.drop_last() =~= envs.entry_seq().take(k - 1));
        let x = es.last();
        assert(x == envs.entry_seq()[k - 1]);
        let env_row = seq![crate::storage::RowView::Environment {
            group_name: g,
            name: x.0@,
            description: x.1@.description,
            hooks_post_json: crate::storage::hooks_json(x.1@.hooks),
        }];
        let vr = crate::storage::var_rows(g, x.0@, x.1.variables.pairs());
        let prev = crate::storage::env_rows(g, envs.entry_seq().take(k - 1));
        lemma_row_filters_concat(prev + env_row, vr, Seq::empty(), g, e);
        lemma_row_filters_concat(prev, env_row, Seq::empty(), g, e);
        lemma_var_rows_filters(g, x.0@, x.1.variables.pairs(), Seq::empty(), g, e);
        lemma_env_row_single(env_row[0], Seq::empty(), g, e);
        assert(env_row == seq![env_row[0]]);
        let found_before = exists|j: int| 0 <= j < k - 1 && #[trigger] envs.key_at(j) == e;
        if envs.key_at(k - 1) == e {
            envs.lemma_map_at(k - 1);
            assert(!found_before) by {
                if found_before {
                    let j = choose|j: int| 0 <= j < k - 1 && #[trigger] envs.key_at(j) == e;
                    assert(envs.key_at(j) != envs.key_at(k - 1));
                }
            }
            assert(exists|j: int| 0 <= j < k && #[trigger] envs.key_at(j) == e);
            assert(var_rows_of(crate::storage::env_rows(g, es), g, e) =~= x.1.variables.pairs());
        } else {
            if exists|j: int| 0 <= j < k && #[trigger] envs.key_at(j) == e {
                let j = choose|j: int| 0 <= j < k && #[trigger] envs.key_at(j) == e;
                assert(j < k - 1);
                assert(found_before);
            }
            if found_before {
                let j = choose|j: int| 0 <= j < k - 1 && #[trigger] envs.key_at(j) == e;
                assert(exists|j2: int| 0 <= j2 < k && #[trigger] envs.key_at(j2) == e);
            }
            assert(var_rows_of(crate::storage::env_rows(g, es), g, e) =~= var_rows_of(prev, g, e));
        }
    }
}

proof fn lemma_group_row_single(row: crate::storage::RowView, table: Seq<crate::storage::RowView>, g: Seq<char>, e: Seq<char>)
    requires
        row is Group,
    ensures
        group_rows_of(seq![row]) == seq![(row->Group_name, row->Group_description)],
        var_rows_of(seq![row], g, e) == Seq::<(Seq<char>, Seq<char>)>::empty(),
        env_records_in(seq![row], table) == Seq::<crate::storage::EnvRecordView>::empty(),
{
    let s = seq![row];
    assert(s.drop_last() =~= Seq::<crate::storage::RowView>::empty());
    assert(s.last() == row);
    assert(group_rows_of(Seq::<crate::storage::RowView>::empty()) == Seq::<(Seq<char>, Option<Seq<char>>)>::empty());
    assert(var_rows_of(Seq::<crate::storage::RowView>::empty(), g, e) == Seq::<(Seq<char>, Seq<char>)>::empty());
    assert(env_records_in(Seq::<crate::storage::RowView>::empty(), table) == Seq::<crate::storage::EnvRecordView>::empty());
    assert(group_rows_of(s) =~= seq![(row->Group_name, row->Group_description)]);
    assert(var_rows_of(s, g, e) =~= Seq::<(Seq<char>, Seq<char>)>::empty());
    assert(env_records_in(s, table) =~= Seq::<crate::storage::EnvRecordView>::empty());
}

/// The records of the environments of the groups, group after group.
pub open spec fn group_recs(gs: Seq<(String, GroupDef)>, table: Seq<crate::storage::RowView>) -> Seq<crate::storage::EnvRecordView>
    decreases gs.len(),
{
    if gs.len() == 0 {
        Seq::empty()
    } else {
        group_recs(gs.drop_last(), table) + gs.last().1.environments.entry_seq().map_values(
            |x: (String, EnvDef)| record_of(gs.last().0@, x, table),
        )
    }
}

proof fn lemma_config_rows_filters(m: StrMap<GroupDef>, n: int, table: Seq<crate::storage::RowView>, g: Seq<char>, e: Seq<char>)
    requires
        m.deep_wf(),
        0 <= n <= m.len(),
    ensures
        group_rows_of(crate::storage::config_rows(m.entry_seq().take(n))) == m.entry_seq().take(n).map_values(
            |x: (String, GroupDef)| (x.0@, x.1@.description),
        ),
        env_records_in(crate::storage::config_rows(m.entry_seq().take(n)), table) == group_recs(m.entry_seq().take(n), table),
        var_rows_of(crate::storage::config_rows(m.entry_seq().take(n)), g, e) == (if exists|i: int| 0 <= i < n && #[trigger] m.key_at(i) == g {
            var_rows_of(crate::storage::env_rows(g, m.entry_seq()[m.index_of(g)].1.environments.entry_seq()), g, e)
        } else {
            Seq::empty()
        }),
    decreases n,
{
    let gs = m.entry_seq().take(n);
    if n == 0 {
        assert(gs =~= Seq::<(String, GroupDef)>::empty());
        assert(gs.map_values(|x: (String, GroupDef)| (x.0@, x.1@.description)) =~= Seq::<(Seq<char>, Option<Seq<char>>)>::empty());
    } else {
        lemma_config_rows_filters(m, n - 1, table, g, e);
        assert(gs.drop_last() =~= m.entry_seq().take(n - 1));
        let x = gs.last();
        assert(x == m.entry_seq()[n - 1]);
        let prev = crate::storage::config_rows(m.entry_seq().take(n - 1));
        let grow = seq![crate::storage::RowView::Group { name: x.0@, description: x.1@.description }];
        let er = crate::storage::env_rows(x.0@, x.1.environments.entry_seq());
        assert(crate::storage::config_rows(gs) == prev + grow + er);
        lemma_row_filters_concat(prev + grow, er, table, g, e);
        lemma_row_filters_concat(prev, grow, table, g, e);
        lemma_group_row_single(grow[0], table, g, e);
        assert(grow == seq![grow[0]]);
        lemma_env_rows_filters(x.0@, x.1.environments.entry_seq(), table);
        assert(gs.map_values(|x: (String, GroupDef)| (x.0@, x.1@.description)) =~= m.entry_seq().take(n - 1).map_values(
            |x: (String, GroupDef)| (x.0@, x.1@.description),
        ) + seq![(x.0@, x.1@.description)]);
        assert(group_rows_of(crate::storage::config_rows(gs)) =~= gs.map_values(|x: (String, GroupDef)| (x.0@, x.1@.description)));
        assert(env_records_in(crate::storage::config_rows(gs), table) =~= group_recs(gs, table));
        let found_before = exists|i: int| 0 <= i < n - 1 && #[trigger] m.key_at(i) == g;
        if m.key_at(n - 1) == g {
            m.lemma_map_at(n - 1);
            assert(!found_before) by {
                if found_before {
                    let i = choose|i: int| 0 <= i < n - 1 && #[trigger] m.key_at(i) == g;
                    assert(m.key_at(i) != m.key_at(n - 1));
                }
            }
            assert(exists|i: int| 0 <= i < n && #[trigger] m.key_at(i) == g);
            assert(var_rows_of(crate::storage::config_rows(gs), g, e) =~= var_rows_of(er, g, e));
        } else {
            assert(var_rows_of(er, g, e) == Seq::<(Seq<char>, Seq<char>)>::empty());
            if exists|i: int| 0 <= i < n && #[trigger] m.key_at(i) == g {
                let i = choose|i: int| 0 <= i < n && #[trigger] m.key_at(i) == g;
                assert(i < n - 1);
                assert(found_before);
            }
            if found_before {
                let i = choose|i: int| 0 <= i < n - 1 && #[trigger] m.key_at(i) == g;
                assert(exists|i2: int| 0 <= i2 < n && #[trigger] m.key_at(i2) == g);
            }
            assert(var_rows_of(crate::storage::config_rows(gs), g, e) =~= var_rows_of(prev, g, e));
        }
    }
}

proof fn lemma_group_recs_shape(m: StrMap<GroupDef>, n: int, table: Seq<crate::storage::RowView>)
    requires
        m.deep_wf(),
        0 <= n <= m.len(),
    ensures
        ({
            let r = group_recs(m.entry_seq().take(n), table);
            &&& forall|a: int| 0 <= a < r.len() ==> exists|i: int, j: int|
                0 <= i < n && 0 <= j < m.entry_seq()[i].1.environments.len() && #[trigger] r[a] == record_of(
                    m.key_at(i),
                    #[trigger] m.entry_seq()[i].1.environments.entry_seq()[j],
                    table,
                )
            &&& forall|a: int, b: int|
                0 <= a < r.len() && 0 <= b < r.len() && a != b ==> (#[trigger] r[a].group_name, r[a].name) != (
                    #[trigger] r[b].group_name,
                    r[b].name,
                )
            &&& forall|i: int, j: int|
                0 <= i < n && 0 <= j < m.entry_seq()[i].1.environments.len() ==> exists|a: int|
                    0 <= a < r.len() && #[trigger] r[a] == #[trigger] record_of(m.key_at(i), m.entry_seq()[i].1.environments.entry_seq()[j], table)
        }),
    decreases n,
{
    let gs = m.entry_seq().take(n);
    let r = group_recs(gs, table);
    if n == 0 {
        assert(gs =~= Seq::<(String, GroupDef)>::empty());
    } else {
        lemma_group_recs_shape(m, n - 1, table);
        assert(gs.drop_last() =~= m.entry_seq().take(n - 1));
        let x = gs.last();
        assert(x == m.entry_seq()[n - 1]);
        assert(x.1.inv());
        let envs = x.1.environments;
        let prev = group_recs(m.entry_seq().take(n - 1), table);
        let block = envs.entry_seq().map_values(|y: (String, EnvDef)| record_of(x.0@, y, table));
        assert(r == prev + block);
        assert forall|a: int| 0 <= a < r.len() implies exists|i: int, j: int|
            0 <= i < n && 0 <= j < m.entry_seq()[i].1.environments.len() && #[trigger] r[a] == record_of(
                m.key_at(i),
                #[trigger] m.entry_seq()[i].1.environments.entry_seq()[j],
                table,
            ) by {
            if a < prev.len() {
                assert(r[a] == prev[a]);
            } else {
                let j = a - prev.len();
                assert(r[a] == block[j]);
                assert(block[j] == record_of(m.key_at(n - 1), m.entry_seq()[n - 1].1.environments.entry_seq()[j], table));
            }
        }
        assert forall|a: int, b: int|
            0 <= a < r.len() && 0 <= b < r.len() && a != b implies (#[trigger] r[a].group_name, r[a].name) != (
                #[trigger] r[b].group_name,
                r[b].name,
            ) by {
            if a < prev.len() && b < prev.len() {
                assert(r[a] == prev[a] && r[b] == prev[b]);
            } else if a >= prev.len() && b >= prev.len() {
                let ja = a - prev.len();
                let jb = b - prev.len();
                assert(r[a] == block[ja] && r[b] == block[jb]);
                assert(envs.key_at(ja) != envs.key_at(jb));
            } else {
                let (p, q) = if a < prev.len() { (a, b) } else { (b, a) };
                assert(r[p] == prev[p]);
                assert(r[q] == block[q - prev.len()]);
                let (i, j) = choose|i: int, j: int|
                    0 <= i < n - 1 && 0 <= j < m.entry_seq()[i].1.environments.len() && #[trigger] prev[p] == record_of(
                        m.key_at(i),
                        #[trigger] m.entry_seq()[i].1.environments.entry_seq()[j],
                        table,
                    );
                assert(m.key_at(i) != m.key_at(n - 1));
            }
        }
        assert forall|i: int, j: int|
            0 <= i < n && 0 <= j < m.entry_seq()[i].1.environments.len() implies exists|a: int|
                0 <= a < r.len() && #[trigger] r[a] == #[trigger] record_of(m.key_at(i), m.entry_seq()[i].1.environments.entry_seq()[j], table) by {
            if i < n - 1 {
                let a = choose|a: int|
                    0 <= a < prev.len() && #[trigger] prev[a] == #[trigger] record_of(m.key_at(i), m.entry_seq()[i].1.environments.entry_seq()[j], table);
                assert(r[a] == prev[a]);
            } else {
                assert(r[prev.len() + j] == block[j]);
            }
        }
    }
}

/// What storage writes: the rows that `config_to_rows` lists for a
/// configuration hold one row per group, with its description, and one
/// environment row per environment, with its description, its hooks text and
/// exactly its variables as variable rows.
pub proof fn law_saved_rows_describe_config(cfg: ConfigFile)
    requires
        cfg.wf(),
    ensures
        are_group_rows(group_rows_of(crate::storage::config_rows(cfg.groups.entry_seq())), cfg@),
        are_env_records(
            env_records_in(crate::storage::config_rows(cfg.groups.entry_seq()), crate::storage::config_rows(cfg.groups.entry_seq())),
            cfg@,
        ),
{
    let m = cfg.groups;
    let n = m.len() as int;
    let rows = crate::storage::config_rows(m.entry_seq());
    assert(m.entry_seq().take(n) =~= m.entry_seq());
    lemma_config_rows_filters(m, n, rows, Seq::empty(), Seq::empty());
    let grs = group_rows_of(rows);
    assert(grs == m.entry_seq().map_values(|x: (String, GroupDef)| (x.0@, x.1@.description)));
    assert forall|i: int, j: int| 0 <= i < grs.len() && 0 <= j < grs.len() && i != j implies #[trigger] grs[i].0 != #[trigger] grs[j].0 by {
        assert(m.key_at(i) != m.key_at(j));
    }
    assert forall|i: int| 0 <= i < grs.len() implies cfg@.groups.contains_key(#[trigger] grs[i].0) && grs[i].1 == cfg@.groups[grs[i].0].description by {
        m.lemma_map_at(i);
    }
    assert forall|g: Seq<char>| #[trigger] cfg@.groups.contains_key(g) implies exists|i: int| 0 <= i < grs.len() && #[trigger] grs[i].0 == g by {
        m.lemma_map_has(g);
        let i = m.index_of(g);
        assert(grs[i].0 == g);
    }
    lemma_group_recs_shape(m, n, rows);
    let recs = env_records_in(rows, rows);
    assert(recs == group_recs(m.entry_seq(), rows));
    assert forall|a: int| 0 <= a < recs.len() implies record_fits(#[trigger] recs[a], cfg@) by {
        let (i, j) = choose|i: int, j: int|
            0 <= i < n && 0 <= j < m.entry_seq()[i].1.environments.len() && #[trigger] recs[a] == record_of(
                m.key_at(i),
                #[trigger] m.entry_seq()[i].1.environments.entry_seq()[j],
                rows,
            );
        lemma_record_fits(cfg, i, j);
    }
    assert forall|g: Seq<char>, e: Seq<char>|
        cfg@.groups.contains_key(g) && #[trigger] cfg@.groups[g].environments.contains_key(e) implies exists|a: int|
            0 <= a < recs.len() && #[trigger] recs[a].group_name == g && recs[a].name == e by {
        m.lemma_map_has(g);
        let i = m.index_of(g);
        assert(m.entry_seq()[i].1.inv());
        let envs = m.entry_seq()[i].1.environments;
        envs.lemma_map_has(e);
        let j = envs.index_of(e);
        let a = choose|a: int|
            0 <= a < recs.len() && #[trigger] recs[a] == #[trigger] record_of(m.key_at(i), m.entry_seq()[i].1.environments.entry_seq()[j], rows);
        assert(recs[a].group_name == g && recs[a].name == e);
    }
}

/// The conditions `are_env_records` puts on one record.
pub open spec fn record_fits(r: crate::storage::EnvRecordView, c: ConfigView) -> bool {
    &&& c.groups.contains_key(r.group_name)
    &&& c.groups[r.group_name].environments.contains_key(r.name)
    &&& r.description == c.groups[r.group_name].environments[r.name].description
    &&& r.hooks_post_json == crate::storage::hooks_json(c.groups[r.group_name].environments[r.name].hooks)
    &&& are_var_rows(r.variables, c.groups[r.group_name].environments[r.name])
}

proof fn lemma_record_fits(cfg: ConfigFile, i: int, j: int)
    requires
        cfg.wf(),
        0 <= i < cfg.groups.len(),
        0 <= j < cfg.groups.entry_seq()[i].1.environments.len(),
    ensures
        record_fits(
            record_of(
                cfg.groups.key_at(i),
                cfg.groups.entry_seq()[i].1.environments.entry_seq()[j],
                crate::storage::config_rows(cfg.groups.entry_seq()),
            ),
            cfg@,
        ),
{
    let m = cfg.groups;
    let n = m.len() as int;
    let rows = crate::storage::config_rows(m.entry_seq());
    let g = m.key_at(i);
    let grp = m.entry_seq()[i].1;
    assert(grp.inv());
    let envs = grp.environments;
    let x = envs.entry_seq()[j];
    let e = x.0@;
    assert(x.1.inv());
    m.lemma_map_at(i);
    envs.lemma_map_at(j);
    assert(cfg@.groups[g] == grp@);
    assert(cfg@.groups[g].environments[e] == x.1@);
    assert(m.entry_seq().take(n) =~= m.entry_seq());
    lemma_config_rows_filters(m, n, rows, g, e);
    assert(exists|i2: int| 0 <= i2 < n && #[trigger] m.key_at(i2) == g);
    assert(envs.entry_seq().take(envs.len() as int) =~= envs.entry_seq());
    lemma_env_rows_vars(g, envs, envs.len() as int, e);
    assert(exists|j2: int| 0 <= j2 < envs.len() && #[trigger] envs.key_at(j2) == e);
    let vs = var_rows_of(rows, g, e);
    assert(vs == x.1.variables.pairs());
    let vm = x.1.variables;
    assert forall|a: int, b: int| 0 <= a < vs.len() && 0 <= b < vs.len() && a != b implies #[trigger] vs[a].0 != #[trigger] vs[b].0 by {
        assert(vm.key_at(a) != vm.key_at(b));
    }
    assert forall|a: int| 0 <= a < vs.len() implies x.1@.variables.contains_key(#[trigger] vs[a].0) && x.1@.variables[vs[a].0] == vs[a].1 by {
        vm.lemma_map_at(a);
    }
    assert forall|k: Seq<char>| #[trigger] x.1@.variables.contains_key(k) implies exists|a: int| 0 <= a < vs.len() && #[trigger] vs[a].0 == k by {
        vm.lemma_map_has(k);
        let a = vm.index_of(k);
        assert(vs[a].0 == k);
    }
}

/// Saving and loading: rows read back in any order, each once, load as the
/// configuration that was saved, as storage keeps it, provided serde_json
/// reads back each list of post commands it wrote.
pub proof fn law_save_then_load(
    cfg: ConfigFile,
    grs: Seq<(Seq<char>, Option<Seq<char>>)>,
    recs: Seq<crate::storage::EnvRecordView>,
)
    requires
        cfg.wf(),
        forall|g: Seq<char>, e: Seq<char>|
            cfg@.groups.contains_key(g) && #[trigger] cfg@.groups[g].environments.contains_key(e) ==> match cfg@.groups[g].environments[e].hooks {
                Some(Some(list)) => crate::storage::spec_json_string_list(crate::storage::spec_json_of_strings(list)) == Some(list),
                _ => true,
            },
        grs.no_duplicates(),
        grs.to_set() == group_rows_of(crate::storage::config_rows(cfg.groups.entry_seq())).to_set(),
        recs.no_duplicates(),
        recs.to_set() == env_records_in(
            crate::storage::config_rows(cfg.groups.entry_seq()),
            crate::storage::config_rows(cfg.groups.entry_seq()),
        ).to_set(),
    ensures
        crate::storage::spec_config_from_rows(grs, recs) == (ConfigView { groups: stored_groups(cfg@), environments: Map::empty() }),
{
    let rows = crate::storage::config_rows(cfg.groups.entry_seq());
    let og = group_rows_of(rows);
    let orec = env_records_in(rows, rows);
    law_saved_rows_describe_config(cfg);
    let c = cfg@;
    assert forall|i: int| 0 <= i < grs.len() implies #[trigger] og.contains(grs[i]) by {
        assert(grs.to_set().contains(grs[i]));
    }
    assert forall|i: int, j: int| 0 <= i < grs.len() && 0 <= j < grs.len() && i != j implies #[trigger] grs[i].0 != #[trigger] grs[j].0 by {
        assert(og.contains(grs[i]) && og.contains(grs[j]));
        let p = choose|p: int| 0 <= p < og.len() && og[p] == grs[i];
        let q = choose|q: int| 0 <= q < og.len() && og[q] == grs[j];
        if grs[i].0 == grs[j].0 {
            if p != q {
                assert(og[p].0 != og[q].0);
            }
            assert(grs[i] == grs[j]);
        }
    }
    assert forall|i: int| 0 <= i < grs.len() implies c.groups.contains_key(#[trigger] grs[i].0) && grs[i].1 == c.groups[grs[i].0].description by {
        assert(og.contains(grs[i]));
        let p = choose|p: int| 0 <= p < og.len() && og[p] == grs[i];
        assert(c.groups.contains_key(og[p].0));
    }
    assert forall|g: Seq<char>| #[trigger] c.groups.contains_key(g) implies exists|i: int| 0 <= i < grs.len() && #[trigger] grs[i].0 == g by {
        let p = choose|p: int| 0 <= p < og.len() && #[trigger] og[p].0 == g;
        assert(og.contains(og[p]));
        assert(og.to_set().contains(og[p]));
        assert(grs.contains(og[p]));
        let i = choose|i: int| 0 <= i < grs.len() && grs[i] == og[p];
        assert(grs[i].0 == g);
    }
    assert(are_group_rows(grs, c));
    assert forall|i: int| 0 <= i < recs.len() implies #[trigger] orec.contains(recs[i]) by {
        assert(recs.to_set().contains(recs[i]));
    }
    assert forall|i: int, j: int|
        0 <= i < recs.len() && 0 <= j < recs.len() && i != j implies (#[trigger] recs[i].group_name, recs[i].name) != (
            #[trigger] recs[j].group_name,
            recs[j].name,
        ) by {
        assert(orec.contains(recs[i]) && orec.contains(recs[j]));
        let p = choose|p: int| 0 <= p < orec.len() && orec[p] == recs[i];
        let q = choose|q: int| 0 <= q < orec.len() && orec[q] == recs[j];
        if recs[i].group_name == recs[j].group_name && recs[i].name == recs[j].name {
            if p != q {
                assert((orec[p].group_name, orec[p].name) != (orec[q].group_name, orec[q].name));
            }
            assert(recs[i] == recs[j]);
        }
    }
    assert forall|i: int| 0 <= i < recs.len() implies record_fits(#[trigger] recs[i], c) by {
        assert(orec.contains(recs[i]));
        let p = choose|p: int| 0 <= p < orec.len() && orec[p] == recs[i];
        assert(record_fits(orec[p], c));
    }
    assert forall|g: Seq<char>, e: Seq<char>|
        c.groups.contains_key(g) && #[trigger] c.groups[g].environments.contains_key(e) implies exists|i: int|
            0 <= i < recs.len() && #[trigger] recs[i].group_name == g && recs[i].name == e by {
        let p = choose|p: int| 0 <= p < orec.len() && #[trigger] orec[p].group_name == g && orec[p].name == e;
        assert(orec.contains(orec[p]));
        assert(orec.to_set().contains(orec[p]));
        assert(recs.contains(orec[p]));
        let i = choose|i: int| 0 <= i < recs.len() && recs[i] == orec[p];
        assert(recs[i].group_name == g && recs[i].name == e);
    }
    assert(are_env_records(recs, c));
    law_stored_rows_load_back(c, grs, recs);
}

/// Applying an environment and then detecting: once every entry of the plan
/// for an environment holds its value in the persistent scope, the
/// environment counts as active.
pub proof fn law_applied_environment_is_active(
    entries: Seq<(String, String)>,
    env: EnvView,
    current: Map<Seq<char>, Seq<char>>,
)
    requires
        crate::apply::entries_of(entries, env.variables),
        forall|i: int| 0 <= i < entries.len() ==> current.contains_key(#[trigger] entries[i].0@) && current[entries[i].0@] == entries[i].1@,
    ensures
        crate::listing::env_is_active(env, current),
{
    assert forall|k: Seq<char>| #[trigger] env.variables.contains_key(k) implies current.contains_key(k) && current[k] == env.variables[k] by {
        let i = choose|i: int| 0 <= i < entries.len() && #[trigger] entries[i].0@ == k;
        assert(current.contains_key(entries[i].0@));
    }
}

/// Skipping existing variables and adding only new ones are the same strategy:
/// an import gives the same configuration and the same counts under either.
pub proof fn law_skip_existing_is_only_add_new(
    base: ConfigFile,
    imported: ConfigFile,
    mode: ImportTargetMode,
    target: Option<Seq<char>>,
)
    ensures
        spec_merge_import(base, imported, mode, target, ImportConflictStrategy::SkipExisting) == spec_merge_import(
            base,
            imported,
            mode,
            target,
            ImportConflictStrategy::OnlyAddNew,
        ),
{
}

/// A preview and an import of the same file into the same configuration
/// agree: both succeed or both fail, with the same counts, and the merged
/// configuration is the same (the preview only does not keep it).
pub proof fn law_preview_matches_import(
    r1: Result<crate::merge::ImportSummary, String>,
    r2: Result<crate::merge::ImportSummary, String>,
    before: ConfigView,
    after1: ConfigView,
    after2: ConfigView,
    expected: Result<MergeState, Seq<char>>,
)
    requires
        crate::transfer::imported_as(r1, before, after1, expected),
        crate::transfer::imported_as(r2, before, after2, expected),
    ensures
        r1 is Ok <==> r2 is Ok,
        r1 matches Ok(s1) ==> (r2 matches Ok(s2) && s1@ == s2@),
        after1 == after2,
{
}

/// Deleting an environment keeps every group and every group's description,
/// and every other environment: only the named environment (trimmed) leaves its
/// group (trimmed); the ungrouped environments stay as they are.
pub proof fn law_delete_environment_keeps_the_rest(c: ConfigView, group_raw: Seq<char>, env_raw: Seq<char>)
    ensures
        crate::editing::spec_delete_environment(c, group_raw, env_raw) matches Ok(c2) ==> {
            let g = crate::text::trim(group_raw);
            let e = crate::text::trim(env_raw);
            &&& c2.groups.dom() == c.groups.dom()
            &&& c2.environments == c.environments
            &&& forall|h: Seq<char>| #[trigger] c.groups.contains_key(h) ==> c2.groups[h].description == c.groups[h].description
            &&& forall|h: Seq<char>| #[trigger] c.groups.contains_key(h) && h != g ==> c2.groups[h] == c.groups[h]
            &&& c.groups[g].environments.contains_key(e)
            &&& !c2.groups[g].environments.contains_key(e)
            &&& forall|x: Seq<char>| x != e ==> (#[trigger] c2.groups[g].environments.contains_key(x)
                <==> c.groups[g].environments.contains_key(x))
            &&& forall|x: Seq<char>| #[trigger] c2.groups[g].environments.contains_key(x) ==> c2.groups[g].environments[x]
                == c.groups[g].environments[x]
        },
{
    if let Ok(c2) = crate::editing::spec_delete_environment(c, group_raw, env_raw) {
        let g = crate::text::trim(group_raw);
        assert(c2.groups.dom() =~= c.groups.dom());
    }
}

/// Saving the variables of an environment that exists keeps its description
/// and hooks; its variables become the saved ones, and every other group and
/// every other environment of the group stay as they were.
pub proof fn law_lite_save_keeps_environment(c: ConfigView, g: Seq<char>, e: Seq<char>, vars: Map<Seq<char>, Seq<char>>)
    requires
        c.groups.contains_key(g),
        c.groups[g].environments.contains_key(e),
    ensures
        ({
            let c2 = crate::lite::spec_saved_plain(c, g, e, vars);
            let old_env = c.groups[g].environments[e];
            &&& c2.groups.dom() == c.groups.dom()
            &&& forall|h: Seq<char>| #[trigger] c.groups.contains_key(h) && h != g ==> c2.groups[h] == c.groups[h]
            &&& c2.groups[g].description == c.groups[g].description
            &&& c2.groups[g].environments.dom() == c.groups[g].environments.dom()
            &&& forall|x: Seq<char>| #[trigger] c.groups[g].environments.contains_key(x) && x != e ==> c2.groups[g].environments[x]
                == c.groups[g].environments[x]
            &&& c2.groups[g].environments[e].description == old_env.description
            &&& c2.groups[g].environments[e].hooks == old_env.hooks
            &&& c2.groups[g].environments[e].variables == vars
        }),
{
    let c2 = crate::lite::spec_saved_plain(c, g, e, vars);
    assert(c2.groups.dom() =~= c.groups.dom());
    assert(c2.groups[g].environments.dom() =~= c.groups[g].environments.dom());
}

/// Saving (with the names shared across the group) into an environment that
/// exists keeps its description and hooks; it then holds the saved values.
pub proof fn law_save_keeps_environment(c: ConfigView, g: Seq<char>, e: Seq<char>, vars: Map<Seq<char>, Seq<char>>)
    requires
        c.groups.contains_key(g),
        c.groups[g].environments.contains_key(e),
    ensures
        ({
            let c2 = spec_saved(c, g, e, vars);
            let old_env = c.groups[g].environments[e];
            &&& c2.groups.dom() == c.groups.dom()
            &&& forall|h: Seq<char>| #[trigger] c.groups.contains_key(h) && h != g ==> c2.groups[h] == c.groups[h]
            &&& c2.groups[g].description == c.groups[g].description
            &&& c2.groups[g].environments.dom() == c.groups[g].environments.dom()
            &&& c2.groups[g].environments[e].description == old_env.description
            &&& c2.groups[g].environments[e].hooks == old_env.hooks
            &&& forall|k: Seq<char>| #[trigger] vars.contains_key(k) ==> c2.groups[g].environments[e].variables.contains_key(k)
                && c2.groups[g].environments[e].variables[k] == vars[k]
        }),
{
    let c2 = spec_saved(c, g, e, vars);
    assert(c2.groups.dom() =~= c.groups.dom());
    assert(c2.groups[g].environments.dom() =~= c.groups[g].environments.dom());
}

/// Normalizing keeps every group other than "default" exactly as it was. When
/// there are ungrouped environments, the group "default" (created with the
/// description "Default group" when missing, otherwise keeping its own) holds
/// its former environments and the ungrouped ones, an ungrouped one winning
/// over one of the same name; otherwise nothing changes.
pub proof fn law_normalize_keeps_other_groups(c: ConfigView)
    ensures
        ({
            let n = spec_normalize_config(c);
            let d = "default"@;
            &&& forall|h: Seq<char>| h != d ==> (#[trigger] n.groups.contains_key(h) <==> c.groups.contains_key(h))
            &&& forall|h: Seq<char>| h != d && #[trigger] c.groups.contains_key(h) ==> n.groups[h] == c.groups[h]
            &&& c.environments.dom().len() == 0 ==> n == c
            &&& c.environments.dom().len() != 0 ==> {
                &&& n.environments == Map::<Seq<char>, EnvView>::empty()
                &&& n.groups.contains_key(d)
                &&& n.groups[d].description == (if c.groups.contains_key(d) {
                    c.groups[d].description
                } else {
                    Some("Default group"@)
                })
                &&& forall|x: Seq<char>| #[trigger] n.groups[d].environments.contains_key(x) <==> (c.environments.contains_key(x)
                    || (c.groups.contains_key(d) && c.groups[d].environments.contains_key(x)))
                &&& forall|x: Seq<char>| #[trigger] c.environments.contains_key(x) ==> n.groups[d].environments[x] == c.environments[x]
                &&& forall|x: Seq<char>|
                    c.groups.contains_key(d) && #[trigger] c.groups[d].environments.contains_key(x) && !c.environments.contains_key(x)
                        ==> n.groups[d].environments[x] == c.groups[d].environments[x]
            }
        }),
{
}

/// The number of results that `p` holds of.
spec fn count_where(s: Seq<crate::apply::VariableApplyResult>, p: spec_fn(crate::apply::VariableApplyResult) -> bool) -> nat
    decreases s.len(),
{
    if s.len() == 0 {
        0
    } else {
        count_where(s.drop_last(), p) + if p(s.last()) { 1nat } else { 0nat }
    }
}

proof fn lemma_count_where_indices(s: Seq<crate::apply::VariableApplyResult>, p: spec_fn(crate::apply::VariableApplyResult) -> bool)
    ensures
        Set::new(|i: int| 0 <= i < s.len() && p(s[i])).finite(),
        Set::new(|i: int| 0 <= i < s.len() && p(s[i])).len() == count_where(s, p),
    decreases s.len(),
{
    let a = Set::new(|i: int| 0 <= i < s.len() && p(s[i]));
    if s.len() == 0 {
        assert(a =~= Set::<int>::empty());
    } else {
        let init = s.drop_last();
        lemma_count_where_indices(init, p);
        let b = Set::new(|i: int| 0 <= i < init.len() && p(init[i]));
        let n = s.len() - 1;
        assert(!b.contains(n));
        if p(s.last()) {
            assert(a =~= b.insert(n));
        } else {
            assert(a =~= b);
        }
    }
}

proof fn lemma_counts_are_count_where(s: Seq<crate::apply::VariableApplyResult>)
    ensures
        crate::apply::count_changed(s) == count_where(
            s,
            |r: crate::apply::VariableApplyResult|
                (match r.before {
                    Some(b) => b@,
                    None => Seq::<char>::empty(),
                }) != r.after@,
        ),
        crate::apply::count_applied(s) == count_where(s, |r: crate::apply::VariableApplyResult| r.applied),
    decreases s.len(),
{
    if s.len() > 0 {
        lemma_counts_are_count_where(s.drop_last());
    }
}

/// The summary of an apply counts as changed exactly the results whose value
/// before (empty when there was none) differs from the value after, as whole
/// texts, and as successful exactly the results that were applied.
pub proof fn law_summary_counts(s: Seq<crate::apply::VariableApplyResult>)
    ensures
        crate::apply::count_changed(s) == Set::new(
            |i: int|
                0 <= i < s.len() && (match s[i].before {
                    Some(b) => b@,
                    None => Seq::<char>::empty(),
                }) != s[i].after@,
        ).len(),
        crate::apply::count_applied(s) == Set::new(|i: int| 0 <= i < s.len() && s[i].applied).len(),
{
    let pc = |r: crate::apply::VariableApplyResult|
        (match r.before {
            Some(b) => b@,
            None => Seq::<char>::empty(),
        }) != r.after@;
    let pa = |r: crate::apply::VariableApplyResult| r.applied;
    lemma_counts_are_count_where(s);
    lemma_count_where_indices(s, pc);
    lemma_count_where_indices(s, pa);
    assert(Set::new(|i: int| 0 <= i < s.len() && pc(s[i])) =~= Set::new(
        |i: int|
            0 <= i < s.len() && (match s[i].before {
                Some(b) => b@,
                None => Seq::<char>::empty(),
            }) != s[i].after@,
    ));
    assert(Set::new(|i: int| 0 <= i < s.len() && pa(s[i])) =~= Set::new(|i: int| 0 <= i < s.len() && s[i].applied));
}


/// Every variable name that a group uses has an owner, and the owner of each
/// name is a group that uses it.
pub open spec fn owners_match(groups: Map<Seq<char>, GroupView>, owner: Map<Seq<char>, Seq<char>>) -> bool {
    &&& forall|g: Seq<char>, k: Seq<char>|
        groups.contains_key(g) && #[trigger] group_uses(groups[g], k) ==> owner.contains_key(k)
    &&& forall|k: Seq<char>|
        #[trigger] owner.contains_key(k) ==> groups.contains_key(owner[k]) && group_uses(groups[owner[k]], k)
}

/// From `a` to `b` every owned name keeps its owner, and a name that changes
/// owner or gets one belongs to `target`, whose group `g` uses it.
spec fn owner_step(a: Map<Seq<char>, Seq<char>>, b: Map<Seq<char>, Seq<char>>, target: Seq<char>, g: GroupView) -> bool {
    &&& forall|k: Seq<char>| #[trigger] a.contains_key(k) ==> b.contains_key(k)
    &&& forall|k: Seq<char>|
        #[trigger] b.contains_key(k) ==> (a.contains_key(k) && b[k] == a[k]) || (b[k] == target && group_uses(g, k))
}

proof fn lemma_extends_uses(a: GroupView, b: GroupView, keep: bool, k: Seq<char>)
    requires
        group_extends(a, b, keep),
        group_uses(a, k),
    ensures
        group_uses(b, k),
{
    let e = choose|e: Seq<char>| #[trigger] a.environments.contains_key(e) && a.environments[e].variables.contains_key(k);
    assert(b.environments.contains_key(e));
}

proof fn lemma_step_env_owners(s: GroupState, target: Seq<char>, name: Seq<char>, env: EnvView, overwrite: bool)
    requires
        forall|k: Seq<char>| #[trigger] group_uses(s.group, k) ==> s.owner.contains_key(k),
    ensures
        ({
            let r = step_env(s, target, name, env, overwrite);
            &&& forall|k: Seq<char>| #[trigger] group_uses(r.group, k) ==> r.owner.contains_key(k)
            &&& owner_step(s.owner, r.owner, target, r.group)
        }),
{
    let r = step_env(s, target, name, env, overwrite);
    let envs = s.group.environments;
    assert forall|k: Seq<char>| #[trigger] group_uses(r.group, k) implies r.owner.contains_key(k) by {
        let e = choose|e: Seq<char>| #[trigger] r.group.environments.contains_key(e) && r.group.environments[e].variables.contains_key(k);
        if e != name {
            assert(envs.contains_key(e) && envs[e].variables.contains_key(k));
            assert(group_uses(s.group, k));
        } else if envs.contains_key(name) {
            if envs[name].variables.contains_key(k) {
                assert(group_uses(s.group, k));
            }
        }
    }
    assert forall|k: Seq<char>| #[trigger] r.owner.contains_key(k) implies (s.owner.contains_key(k) && r.owner[k]
        == s.owner[k]) || (r.owner[k] == target && group_uses(r.group, k)) by {
        if !envs.contains_key(name) {
            if env.variables.contains_key(k) {
                assert(r.group.environments.contains_key(name) && r.group.environments[name].variables.contains_key(k));
            }
        } else {
            let dst = envs[name];
            if env.variables.contains_key(k) && !crate::merge::foreign(s.owner, target, k) && !dst.variables.contains_key(k) {
                assert(r.group.environments.contains_key(name) && r.group.environments[name].variables.contains_key(k));
            }
        }
    }
}

proof fn lemma_step_envs_owners(s: GroupState, target: Seq<char>, envs: Seq<(Seq<char>, EnvView)>, overwrite: bool)
    requires
        forall|k: Seq<char>| #[trigger] group_uses(s.group, k) ==> s.owner.contains_key(k),
    ensures
        ({
            let r = step_envs(s, target, envs, overwrite);
            &&& forall|k: Seq<char>| #[trigger] group_uses(r.group, k) ==> r.owner.contains_key(k)
            &&& owner_step(s.owner, r.owner, target, r.group)
        }),
    decreases envs.len(),
{
    let r = step_envs(s, target, envs, overwrite);
    if envs.len() > 0 {
        lemma_step_envs_owners(s, target, envs.drop_last(), overwrite);
        let mid = step_envs(s, target, envs.drop_last(), overwrite);
        lemma_step_env_owners(mid, target, envs.last().0, envs.last().1, overwrite);
        lemma_step_env_extends(mid, target, envs.last().0, envs.last().1, overwrite);
        assert forall|k: Seq<char>| #[trigger] r.owner.contains_key(k) implies (s.owner.contains_key(k) && r.owner[k]
            == s.owner[k]) || (r.owner[k] == target && group_uses(r.group, k)) by {
            if mid.owner.contains_key(k) && r.owner[k] == mid.owner[k] {
                if !(s.owner.contains_key(k) && mid.owner[k] == s.owner[k]) {
                    lemma_extends_uses(mid.group, r.group, !overwrite, k);
                }
            }
        }
    }
}

proof fn lemma_merge_group_envs_owners(st: MergeState, target: Seq<char>, envs: Seq<(Seq<char>, EnvView)>, overwrite: bool)
    requires
        owners_match(st.groups, st.owner),
        st.groups.contains_key(target),
    ensures
        owners_match(merge_group_envs(st, target, envs, overwrite).groups, merge_group_envs(st, target, envs, overwrite).owner),
        merge_group_envs(st, target, envs, overwrite).groups.contains_key(target),
{
    let gs0 = GroupState { group: st.groups[target], owner: st.owner, counts: st.counts };
    let r = step_envs(gs0, target, envs, overwrite);
    let m = merge_group_envs(st, target, envs, overwrite);
    assert forall|k: Seq<char>| #[trigger] group_uses(gs0.group, k) implies gs0.owner.contains_key(k) by {
        assert(st.groups.contains_key(target) && group_uses(st.groups[target], k));
    }
    lemma_step_envs_owners(gs0, target, envs, overwrite);
    lemma_step_envs_extends(gs0, target, envs, overwrite);
    assert forall|g: Seq<char>, k: Seq<char>| m.groups.contains_key(g) && #[trigger] group_uses(m.groups[g], k) implies m.owner.contains_key(
        k,
    ) by {
        if g != target {
            assert(st.groups.contains_key(g) && group_uses(st.groups[g], k));
            assert(st.owner.contains_key(k));
        }
    }
    assert forall|k: Seq<char>| #[trigger] m.owner.contains_key(k) implies m.groups.contains_key(m.owner[k]) && group_uses(
        m.groups[m.owner[k]],
        k,
    ) by {
        if st.owner.contains_key(k) && r.owner[k] == st.owner[k] {
            let h = st.owner[k];
            assert(st.groups.contains_key(h) && group_uses(st.groups[h], k));
            if h == target {
                lemma_extends_uses(st.groups[target], r.group, !overwrite, k);
            }
        }
    }
}

proof fn lemma_enter_group_owners(st: MergeState, name: Seq<char>, description: Option<Seq<char>>)
    requires
        owners_match(st.groups, st.owner),
    ensures
        owners_match(enter_group(st, name, description).groups, enter_group(st, name, description).owner),
        enter_group(st, name, description).groups.contains_key(name),
        enter_group(st, name, description).owner == st.owner,
{
    let m = enter_group(st, name, description);
    if !st.groups.contains_key(name) {
        assert forall|g: Seq<char>, k: Seq<char>| m.groups.contains_key(g) && #[trigger] group_uses(m.groups[g], k) implies m.owner.contains_key(
            k,
        ) by {
            if g == name {
                let e = choose|e: Seq<char>| #[trigger] m.groups[g].environments.contains_key(e) && m.groups[g].environments[e].variables.contains_key(k);
                assert(m.groups[g].environments =~= Map::<Seq<char>, EnvView>::empty());
            } else {
                assert(st.groups.contains_key(g) && group_uses(st.groups[g], k));
            }
        }
        assert forall|k: Seq<char>| #[trigger] m.owner.contains_key(k) implies m.groups.contains_key(m.owner[k]) && group_uses(
            m.groups[m.owner[k]],
            k,
        ) by {
            let h = st.owner[k];
            assert(st.groups.contains_key(h) && group_uses(st.groups[h], k));
        }
    }
}

proof fn lemma_merge_keep_owners(st: MergeState, gs: Seq<(String, GroupDef)>, overwrite: bool)
    requires
        owners_match(st.groups, st.owner),
    ensures
        owners_match(merge_keep(st, gs, overwrite).groups, merge_keep(st, gs, overwrite).owner),
    decreases gs.len(),
{
    if gs.len() > 0 {
        lemma_merge_keep_owners(st, gs.drop_last(), overwrite);
        let prev = merge_keep(st, gs.drop_last(), overwrite);
        let name = gs.last().0@;
        let g = gs.last().1;
        lemma_enter_group_owners(prev, name, g.description.deep_view());
        lemma_merge_group_envs_owners(enter_group(prev, name, g.description.deep_view()), name, g.environments.pairs(), overwrite);
    }
}

proof fn lemma_merge_into_owners(st: MergeState, target: Seq<char>, gs: Seq<(String, GroupDef)>, overwrite: bool)
    requires
        owners_match(st.groups, st.owner),
        st.groups.contains_key(target),
    ensures
        owners_match(crate::merge::merge_into(st, target, gs, overwrite).groups, crate::merge::merge_into(st, target, gs, overwrite).owner),
        crate::merge::merge_into(st, target, gs, overwrite).groups.contains_key(target),
    decreases gs.len(),
{
    if gs.len() > 0 {
        lemma_merge_into_owners(st, target, gs.drop_last(), overwrite);
        let prev = crate::merge::merge_into(st, target, gs.drop_last(), overwrite);
        lemma_merge_group_envs_owners(prev, target, gs.last().1.environments.pairs(), overwrite);
    }
}

proof fn lemma_first_owner_matches(base: ConfigFile)
    requires
        base.wf(),
    ensures
        owners_match(base@.groups, crate::merge::first_owner(base.groups)),
{
    let groups = base.groups;
    let fo = crate::merge::first_owner(groups);
    assert forall|g: Seq<char>, k: Seq<char>| base@.groups.contains_key(g) && #[trigger] group_uses(base@.groups[g], k) implies fo.contains_key(
        k,
    ) by {
        groups.lemma_map_has(g);
        let i = groups.index_of(g);
        assert(crate::merge::uses_at(groups, i, k));
    }
    assert forall|k: Seq<char>| #[trigger] fo.contains_key(k) implies base@.groups.contains_key(fo[k]) && group_uses(
        base@.groups[fo[k]],
        k,
    ) by {
        let i = choose|i: int| 0 <= i < groups.len() && #[trigger] crate::merge::uses_at(groups, i, k);
        crate::merge::lemma_first_user_exists(groups, i, k);
        let c = choose|j: int| #[trigger] crate::merge::is_first_user(groups, j, k);
        groups.lemma_map_at(c);
    }
}

/// After an import every variable name that a group uses belongs to a group,
/// and the group it belongs to uses it. So a variable added to an existing
/// environment belongs from then on to a group that has it, and a later
/// imported group that uses the same name finds it owned by another group
/// and has it skipped.
pub proof fn law_import_owns_every_used_name(
    base: ConfigFile,
    imported: ConfigFile,
    mode: ImportTargetMode,
    target: Option<Seq<char>>,
    strategy: ImportConflictStrategy,
)
    requires
        base.wf(),
    ensures
        spec_merge_import(base, imported, mode, target, strategy) matches Ok(st) ==> owners_match(st.groups, st.owner),
{
    let overwrite = strategy == ImportConflictStrategy::OverwriteExisting;
    let st0 = MergeState { groups: base@.groups, owner: crate::merge::first_owner(base.groups), counts: zero_counts() };
    lemma_first_owner_matches(base);
    match mode {
        ImportTargetMode::KeepGroups => {
            lemma_merge_keep_owners(st0, imported.groups.entry_seq(), overwrite);
        },
        ImportTargetMode::IntoGroup => {
            match crate::merge::import_target(target) {
                Some(t) => {
                    let d = Some(crate::messages::group_description(t));
                    lemma_enter_group_owners(st0, t, d);
                    lemma_merge_into_owners(enter_group(st0, t, d), t, imported.groups.entry_seq(), overwrite);
                },
                None => {},
            }
        },
    }
}

/// No variable name is used by two different groups.
pub open spec fn names_unique(groups: Map<Seq<char>, GroupView>) -> bool {
    forall|g1: Seq<char>, g2: Seq<char>, k: Seq<char>|
        #![trigger group_uses(groups[g1], k), group_uses(groups[g2], k)]
        groups.contains_key(g1) && groups.contains_key(g2) && g1 != g2 && group_uses(groups[g1], k)
            ==> !group_uses(groups[g2], k)
}

/// Every name that `g` uses belongs to `target`.
spec fn owned_by_target(g: GroupView, owner: Map<Seq<char>, Seq<char>>, target: Seq<char>) -> bool {
    forall|k: Seq<char>| #[trigger] group_uses(g, k) ==> owner.contains_key(k) && owner[k] == target
}

/// From `a` to `b` no owned name changes owner.
spec fn owners_kept(a: Map<Seq<char>, Seq<char>>, b: Map<Seq<char>, Seq<char>>) -> bool {
    forall|k: Seq<char>| #[trigger] a.contains_key(k) ==> b.contains_key(k) && b[k] == a[k]
}

proof fn lemma_step_existing_env(s: GroupState, target: Seq<char>, name: Seq<char>, env: EnvView, overwrite: bool)
    requires
        s.group.environments.contains_key(name),
        owned_by_target(s.group, s.owner, target),
    ensures
        owned_by_target(step_env(s, target, name, env, overwrite).group, step_env(s, target, name, env, overwrite).owner, target),
        owners_kept(s.owner, step_env(s, target, name, env, overwrite).owner),
{
    let r = step_env(s, target, name, env, overwrite);
    let envs = s.group.environments;
    let dst = envs[name];
    assert forall|k: Seq<char>| #[trigger] group_uses(r.group, k) implies r.owner.contains_key(k) && r.owner[k] == target by {
        let e = choose|e: Seq<char>| #[trigger] r.group.environments.contains_key(e) && r.group.environments[e].variables.contains_key(k);
        if e != name || dst.variables.contains_key(k) {
            if e != name {
                assert(envs.contains_key(e) && envs[e].variables.contains_key(k));
            }
            assert(group_uses(s.group, k));
        }
    }
}

proof fn lemma_step_existing_envs(s: GroupState, target: Seq<char>, envs: Seq<(Seq<char>, EnvView)>, overwrite: bool)
    requires
        forall|i: int| 0 <= i < envs.len() ==> s.group.environments.contains_key(#[trigger] envs[i].0),
        owned_by_target(s.group, s.owner, target),
    ensures
        owned_by_target(step_envs(s, target, envs, overwrite).group, step_envs(s, target, envs, overwrite).owner, target),
        owners_kept(s.owner, step_envs(s, target, envs, overwrite).owner),
    decreases envs.len(),
{
    if envs.len() > 0 {
        let init = envs.drop_last();
        assert forall|i: int| 0 <= i < init.len() implies s.group.environments.contains_key(#[trigger] init[i].0) by {
            assert(init[i] == envs[i]);
        }
        lemma_step_existing_envs(s, target, init, overwrite);
        let mid = step_envs(s, target, init, overwrite);
        lemma_step_envs_extends(s, target, init, overwrite);
        assert(s.group.environments.contains_key(envs[envs.len() - 1].0));
        lemma_step_existing_env(mid, target, envs.last().0, envs.last().1, overwrite);
    }
}

/// Names unique across groups, each owned by the one group that uses it.
spec fn owners_unique(st: MergeState) -> bool {
    owners_match(st.groups, st.owner) && names_unique(st.groups)
}

proof fn lemma_unique_owner(st: MergeState, g: Seq<char>, k: Seq<char>)
    requires
        owners_unique(st),
        st.groups.contains_key(g),
        group_uses(st.groups[g], k),
    ensures
        st.owner.contains_key(k),
        st.owner[k] == g,
{
    let h = st.owner[k];
    assert(st.groups.contains_key(h) && group_uses(st.groups[h], k));
    if h != g {
        assert(!group_uses(st.groups[h], k));
    }
}

proof fn lemma_merge_existing_envs(st: MergeState, target: Seq<char>, envs: Seq<(Seq<char>, EnvView)>, overwrite: bool)
    requires
        owners_unique(st),
        st.groups.contains_key(target),
        forall|i: int| 0 <= i < envs.len() ==> st.groups[target].environments.contains_key(#[trigger] envs[i].0),
    ensures
        owners_unique(merge_group_envs(st, target, envs, overwrite)),
{
    let gs0 = GroupState { group: st.groups[target], owner: st.owner, counts: st.counts };
    let r = step_envs(gs0, target, envs, overwrite);
    let m = merge_group_envs(st, target, envs, overwrite);
    lemma_merge_group_envs_owners(st, target, envs, overwrite);
    assert forall|k: Seq<char>| #[trigger] group_uses(gs0.group, k) implies gs0.owner.contains_key(k) && gs0.owner[k] == target by {
        lemma_unique_owner(st, target, k);
    }
    lemma_step_existing_envs(gs0, target, envs, overwrite);
    assert forall|g1: Seq<char>, g2: Seq<char>, k: Seq<char>|
        m.groups.contains_key(g1) && m.groups.contains_key(g2) && g1 != g2 && #[trigger] group_uses(m.groups[g1], k) implies !#[trigger] group_uses(
        m.groups[g2],
        k,
    ) by {
        if group_uses(m.groups[g2], k) {
            if g1 != target && g2 != target {
                assert(group_uses(st.groups[g1], k) && group_uses(st.groups[g2], k));
            } else {
                let other = if g1 == target { g2 } else { g1 };
                assert(st.groups.contains_key(other) && group_uses(st.groups[other], k));
                lemma_unique_owner(st, other, k);
                assert(group_uses(r.group, k));
            }
        }
    }
}

proof fn lemma_merge_keep_unique(st: MergeState, gs: Seq<(String, GroupDef)>, overwrite: bool)
    requires
        owners_unique(st),
        forall|i: int, e: Seq<char>|
            0 <= i < gs.len() && #[trigger] gs[i].1.environments@.contains_key(e) ==> st.groups.contains_key(gs[i].0@)
                && st.groups[gs[i].0@].environments.contains_key(e),
    ensures
        owners_unique(merge_keep(st, gs, overwrite)),
    decreases gs.len(),
{
    if gs.len() > 0 {
        let init = gs.drop_last();
        assert forall|i: int, e: Seq<char>|
            0 <= i < init.len() && #[trigger] init[i].1.environments@.contains_key(e) implies st.groups.contains_key(init[i].0@)
                && st.groups[init[i].0@].environments.contains_key(e) by {
            assert(init[i] == gs[i]);
        }
        lemma_merge_keep_unique(st, init, overwrite);
        let prev = merge_keep(st, init, overwrite);
        let name = gs.last().0@;
        let g = gs.last().1;
        lemma_merge_keep_extends(st, init, overwrite);
        let st1 = enter_group(prev, name, g.description.deep_view());
        let envs = g.environments.pairs();
        if envs.len() > 0 {
            assert(g.environments@.contains_key(g.environments.key_at(0)));
            assert(gs[gs.len() - 1].1.environments@.contains_key(g.environments.key_at(0)));
            assert(prev.groups.contains_key(name));
            assert(st1.groups == prev.groups && st1.owner == prev.owner);
            assert forall|i: int| 0 <= i < envs.len() implies st1.groups[name].environments.contains_key(#[trigger] envs[i].0) by {
                let e = g.environments.key_at(i);
                assert(g.environments@.contains_key(e));
                assert(gs[gs.len() - 1].1.environments@.contains_key(e));
            }
            lemma_merge_existing_envs(st1, name, envs, overwrite);
        } else {
            let m = merge_group_envs(st1, name, envs, overwrite);
            lemma_enter_group_owners(prev, name, g.description.deep_view());
            assert(m.groups =~= st1.groups.insert(name, st1.groups[name]));
            assert(m.groups =~= st1.groups);
            assert(owners_unique(st1)) by {
                if !prev.groups.contains_key(name) {
                    assert forall|g1: Seq<char>, g2: Seq<char>, k: Seq<char>|
                        st1.groups.contains_key(g1) && st1.groups.contains_key(g2) && g1 != g2 && #[trigger] group_uses(
                            st1.groups[g1],
                            k,
                        ) implies !#[trigger] group_uses(st1.groups[g2], k) by {
                        if g1 == name || g2 == name {
                            let x = st1.groups[name];
                            if group_uses(x, k) {
                                let e = choose|e: Seq<char>| #[trigger] x.environments.contains_key(e) && x.environments[e].variables.contains_key(k);
                                assert(x.environments =~= Map::<Seq<char>, EnvView>::empty());
                            }
                        } else {
                            assert(prev.groups.contains_key(g1) && prev.groups.contains_key(g2));
                        }
                    }
                }
            }
        }
    }
}

proof fn lemma_merge_into_unique(st: MergeState, target: Seq<char>, gs: Seq<(String, GroupDef)>, overwrite: bool)
    requires
        owners_unique(st),
        st.groups.contains_key(target),
        forall|i: int, e: Seq<char>|
            0 <= i < gs.len() && #[trigger] gs[i].1.environments@.contains_key(e) ==> st.groups[target].environments.contains_key(e),
    ensures
        owners_unique(crate::merge::merge_into(st, target, gs, overwrite)),
    decreases gs.len(),
{
    if gs.len() > 0 {
        let init = gs.drop_last();
        assert forall|i: int, e: Seq<char>|
            0 <= i < init.len() && #[trigger] init[i].1.environments@.contains_key(e) implies st.groups[target].environments.contains_key(e) by {
            assert(init[i] == gs[i]);
        }
        lemma_merge_into_unique(st, target, init, overwrite);
        let prev = crate::merge::merge_into(st, target, init, overwrite);
        lemma_merge_into_extends(st, target, init, overwrite);
        lemma_merge_into_owners(st, target, init, overwrite);
        let g = gs.last().1;
        let envs = g.environments.pairs();
        assert forall|i: int| 0 <= i < envs.len() implies prev.groups[target].environments.contains_key(#[trigger] envs[i].0) by {
            let e = g.environments.key_at(i);
            assert(g.environments@.contains_key(e));
            assert(gs[gs.len() - 1].1.environments@.contains_key(e));
        }
        lemma_merge_existing_envs(prev, target, envs, overwrite);
    }
}

/// The import adds no environment: every imported environment already exists
/// in the group it is merged into.
pub open spec fn adds_no_environment(
    base: ConfigView,
    imported: ConfigView,
    mode: ImportTargetMode,
    target: Option<Seq<char>>,
) -> bool {
    match mode {
        ImportTargetMode::KeepGroups => forall|g: Seq<char>, e: Seq<char>|
            imported.groups.contains_key(g) && #[trigger] imported.groups[g].environments.contains_key(e)
                ==> base.groups.contains_key(g) && base.groups[g].environments.contains_key(e),
        ImportTargetMode::IntoGroup => match crate::merge::import_target(target) {
            Some(t) => base.groups.contains_key(t) && forall|g: Seq<char>, e: Seq<char>|
                imported.groups.contains_key(g) && #[trigger] imported.groups[g].environments.contains_key(e)
                    ==> base.groups[t].environments.contains_key(e),
            None => true,
        },
    }
}

/// An import that adds no environment into a configuration whose variable
/// names are unique across groups keeps them unique: a variable that another
/// group owns is skipped, and one that is added belongs to the group it was
/// added to.
pub proof fn law_import_keeps_names_unique(
    base: ConfigFile,
    imported: ConfigFile,
    mode: ImportTargetMode,
    target: Option<Seq<char>>,
    strategy: ImportConflictStrategy,
)
    requires
        base.wf(),
        imported.wf(),
        vars_unique_across_groups(base@),
        adds_no_environment(base@, imported@, mode, target),
    ensures
        spec_merge_import(base, imported, mode, target, strategy) matches Ok(st) ==> vars_unique_across_groups(
            ConfigView { groups: st.groups, environments: base@.environments },
        ),
{
    let overwrite = strategy == ImportConflictStrategy::OverwriteExisting;
    let st0 = MergeState { groups: base@.groups, owner: crate::merge::first_owner(base.groups), counts: zero_counts() };
    lemma_first_owner_matches(base);
    assert(names_unique(st0.groups));
    let gs = imported.groups.entry_seq();
    assert forall|i: int, e: Seq<char>| 0 <= i < gs.len() && #[trigger] gs[i].1.environments@.contains_key(e) implies imported@.groups.contains_key(
        gs[i].0@,
    ) && imported@.groups[gs[i].0@].environments.contains_key(e) by {
        imported.groups.lemma_map_at(i);
    }
    match mode {
        ImportTargetMode::KeepGroups => {
            lemma_merge_keep_unique(st0, gs, overwrite);
        },
        ImportTargetMode::IntoGroup => {
            match crate::merge::import_target(target) {
                Some(t) => {
                    let d = Some(crate::messages::group_description(t));
                    let st1 = enter_group(st0, t, d);
                    lemma_enter_group_owners(st0, t, d);
                    assert(st1.groups == st0.groups);
                    lemma_merge_into_unique(st1, t, gs, overwrite);
                },
                None => {},
            }
        },
    }
}

} // verus!
