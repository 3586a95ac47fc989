use vstd::prelude::*;
use crate::checks::{reports_conflict, validate_group_variable_uniqueness, vars_unique_across_groups};
use crate::listing::count;
use crate::merge::{
    merge_import, spec_merge_import, weight_envs, weight_groups, ImportConflictStrategy, ImportSummary,
    ImportTargetMode, MergeState,
};
use crate::messages::{group_not_found_message, msg_group_not_found};
use crate::model::{ConfigFile, ConfigView, EnvView, GroupDef, Item};
use crate::storage::{normalize_config, spec_normalize_config};
use crate::strmap::StrMap;

verus! {

/// Where to export, and which groups (all when the list is empty).
pub struct ExportRequest {
    pub output_path: String,
    pub group_names: Vec<String>,
}

/// Where the export went and how much it holds.
pub struct ExportResult {
    pub output_path: String,
    pub groups: usize,
    pub environments: usize,
    pub variables: usize,
}

/// Which file to import, where its environments go, and what to do with
/// variables that exist already. A dry run changes nothing.
pub struct ImportRequest {
    pub input_path: String,
    pub target_mode: ImportTargetMode,
    pub target_group: Option<String>,
    pub conflict_strategy: ImportConflictStrategy,
    pub dry_run: bool,
}

/// The number of environments of the groups.
pub open spec fn env_total(gs: Seq<(String, GroupDef)>) -> nat
    decreases gs.len(),
{
    if gs.len() == 0 {
        0
    } else {
        env_total(gs.drop_last()) + gs.last().1.environments.len()
    }
}

/// The number of variables of the environments.
pub open spec fn var_total_envs(es: Seq<(Seq<char>, EnvView)>) -> nat
    decreases es.len(),
{
    if es.len() == 0 {
        0
    } else {
        var_total_envs(es.drop_last()) + es.last().1.variables.dom().len()
    }
}

/// The number of variables of all environments of the groups.
pub open spec fn var_total(gs: Seq<(String, GroupDef)>) -> nat
    decreases gs.len(),
{
    if gs.len() == 0 {
        0
    } else {
        var_total(gs.drop_last()) + var_total_envs(gs.last().1.environments.pairs())
    }
}

proof fn lemma_weight_envs_split(es: Seq<(Seq<char>, EnvView)>)
    ensures
        weight_envs(es) == es.len() + var_total_envs(es),
    decreases es.len(),
{
    if es.len() > 0 {
        lemma_weight_envs_split(es.drop_last());
    }
}

proof fn lemma_weight_groups_split(gs: Seq<(String, GroupDef)>)
    ensures
        weight_groups(gs) == gs.len() + env_total(gs) + var_total(gs),
    decreases gs.len(),
{
    if gs.len() > 0 {
        lemma_weight_groups_split(gs.drop_last());
        lemma_weight_envs_split(gs.last().1.environments.pairs());
    }
}

/// Whether the number of groups, environments and variables, plus one, fits in a `usize`.
pub fn import_size_fits(cfg: &ConfigFile) -> (b: bool)
    requires
        cfg.wf(),
    ensures
        b == (1 + weight_groups(cfg.groups.entry_seq()) <= usize::MAX),
{
    let ghost gs = cfg.groups.entry_seq();
    let n = cfg.groups.size();
    let mut w: usize = 1;
    let mut i: usize = 0;
    proof {
        assert(gs.take(0) =~= Seq::<(String, GroupDef)>::empty());
    }
    while i < n
        invariant
            n == cfg.groups.len(),
            gs == cfg.groups.entry_seq(),
            cfg.wf(),
            i <= n,
            w == 1 + weight_groups(gs.take(i as int)),
        decreases n - i,
    {
        let (_name, g) = cfg.groups.entry(i);
        proof {
            assert(gs.take(i + 1).drop_last() =~= gs.take(i as int));
            assert(gs.take(i + 1).last() == gs[i as int]);
            assert(gs[i as int].1.inv());
        }
        if w == usize::MAX {
            proof {
                lemma_weight_prefix_le(gs, i + 1);
            }
            return false;
        }
        w = w + 1;
        let ne = g.environments.size();
        let mut ei: usize = 0;
        let ghost es = g.environments.pairs();
        let ghost w0 = w;
        proof {
            assert(es.take(0) =~= Seq::<(Seq<char>, EnvView)>::empty());
        }
        while ei < ne
            invariant
                ne == g.environments.len(),
                es == g.environments.pairs(),
                g.environments.deep_wf(),
                ei <= ne,
                w == w0 + weight_envs(es.take(ei as int)),
                i < n,
                n == cfg.groups.len(),
                gs == cfg.groups.entry_seq(),
                es == gs[i as int].1.environments.pairs(),
                w0 == 2 + weight_groups(gs.take(i as int)),
            decreases ne - ei,
        {
            let (_en, e) = g.environments.entry(ei);
            proof {
                assert(es.take(ei + 1).drop_last() =~= es.take(ei as int));
                assert(es.take(ei + 1).last() == es[ei as int]);
                assert(g.environments.entry_seq()[ei as int].1.inv());
                e.variables.lemma_dom_len();
            }
            let nv = e.variables.size();
            if nv >= usize::MAX - 1 || w > usize::MAX - 1 - nv {
                proof {
                    lemma_weight_envs_prefix_le(es, ei + 1);
                    lemma_weight_prefix_le(gs, i + 1);
                    assert(es.take(ei + 1).drop_last() =~= es.take(ei as int));
                    assert(es[ei as int].1 == e.deep_view());
                    assert(weight_envs(es.take(ei + 1)) == weight_envs(es.take(ei as int)) + 1 + nv);
                    assert(gs.take(i + 1).drop_last() =~= gs.take(i as int));
                    assert(gs.take(i + 1).last() == gs[i as int]);
                    assert(weight_groups(gs.take(i + 1)) == weight_groups(gs.take(i as int)) + 1 + weight_envs(es));
                }
                return false;
            }
            w = w + 1 + nv;
            ei = ei + 1;
        }
        proof {
            assert(es.take(ne as int) =~= es);
        }
        i = i + 1;
    }
    proof {
        assert(gs.take(n as int) =~= gs);
    }
    true
}

proof fn lemma_weight_prefix_le(gs: Seq<(String, GroupDef)>, i: int)
    requires
        0 <= i <= gs.len(),
    ensures
        weight_groups(gs.take(i)) <= weight_groups(gs),
    decreases gs.len(),
{
    if i < gs.len() {
        lemma_weight_prefix_le(gs.drop_last(), i);
        assert(gs.drop_last().take(i) =~= gs.take(i));
    } else {
        assert(gs.take(i) =~= gs);
    }
}

proof fn lemma_weight_envs_prefix_le(es: Seq<(Seq<char>, EnvView)>, i: int)
    requires
        0 <= i <= es.len(),
    ensures
        weight_envs(es.take(i)) <= weight_envs(es),
    decreases es.len(),
{
    if i < es.len() {
        lemma_weight_envs_prefix_le(es.drop_last(), i);
        assert(es.drop_last().take(i) =~= es.take(i));
    } else {
        assert(es.take(i) =~= es);
    }
}

/// The number of groups, of environments and of variables.
pub fn config_counts(cfg: &ConfigFile) -> (r: (usize, usize, usize))
    requires
        cfg.wf(),
        weight_groups(cfg.groups.entry_seq()) <= usize::MAX,
    ensures
        r.0 == count(cfg@.groups),
        r.1 == env_total(cfg.groups.entry_seq()),
        r.2 == var_total(cfg.groups.entry_seq()),
{
    let ghost gs = cfg.groups.entry_seq();
    proof {
        lemma_weight_groups_split(gs);
        cfg.groups.lemma_dom_len();
    }
    let n = cfg.groups.size();
    let mut envs: usize = 0;
    let mut vars: usize = 0;
    let mut i: usize = 0;
    proof {
        assert(gs.take(0) =~= Seq::<(String, GroupDef)>::empty());
    }
    while i < n
        invariant
            n == cfg.groups.len(),
            gs == cfg.groups.entry_seq(),
            cfg.wf(),
            i <= n,
            gs.len() + env_total(gs) + var_total(gs) <= usize::MAX,
            envs == env_total(gs.take(i as int)),
            vars == var_total(gs.take(i as int)),
        decreases n - i,
    {
        let (_name, g) = cfg.groups.entry(i);
        proof {
            assert(gs.take(i + 1).drop_last() =~= gs.take(i as int));
            assert(gs.take(i + 1).last() == gs[i as int]);
            assert(gs[i as int].1.inv());
            lemma_totals_prefix_le(gs, i + 1);
        }
        envs = envs + g.environments.size();
        let ne = g.environments.size();
        let mut ei: usize = 0;
        let ghost es = g.environments.pairs();
        let ghost v0 = vars;
        proof {
            assert(es.take(0) =~= Seq::<(Seq<char>, EnvView)>::empty());
        }
        while ei < ne
            invariant
                ne == g.environments.len(),
                es == g.environments.pairs(),
                g.environments.deep_wf(),
                ei <= ne,
                v0 + var_total_envs(es) <= usize::MAX,
                vars == v0 + var_total_envs(es.take(ei as int)),
            decreases ne - ei,
        {
            let (_en, e) = g.environments.entry(ei);
            proof {
                assert(es.take(ei + 1).drop_last() =~= es.take(ei as int));
                assert(es.take(ei + 1).last() == es[ei as int]);
                assert(g.environments.entry_seq()[ei as int].1.inv());
                e.variables.lemma_dom_len();
                lemma_var_total_envs_prefix_le(es, ei + 1);
            }
            vars = vars + e.variables.size();
            ei = ei + 1;
        }
        proof {
            assert(es.take(ne as int) =~= es);
        }
        i = i + 1;
    }
    proof {
        assert(gs.take(n as int) =~= gs);
    }
    (n, envs, vars)
}

proof fn lemma_totals_prefix_le(gs: Seq<(String, GroupDef)>, i: int)
    requires
        0 <= i <= gs.len(),
    ensures
        env_total(gs.take(i)) <= env_total(gs),
        var_total(gs.take(i)) + var_total_envs(gs[i - 1].1.environments.pairs()) <= var_total(gs) + var_total_envs(gs[i - 1].1.environments.pairs()),
        i > 0 ==> var_total(gs.take(i - 1)) + var_total_envs(gs[i - 1].1.environments.pairs()) <= var_total(gs),
    decreases gs.len(),
{
    if i < gs.len() {
        lemma_totals_prefix_le(gs.drop_last(), i);
        assert(gs.drop_last().take(i) =~= gs.take(i));
        if i > 0 {
            assert(gs.drop_last().take(i - 1) =~= gs.take(i - 1));
            assert(gs.drop_last()[i - 1] == gs[i - 1]);
        }
    } else {
        assert(gs.take(i) =~= gs);
        if i > 0 {
            assert(gs.take(i - 1) =~= gs.drop_last());
        }
    }
}

proof fn lemma_var_total_envs_prefix_le(es: Seq<(Seq<char>, EnvView)>, i: int)
    requires
        0 <= i <= es.len(),
    ensures
        var_total_envs(es.take(i)) <= var_total_envs(es),
    decreases es.len(),
{
    if i < es.len() {
        lemma_var_total_envs_prefix_le(es.drop_last(), i);
        assert(es.drop_last().take(i) =~= es.take(i));
    } else {
        assert(es.take(i) =~= es);
    }
}

/// The groups named in `names` (all groups when `names` is empty); the error
/// names the first group that does not exist.
pub open spec fn spec_export_subset(c: ConfigView, names: Seq<Seq<char>>) -> Result<ConfigView, Seq<char>> {
    if names.len() == 0 {
        Ok(c)
    } else if exists|i: int| 0 <= i < names.len() && !c.groups.contains_key(#[trigger] names[i]) {
        let i = choose|i: int|
            0 <= i < names.len() && !c.groups.contains_key(#[trigger] names[i]) && forall|j: int|
                0 <= j < i ==> c.groups.contains_key(#[trigger] names[j]);
        Err(msg_group_not_found(names[i]))
    } else {
        Ok(ConfigView { groups: c.groups.restrict(names.to_set()), environments: Map::empty() })
    }
}

proof fn lemma_first_missing(c: ConfigView, names: Seq<Seq<char>>, i: int)
    requires
        0 <= i < names.len(),
        !c.groups.contains_key(names[i]),
        forall|j: int| 0 <= j < i ==> c.groups.contains_key(#[trigger] names[j]),
    ensures
        spec_export_subset(c, names) == Err::<ConfigView, Seq<char>>(msg_group_not_found(names[i])),
{
    let k = choose|k: int|
        0 <= k < names.len() && !c.groups.contains_key(#[trigger] names[k]) && forall|j: int|
            0 <= j < k ==> c.groups.contains_key(#[trigger] names[j]);
    if k < i {
        assert(c.groups.contains_key(names[k]));
    } else if i < k {
        assert(c.groups.contains_key(names[i]));
    }
}

/// The configuration restricted to the named groups.
pub fn export_subset(cfg: &ConfigFile, group_names: &Vec<String>) -> (r: Result<ConfigFile, String>)
    requires
        cfg.wf(),
    ensures
        match spec_export_subset(cfg@, group_names.deep_view()) {
            Ok(v) => r matches Ok(sub) && sub.wf() && sub@ == v
                && weight_groups(sub.groups.entry_seq()) <= weight_groups(cfg.groups.entry_seq()),
            Err(m) => r matches Err(e) && e@ == m,
        },
{
    let ghost names = group_names.deep_view();
    let mut i: usize = 0;
    while i < group_names.len()
        invariant
            cfg.wf(),
            names == group_names.deep_view(),
            i <= group_names@.len(),
            forall|j: int| 0 <= j < i ==> cfg@.groups.contains_key(#[trigger] names[j]),
        decreases group_names@.len() - i,
    {
        let name = &group_names[i];
        if !cfg.groups.contains_key(name) {
            proof {
                lemma_first_missing(cfg@, names, i as int);
            }
            return Err(group_not_found_message(name));
        }
        i = i + 1;
    }
    let all = group_names.len() == 0;
    let ghost wanted = if all { cfg@.groups.dom() } else { names.to_set() };
    let ghost gs = cfg.groups.entry_seq();
    let n = cfg.groups.size();
    let mut groups: StrMap<GroupDef> = StrMap::new();
    let mut gi: usize = 0;
    proof {
        assert(gs.take(0) =~= Seq::<(String, GroupDef)>::empty());
        assert(groups@ =~= cfg@.groups.restrict(wanted.intersect(StrMap::<GroupDef>::map_of_prefix(cfg.groups, 0).dom())));
    }
    while gi < n
        invariant
            cfg.wf(),
            n == cfg.groups.len(),
            gs == cfg.groups.entry_seq(),
            names == group_names.deep_view(),
            all == (names.len() == 0),
            wanted == if all { cfg@.groups.dom() } else { names.to_set() },
            gi <= n,
            groups.deep_wf(),
            groups@ == cfg@.groups.restrict(wanted.intersect(StrMap::<GroupDef>::map_of_prefix(cfg.groups, gi as int).dom())),
            groups.len() <= gi,
            weight_groups(groups.entry_seq()) <= weight_groups(gs.take(gi as int)),
        decreases n - gi,
    {
        let (name, g) = cfg.groups.entry(gi);
        proof {
            StrMap::<GroupDef>::lemma_map_of_prefix_step(cfg.groups, gi as int);
            cfg.groups.lemma_map_at(gi as int);
            assert(gs[gi as int].1.inv());
            assert(gs.take(gi + 1).drop_last() =~= gs.take(gi as int));
            assert(gs.take(gi + 1).last() == gs[gi as int]);
        }
        let mut take = all;
        if !all {
            let mut j: usize = 0;
            while j < group_names.len()
                invariant
                    j <= group_names@.len(),
                    names == group_names.deep_view(),
                    take == (exists|a: int| 0 <= a < j && #[trigger] names[a] == name@),
                decreases group_names@.len() - j,
            {
                let eq = group_names[j] == *name;
                proof {
                    assert(names[j as int] == group_names@[j as int]@);
                    if eq {
                        assert(names[j as int] == name@);
                    }
                    if take || eq {
                        if eq {
                            assert(names[j as int] == name@);
                        }
                    } else {
                        assert forall|a: int| 0 <= a < j + 1 implies #[trigger] names[a] != name@ by {
                            if a < j {
                            }
                        }
                    }
                }
                if eq {
                    take = true;
                }
                j = j + 1;
            }
        }
        let ghost before = groups;
        let ghost p0 = StrMap::<GroupDef>::map_of_prefix(cfg.groups, gi as int).dom();
        let ghost p1 = StrMap::<GroupDef>::map_of_prefix(cfg.groups, gi + 1).dom();
        proof {
            assert(p1 =~= p0.insert(name@));
            assert(take == wanted.contains(name@)) by {
                if !all && wanted.contains(name@) {
                    let a = choose|a: int| 0 <= a < names.len() && names[a] == name@;
                    assert(names[a] == name@);
                }
            }
            assert(!before@.contains_key(name@));
        }
        if take {
            let kc = name.clone();
            let gd = g.duplicate();
            let ghost kg = kc;
            let ghost gg = gd;
            groups.put(kc, gd);
            proof {
                assert(groups.entry_seq() == before.entry_seq().push((kg, gg)));
                assert(groups.entry_seq().drop_last() =~= before.entry_seq());
                assert(groups@ =~= cfg@.groups.restrict(wanted.intersect(p1)));
            }
        } else {
            proof {
                assert(groups@ =~= cfg@.groups.restrict(wanted.intersect(p1)));
            }
        }
        gi = gi + 1;
    }
    proof {
        StrMap::<GroupDef>::lemma_map_of_prefix_full(cfg.groups);
        assert(gs.take(n as int) =~= gs);
    }
    let environments = if all { cfg.environments.duplicate_map() } else { StrMap::new() };
    let sub = ConfigFile { groups, environments };
    proof {
        if all {
            assert(wanted.intersect(cfg@.groups.dom()) =~= cfg@.groups.dom());
            assert(sub@.groups =~= cfg@.groups);
            assert(sub@ =~= cfg@);
        } else {
            assert(wanted.intersect(cfg@.groups.dom()) =~= names.to_set()) by {
                assert forall|k: Seq<char>| #[trigger] names.to_set().contains(k) implies cfg@.groups.dom().contains(k) by {
                    let a = choose|a: int| 0 <= a < names.len() && names[a] == k;
                    assert(cfg@.groups.contains_key(names[a]));
                }
            }
            assert(sub@.groups =~= cfg@.groups.restrict(names.to_set()));
            assert(sub@.environments =~= Map::<Seq<char>, EnvView>::empty());
        }
    }
    Ok(sub)
}

/// The part of an export that decides what is written: the configuration to
/// write, and the result to report once it is written.
pub fn export_config_flow(cfg: &ConfigFile, req: &ExportRequest) -> (r: Result<(ConfigFile, ExportResult), String>)
    requires
        cfg.wf(),
        weight_groups(cfg.groups.entry_seq()) <= usize::MAX,
    ensures
        match spec_export_subset(cfg@, req.group_names.deep_view()) {
            Ok(v) => r matches Ok((sub, res)) && sub.wf() && sub@ == v && res.output_path@ == req.output_path@
                && res.groups == count(sub@.groups) && res.environments == env_total(sub.groups.entry_seq())
                && res.variables == var_total(sub.groups.entry_seq()),
            Err(m) => r matches Err(e) && e@ == m,
        },
{
    let sub = export_subset(cfg, &req.group_names)?;
    let (groups, environments, variables) = config_counts(&sub);
    let res = ExportResult { output_path: req.output_path.clone(), groups, environments, variables };
    Ok((sub, res))
}

/// The outcome of an import: the merge of `spec_merge_import`, then the
/// check that no variable name is used by two groups.
pub open spec fn imported_as(
    r: Result<ImportSummary, String>,
    before: ConfigView,
    after: ConfigView,
    expected: Result<MergeState, Seq<char>>,
) -> bool {
    match expected {
        Err(m) => (r matches Err(e) && e@ == m) && after == before,
        Ok(st) => {
            &&& after == (ConfigView { groups: st.groups, environments: before.environments })
            &&& (r is Ok <==> vars_unique_across_groups(after))
            &&& (r matches Ok(s) ==> s@ == st.counts)
            &&& (r matches Err(m) ==> reports_conflict(after, m@))
        },
    }
}

/// Merges an (already normalized) imported configuration into `base` and
/// checks the result. `base` holds the merged configuration afterwards; it is
/// to be stored only when the result is `Ok` and the request is no dry run.
pub fn import_config_flow(base: &mut ConfigFile, imported: &ConfigFile, req: &ImportRequest) -> (r: Result<ImportSummary, String>)
    requires
        old(base).wf(),
        imported.wf(),
        1 + weight_groups(imported.groups.entry_seq()) <= usize::MAX,
    ensures
        final(base).wf(),
        imported_as(
            r,
            old(base)@,
            final(base)@,
            spec_merge_import(*old(base), *imported, req.target_mode, req.target_group.deep_view(), req.conflict_strategy),
        ),
{
    let target_group = match &req.target_group {
        Some(t) => Some(t.clone()),
        None => None,
    };
    let summary = merge_import(base, imported, req.target_mode, target_group, req.conflict_strategy)?;
    validate_group_variable_uniqueness(base)?;
    Ok(summary)
}

/// What `import_config_flow` would report, without changing anything.
pub fn preview_import_config_flow(base: &ConfigFile, imported: &ConfigFile, req: &ImportRequest) -> (r: Result<ImportSummary, String>)
    requires
        base.wf(),
        imported.wf(),
        1 + weight_groups(imported.groups.entry_seq()) <= usize::MAX,
    ensures
        exists|after: ConfigView| imported_as(
            r,
            base@,
            after,
            spec_merge_import(*base, *imported, req.target_mode, req.target_group.deep_view(), req.conflict_strategy),
        ),
{
    let mut scratch = base.duplicate();
    proof {
        crate::merge::lemma_first_owner_pairs(scratch.groups, base.groups);
    }
    let r = import_config_flow(&mut scratch, imported, req);
    r
}

} // verus!
