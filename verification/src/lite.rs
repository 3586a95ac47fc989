use vstd::prelude::*;
use crate::apply::{apply_environment_flow, entries_of, persistent_mode, ApplyPlan};
use crate::checks::{reports_conflict, validate_group_variable_uniqueness, vars_unique_across_groups};
use crate::editing::{new_group_view, with_groups};
use crate::messages::{
    env_description, env_description_text, group_description_text, msg_env_not_found, msg_group_not_found,
};
use crate::model::{ConfigFile, ConfigView, EnvDef, EnvView, GroupDef, HooksDef, Item};
use crate::strmap::StrMap;

verus! {

// The rules of the lite desktop build (file storage, no tray), where they
// differ from the main ones: saving does not give the other environments of
// the group the new names, and applying names the product differently.

/// The configuration after the variables of one environment are replaced,
/// the group and the environment created when missing, nothing else changed.
pub open spec fn spec_saved_plain(c: ConfigView, g: Seq<char>, e: Seq<char>, vars: Map<Seq<char>, Seq<char>>) -> ConfigView {
    let groups1 = if c.groups.contains_key(g) { c.groups } else { c.groups.insert(g, new_group_view(g)) };
    let grp = groups1[g];
    let env = if grp.environments.contains_key(e) {
        EnvView { description: grp.environments[e].description, variables: vars, hooks: grp.environments[e].hooks }
    } else {
        EnvView { description: Some(env_description(e)), variables: vars, hooks: Some(None) }
    };
    with_groups(
        c,
        groups1.insert(
            g,
            crate::model::GroupView { description: grp.description, environments: grp.environments.insert(e, env) },
        ),
    )
}

/// Replaces the variables of one environment; the configuration is updated
/// in any case, and the result is an error exactly when a variable name then
/// appears in two groups.
pub fn save_environment_variables(cfg: &mut ConfigFile, group_name: String, env_name: String, variables: StrMap<String>) -> (r: Result<(), String>)
    requires
        old(cfg).wf(),
        variables.wf(),
    ensures
        final(cfg).wf(),
        final(cfg)@ == spec_saved_plain(old(cfg)@, group_name@, env_name@, variables@),
        r is Ok <==> vars_unique_across_groups(final(cfg)@),
        r matches Err(m) ==> reports_conflict(final(cfg)@, m@),
{
    let ghost c0 = cfg@;
    if !cfg.groups.contains_key(&group_name) {
        let desc = group_description_text(&group_name);
        let g = GroupDef { description: Some(desc), environments: StrMap::new() };
        proof {
            assert(g.environments@ =~= Map::<Seq<char>, EnvView>::empty());
        }
        cfg.groups.put(group_name.clone(), g);
    }
    let gi = cfg.groups.find(&group_name).unwrap();
    let ghost before = cfg.groups;
    proof {
        before.lemma_map_at(gi as int);
        assert(before.entry_seq()[gi as int].1.inv());
    }
    let grp = cfg.groups.value_mut(gi);
    let existing = match grp.environments.get(&env_name) {
        Some(e) => {
            proof {
                grp.environments.lemma_value_inv(env_name@);
            }
            Some(e.duplicate())
        },
        None => None,
    };
    let ghost vv = variables@;
    let updated = match existing {
        Some(mut env) => {
            env.variables = variables;
            env
        },
        None => EnvDef {
            description: Some(env_description_text(&env_name)),
            variables,
            hooks: Some(HooksDef { post: None }),
        },
    };
    grp.environments.put(env_name, updated);
    let ghost grp_final = *grp;
    proof {
        StrMap::lemma_deep_update(before, cfg.groups, gi as int, grp_final);
        assert(cfg@ =~= spec_saved_plain(c0, group_name@, env_name@, vv));
    }
    validate_group_variable_uniqueness(cfg)
}

/// The lite build's refusal of any mode but the persistent one.
pub open spec fn msg_lite_persistent_only() -> Seq<char> {
    "envflow only supports persistent mode; reopen target processes after applying"@
}

/// Looks up the environment to apply and lists its variables in name order,
/// as `apply_environment_flow` does, with the lite build's message for another mode.
pub fn apply_environment(cfg: &ConfigFile, group_name: &String, env_name: &String, mode: &String) -> (r: Result<ApplyPlan, String>)
    requires
        cfg.wf(),
    ensures
        !cfg@.groups.contains_key(group_name@) ==> (r matches Err(e) && e@ == msg_group_not_found(group_name@)),
        cfg@.groups.contains_key(group_name@) && !cfg@.groups[group_name@].environments.contains_key(env_name@)
            ==> (r matches Err(e) && e@ == msg_env_not_found(env_name@, group_name@)),
        cfg@.groups.contains_key(group_name@) && cfg@.groups[group_name@].environments.contains_key(env_name@)
            && mode@ != persistent_mode() ==> (r matches Err(e) && e@ == msg_lite_persistent_only()),
        cfg@.groups.contains_key(group_name@) && cfg@.groups[group_name@].environments.contains_key(env_name@)
            && mode@ == persistent_mode() ==> (r matches Ok(plan) && {
            let env = cfg@.groups[group_name@].environments[env_name@];
            &&& entries_of(plan.entries@, env.variables)
            &&& match plan.hooks {
                Some(h) => env.hooks == Some(h.deep_view()),
                None => env.hooks is None,
            }
        }),
{
    let persistent = "persistent".to_owned();
    proof {
        reveal_strlit("persistent");
    }
    let plan = apply_environment_flow(cfg, group_name, env_name, &persistent)?;
    if !(*mode == persistent) {
        return Err("envflow only supports persistent mode; reopen target processes after applying".to_owned());
    }
    Ok(plan)
}

} // verus!
