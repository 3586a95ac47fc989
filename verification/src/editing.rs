use vstd::prelude::*;
use crate::messages::{
    env_exists_message, env_not_found_message, env_required_message, group_description,
    group_description_text, group_exists_message, group_not_found_message, group_required_message,
    msg_env_exists, msg_env_not_found, msg_env_required, msg_group_exists, msg_group_not_found,
    msg_group_required,
};
use crate::model::{ConfigFile, ConfigView, EnvView, GroupDef, GroupView};
use crate::strmap::StrMap;
use crate::text::{trim, trim_string};

verus! {

/// `r` is what `expected` says: on success the configuration became the
/// expected one; on an error the message is the expected one and the
/// configuration is unchanged.
pub open spec fn applied_as(
    r: Result<(), String>,
    before: ConfigView,
    after: ConfigView,
    expected: Result<ConfigView, Seq<char>>,
) -> bool {
    match expected {
        Ok(v) => r is Ok && after == v,
        Err(m) => (r matches Err(e) && e@ == m) && after == before,
    }
}

/// A group created by name: described as "<name> group", with no environments.
pub open spec fn new_group_view(name: Seq<char>) -> GroupView {
    GroupView { description: Some(group_description(name)), environments: Map::empty() }
}

pub open spec fn with_groups(c: ConfigView, groups: Map<Seq<char>, GroupView>) -> ConfigView {
    ConfigView { groups, environments: c.environments }
}

pub open spec fn spec_create_group(c: ConfigView, raw: Seq<char>) -> Result<ConfigView, Seq<char>> {
    let name = trim(raw);
    if name.len() == 0 {
        Err(msg_group_required())
    } else if c.groups.contains_key(name) {
        Err(msg_group_exists(name))
    } else {
        Ok(with_groups(c, c.groups.insert(name, new_group_view(name))))
    }
}

pub open spec fn spec_rename_group(c: ConfigView, old_raw: Seq<char>, new_raw: Seq<char>) -> Result<
    ConfigView,
    Seq<char>,
> {
    let old_name = trim(old_raw);
    let new_name = trim(new_raw);
    if old_name.len() == 0 || new_name.len() == 0 {
        Err(msg_group_required())
    } else if old_name == new_name {
        Ok(c)
    } else if !c.groups.contains_key(old_name) {
        Err(msg_group_not_found(old_name))
    } else if c.groups.contains_key(new_name) {
        Err(msg_group_exists(new_name))
    } else {
        Ok(with_groups(c, c.groups.remove(old_name).insert(new_name, c.groups[old_name])))
    }
}

pub open spec fn spec_delete_group(c: ConfigView, raw: Seq<char>) -> Result<ConfigView, Seq<char>> {
    let name = trim(raw);
    if name.len() == 0 {
        Err(msg_group_required())
    } else if !c.groups.contains_key(name) {
        Err(msg_group_not_found(name))
    } else {
        Ok(with_groups(c, c.groups.remove(name)))
    }
}

pub open spec fn with_group_envs(c: ConfigView, g: Seq<char>, envs: Map<Seq<char>, EnvView>) -> ConfigView {
    with_groups(
        c,
        c.groups.insert(g, GroupView { description: c.groups[g].description, environments: envs }),
    )
}

/// Environment errors name the group as it was given, before trimming.
pub open spec fn spec_rename_environment(
    c: ConfigView,
    group_raw: Seq<char>,
    old_raw: Seq<char>,
    new_raw: Seq<char>,
) -> Result<ConfigView, Seq<char>> {
    let g = trim(group_raw);
    let old_name = trim(old_raw);
    let new_name = trim(new_raw);
    if !c.groups.contains_key(g) {
        Err(msg_group_not_found(group_raw))
    } else if old_name.len() == 0 || new_name.len() == 0 {
        Err(msg_env_required())
    } else if old_name == new_name {
        Ok(c)
    } else if !c.groups[g].environments.contains_key(old_name) {
        Err(msg_env_not_found(old_name, group_raw))
    } else if c.groups[g].environments.contains_key(new_name) {
        Err(msg_env_exists(new_name, group_raw))
    } else {
        let envs = c.groups[g].environments;
        Ok(with_group_envs(c, g, envs.remove(old_name).insert(new_name, envs[old_name])))
    }
}

pub open spec fn spec_delete_environment(c: ConfigView, group_raw: Seq<char>, env_raw: Seq<char>) -> Result<
    ConfigView,
    Seq<char>,
> {
    let g = trim(group_raw);
    let name = trim(env_raw);
    if !c.groups.contains_key(g) {
        Err(msg_group_not_found(group_raw))
    } else if name.len() == 0 {
        Err(msg_env_required())
    } else if !c.groups[g].environments.contains_key(name) {
        Err(msg_env_not_found(name, group_raw))
    } else {
        Ok(with_group_envs(c, g, c.groups[g].environments.remove(name)))
    }
}

fn is_empty_text(s: &String) -> (b: bool)
    ensures
        b == (s@.len() == 0),
{
    s.as_str().unicode_len() == 0
}

/// Adds an empty group named by the trimmed `group_name`.
pub fn create_group(cfg: &mut ConfigFile, group_name: String) -> (r: Result<(), String>)
    requires
        old(cfg).wf(),
    ensures
        final(cfg).wf(),
        applied_as(r, old(cfg)@, final(cfg)@, spec_create_group(old(cfg)@, group_name@)),
{
    let name = trim_string(&group_name);
    if is_empty_text(&name) {
        return Err(group_required_message());
    }
    if cfg.groups.contains_key(&name) {
        return Err(group_exists_message(&name));
    }
    let desc = group_description_text(&name);
    let g = GroupDef { description: Some(desc), environments: StrMap::new() };
    proof {
        assert(g.environments@ =~= Map::<Seq<char>, EnvView>::empty());
    }
    cfg.groups.put(name, g);
    Ok(())
}

/// Renames a group; renaming to the same name changes nothing.
pub fn rename_group(cfg: &mut ConfigFile, old_name: String, new_name: String) -> (r: Result<
    (),
    String,
>)
    requires
        old(cfg).wf(),
    ensures
        final(cfg).wf(),
        applied_as(r, old(cfg)@, final(cfg)@, spec_rename_group(old(cfg)@, old_name@, new_name@)),
{
    let old_t = trim_string(&old_name);
    let new_t = trim_string(&new_name);
    if is_empty_text(&old_t) || is_empty_text(&new_t) {
        return Err(group_required_message());
    }
    if old_t == new_t {
        return Ok(());
    }
    if !cfg.groups.contains_key(&old_t) {
        return Err(group_not_found_message(&old_t));
    }
    if cfg.groups.contains_key(&new_t) {
        return Err(group_exists_message(&new_t));
    }
    match cfg.groups.take(&old_t) {
        Some(group) => {
            cfg.groups.put(new_t, group);
            Ok(())
        },
        None => Err(group_not_found_message(&old_t)),
    }
}

/// Removes a group with all its environments.
pub fn delete_group(cfg: &mut ConfigFile, group_name: String) -> (r: Result<(), String>)
    requires
        old(cfg).wf(),
    ensures
        final(cfg).wf(),
        applied_as(r, old(cfg)@, final(cfg)@, spec_delete_group(old(cfg)@, group_name@)),
{
    let name = trim_string(&group_name);
    if is_empty_text(&name) {
        return Err(group_required_message());
    }
    match cfg.groups.take(&name) {
        Some(_) => Ok(()),
        None => Err(group_not_found_message(&name)),
    }
}

/// Renames an environment inside a group; renaming to the same name changes nothing.
pub fn rename_environment(cfg: &mut ConfigFile, group_name: String, old_name: String, new_name: String) -> (r:
    Result<(), String>)
    requires
        old(cfg).wf(),
    ensures
        final(cfg).wf(),
        applied_as(
            r,
            old(cfg)@,
            final(cfg)@,
            spec_rename_environment(old(cfg)@, group_name@, old_name@, new_name@),
        ),
{
    let g = trim_string(&group_name);
    let gi = match cfg.groups.find(&g) {
        Some(i) => i,
        None => {
            return Err(group_not_found_message(&group_name));
        },
    };
    let old_t = trim_string(&old_name);
    let new_t = trim_string(&new_name);
    if is_empty_text(&old_t) || is_empty_text(&new_t) {
        return Err(env_required_message());
    }
    if old_t == new_t {
        return Ok(());
    }
    let ghost before = *cfg;
    proof {
        before.groups.lemma_map_at(gi as int);
        before.groups.lemma_value_inv(g@);
    }
    {
        let (_k, grp) = cfg.groups.entry(gi);
        if !grp.environments.contains_key(&old_t) {
            return Err(env_not_found_message(&old_t, &group_name));
        }
        if grp.environments.contains_key(&new_t) {
            return Err(env_exists_message(&new_t, &group_name));
        }
    }
    let grp = cfg.groups.value_mut(gi);
    let env = grp.environments.take(&old_t);
    match env {
        Some(e) => {
            grp.environments.put(new_t, e);
        },
        None => {},
    }
    let ghost gfinal = *grp;
    proof {
        StrMap::lemma_deep_update(before.groups, cfg.groups, gi as int, gfinal);
        assert(final_view_ok(before@, cfg@, g@, old_t@, new_t@));
    }
    Ok(())
}

spec fn final_view_ok(b: ConfigView, a: ConfigView, g: Seq<char>, o: Seq<char>, n: Seq<char>) -> bool {
    let envs = b.groups[g].environments;
    a == with_group_envs(b, g, envs.remove(o).insert(n, envs[o]))
}

/// Removes an environment from a group.
pub fn delete_environment(cfg: &mut ConfigFile, group_name: String, env_name: String) -> (r: Result<
    (),
    String,
>)
    requires
        old(cfg).wf(),
    ensures
        final(cfg).wf(),
        applied_as(r, old(cfg)@, final(cfg)@, spec_delete_environment(old(cfg)@, group_name@, env_name@)),
{
    let g = trim_string(&group_name);
    let gi = match cfg.groups.find(&g) {
        Some(i) => i,
        None => {
            return Err(group_not_found_message(&group_name));
        },
    };
    let name = trim_string(&env_name);
    if is_empty_text(&name) {
        return Err(env_required_message());
    }
    let ghost before = *cfg;
    proof {
        before.groups.lemma_map_at(gi as int);
        before.groups.lemma_value_inv(g@);
    }
    {
        let (_k, grp) = cfg.groups.entry(gi);
        if !grp.environments.contains_key(&name) {
            return Err(env_not_found_message(&name, &group_name));
        }
    }
    let grp = cfg.groups.value_mut(gi);
    let _removed = grp.environments.take(&name);
    let ghost gfinal = *grp;
    proof {
        StrMap::lemma_deep_update(before.groups, cfg.groups, gi as int, gfinal);
    }
    Ok(())
}

} // verus!
