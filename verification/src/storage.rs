use vstd::prelude::*;
use crate::model::{ConfigFile, ConfigView, EnvDef, EnvView, GroupDef, GroupView, Item};
use crate::strmap::StrMap;

verus! {

/// The group that ungrouped environments of the older layout move into.
pub open spec fn default_group_name() -> Seq<char> {
    "default"@
}

/// The description of that group when it has to be created.
pub open spec fn default_group_description() -> Seq<char> {
    "Default group"@
}

/// The older layout's ungrouped environments moved into the group "default"
/// (created when missing); an ungrouped environment replaces one of the same
/// name there.
pub open spec fn spec_normalize_config(c: ConfigView) -> ConfigView {
    if c.environments.dom().len() == 0 {
        c
    } else {
        let d = if c.groups.contains_key(default_group_name()) {
            c.groups[default_group_name()]
        } else {
            GroupView { description: Some(default_group_description()), environments: Map::empty() }
        };
        ConfigView {
            groups: c.groups.insert(
                default_group_name(),
                GroupView { description: d.description, environments: d.environments.union_prefer_right(c.environments) },
            ),
            environments: Map::empty(),
        }
    }
}

/// Normalizes the older layout into the grouped one.
pub fn normalize_config(cfg: ConfigFile) -> (r: ConfigFile)
    requires
        cfg.wf(),
    ensures
        r.wf(),
        r@ == spec_normalize_config(cfg@),
{
    proof {
        cfg.environments.lemma_dom_len();
    }
    if cfg.environments.size() == 0 {
        return cfg;
    }
    let ghost c0 = cfg@;
    let ConfigFile { mut groups, environments } = cfg;
    let dname = "default".to_owned();
    let mut dg = match groups.take(&dname) {
        Some(g) => g,
        None => {
            let g = GroupDef { description: Some("Default group".to_owned()), environments: StrMap::new() };
            proof {
                assert(g.environments@ =~= Map::<Seq<char>, EnvView>::empty());
            }
            g
        },
    };
    dg.environments.absorb(environments);
    groups.put(dname, dg);
    let r = ConfigFile { groups, environments: StrMap::new() };
    proof {
        assert(r@.groups =~= spec_normalize_config(c0).groups);
        assert(r@.environments =~= Map::<Seq<char>, EnvView>::empty());
        assert(r@ =~= spec_normalize_config(c0));
    }
    r
}

#[verifier::external_type_specification]
#[verifier::external_body]
pub struct ExJsonError(serde_json::Error);

/// The list of strings that a JSON text holds, when it is a JSON array of strings.
pub uninterp spec fn spec_json_string_list(text: Seq<char>) -> Option<Seq<Seq<char>>>;

/// The JSON text that serde_json writes for a list of strings.
pub uninterp spec fn spec_json_of_strings(list: Seq<Seq<char>>) -> Seq<char>;

/// Reads a JSON array of strings with `serde_json::from_str::<Vec<String>>`;
/// `None` when the text is not one. The result is named `spec_json_string_list`.
#[verifier::external_body]
fn parse_string_list(text: &String) -> (r: Option<Vec<String>>)
    ensures
        match r {
            Some(v) => spec_json_string_list(text@) == Some(v.deep_view()),
            None => spec_json_string_list(text@) is None,
        },
{
    serde_json::from_str::<Vec<String>>(text.as_str()).ok()
}

/// Writes a list of strings as JSON with `serde_json::to_string`. A list of
/// strings always serializes (serde_json fails only when a `Serialize` impl
/// fails or a map has keys that are not strings). The text is named
/// `spec_json_of_strings` of the list, and reading it back with serde_json
/// gives the same list.
#[verifier::external_body]
fn encode_string_list(list: &Vec<String>) -> (r: Result<String, serde_json::Error>)
    ensures
        r is Ok,
        r matches Ok(t) ==> t@ == spec_json_of_strings(list.deep_view()) && spec_json_string_list(t@) == Some(
            list.deep_view(),
        ),
{
    serde_json::to_string(list)
}

/// The text of a serde_json error (its `Display`); nothing is stated of it.
#[verifier::external_body]
fn json_error_text(e: &serde_json::Error) -> String {
    e.to_string()
}

/// One row to store: a group, an environment of a group, or a variable of an environment.
pub enum DbRow {
    Group { name: String, description: Option<String> },
    Environment { group_name: String, name: String, description: Option<String>, hooks_post_json: Option<String> },
    Variable { group_name: String, env_name: String, key: String, value: String },
}

/// The view of a row.
pub enum RowView {
    Group { name: Seq<char>, description: Option<Seq<char>> },
    Environment {
        group_name: Seq<char>,
        name: Seq<char>,
        description: Option<Seq<char>>,
        hooks_post_json: Option<Seq<char>>,
    },
    Variable { group_name: Seq<char>, env_name: Seq<char>, key: Seq<char>, value: Seq<char> },
}

impl View for DbRow {
    type V = RowView;

    open spec fn view(&self) -> RowView {
        match self {
            DbRow::Group { name, description } => RowView::Group { name: name@, description: description.deep_view() },
            DbRow::Environment { group_name, name, description, hooks_post_json } => RowView::Environment {
                group_name: group_name@,
                name: name@,
                description: description.deep_view(),
                hooks_post_json: hooks_post_json.deep_view(),
            },
            DbRow::Variable { group_name, env_name, key, value } => RowView::Variable {
                group_name: group_name@,
                env_name: env_name@,
                key: key@,
                value: value@,
            },
        }
    }
}

/// The stored form of the hooks: the JSON of the post commands, if there are any.
pub open spec fn hooks_json(hooks: Option<Option<Seq<Seq<char>>>>) -> Option<Seq<char>> {
    match hooks {
        Some(Some(list)) => Some(spec_json_of_strings(list)),
        _ => None,
    }
}

/// The rows of the variables of one environment, in entry order.
pub open spec fn var_rows(g: Seq<char>, e: Seq<char>, vars: Seq<(Seq<char>, Seq<char>)>) -> Seq<RowView> {
    vars.map_values(|kv: (Seq<char>, Seq<char>)| RowView::Variable { group_name: g, env_name: e, key: kv.0, value: kv.1 })
}

/// The rows of the environments of one group: each environment, then its variables.
pub open spec fn env_rows(g: Seq<char>, envs: Seq<(String, crate::model::EnvDef)>) -> Seq<RowView>
    decreases envs.len(),
{
    if envs.len() == 0 {
        Seq::empty()
    } else {
        let e = envs.last();
        env_rows(g, envs.drop_last()) + seq![RowView::Environment {
            group_name: g,
            name: e.0@,
            description: e.1@.description,
            hooks_post_json: hooks_json(e.1@.hooks),
        }] + var_rows(g, e.0@, e.1.variables.pairs())
    }
}

/// The rows of all groups: each group, then its environments.
pub open spec fn config_rows(gs: Seq<(String, GroupDef)>) -> Seq<RowView>
    decreases gs.len(),
{
    if gs.len() == 0 {
        Seq::empty()
    } else {
        let g = gs.last();
        config_rows(gs.drop_last()) + seq![RowView::Group { name: g.0@, description: g.1@.description }]
            + env_rows(g.0@, g.1.environments.entry_seq())
    }
}

/// The message of a failed hooks encoding starts with this.
pub open spec fn hooks_error_prefix(g: Seq<char>, e: Seq<char>) -> Seq<char> {
    "failed to serialize hooks for "@ + g + "/"@ + e + ": "@
}

/// A message that reports a failed hooks encoding for environment `e` of group `g`.
pub open spec fn is_hooks_error(m: Seq<char>, g: Seq<char>, e: Seq<char>) -> bool {
    m.len() >= hooks_error_prefix(g, e).len() && m.subrange(0, hooks_error_prefix(g, e).len() as int)
        == hooks_error_prefix(g, e)
}

fn hooks_error_message(g: &String, e: &String, err: &serde_json::Error) -> (r: String)
    ensures
        is_hooks_error(r@, g@, e@),
{
    let text = json_error_text(err);
    let mut r = crate::text::concat5("failed to serialize hooks for ", g.as_str(), "/", e.as_str(), ": ");
    let ghost p = r@;
    r.append(text.as_str());
    proof {
        assert(r@.subrange(0, p.len() as int) =~= p);
    }
    r
}

/// The stored text of an environment's hooks, or the message of a failed encoding.
fn env_hooks_text(g: &String, e: &String, env: &crate::model::EnvDef) -> (r: Result<Option<String>, String>)
    ensures
        r is Ok,
        r matches Ok(t) ==> t.deep_view() == hooks_json(env@.hooks),
        r matches Err(m) ==> is_hooks_error(m@, g@, e@),
{
    match &env.hooks {
        Some(h) => match &h.post {
            Some(list) => match encode_string_list(list) {
                Ok(t) => Ok(Some(t)),
                Err(err) => Err(hooks_error_message(g, e, &err)),
            },
            None => Ok(None),
        },
        None => Ok(None),
    }
}

/// The rows that store the groups of the configuration: each group, then
/// each of its environments followed by its variables. The ungrouped
/// environments of the older layout are not stored.
pub fn config_to_rows(cfg: &ConfigFile) -> (r: Result<Vec<DbRow>, String>)
    requires
        cfg.wf(),
    ensures
        r is Ok,
        r matches Ok(rows) ==> rows@.map_values(|x: DbRow| x@) == config_rows(cfg.groups.entry_seq()),
{
    let ghost gs = cfg.groups.entry_seq();
    let mut rows: Vec<DbRow> = Vec::new();
    let n = cfg.groups.size();
    let mut i: usize = 0;
    proof {
        assert(gs.take(0) =~= Seq::<(String, GroupDef)>::empty());
        assert(rows@.map_values(|x: DbRow| x@) =~= config_rows(gs.take(0)));
    }
    while i < n
        invariant
            n == cfg.groups.len(),
            gs == cfg.groups.entry_seq(),
            cfg.wf(),
            i <= n,
            rows@.map_values(|x: DbRow| x@) == config_rows(gs.take(i as int)),
        decreases n - i,
    {
        let (gname, g) = cfg.groups.entry(i);
        proof {
            assert(gs.take(i + 1).drop_last() =~= gs.take(i as int));
            assert(gs.take(i + 1).last() == gs[i as int]);
            assert(gs[i as int].1.inv());
        }
        let ghost base = rows@.map_values(|x: DbRow| x@);
        rows.push(DbRow::Group { name: gname.clone(), description: crate::model::duplicate_opt_string(&g.description) });
        let ghost es = g.environments.entry_seq();
        let ghost start = rows@.map_values(|x: DbRow| x@);
        proof {
            assert(start =~= base + seq![RowView::Group { name: gname@, description: g@.description }]);
            assert(es.take(0) =~= Seq::<(String, crate::model::EnvDef)>::empty());
            assert(start =~= start + env_rows(gname@, es.take(0)));
        }
        let ne = g.environments.size();
        let mut ei: usize = 0;
        while ei < ne
            invariant
                ne == g.environments.len(),
                es == g.environments.entry_seq(),
                g.environments.deep_wf(),
                ei <= ne,
                rows@.map_values(|x: DbRow| x@) == start + env_rows(gname@, es.take(ei as int)),
            decreases ne - ei,
        {
            let (ename, env) = g.environments.entry(ei);
            proof {
                assert(es.take(ei + 1).drop_last() =~= es.take(ei as int));
                assert(es.take(ei + 1).last() == es[ei as int]);
                assert(es[ei as int].1.inv());
            }
            let hooks_json_text = match env_hooks_text(gname, ename, env) {
                Ok(t) => t,
                Err(m) => {
                    return Err(m);
                },
            };
            let ghost before_env = rows@.map_values(|x: DbRow| x@);
            rows.push(DbRow::Environment {
                group_name: gname.clone(),
                name: ename.clone(),
                description: crate::model::duplicate_opt_string(&env.description),
                hooks_post_json: hooks_json_text,
            });
            let ghost vs = env.variables.pairs();
            let ghost vstart = rows@.map_values(|x: DbRow| x@);
            proof {
                assert(vstart =~= before_env + seq![RowView::Environment {
                    group_name: gname@,
                    name: ename@,
                    description: env@.description,
                    hooks_post_json: hooks_json(env@.hooks),
                }]);
                assert(var_rows(gname@, ename@, vs.take(0)) =~= Seq::<RowView>::empty());
            }
            let nv = env.variables.size();
            let mut vi: usize = 0;
            while vi < nv
                invariant
                    nv == env.variables.len(),
                    vs == env.variables.pairs(),
                    vi <= nv,
                    rows@.map_values(|x: DbRow| x@) == vstart + var_rows(gname@, ename@, vs.take(vi as int)),
                decreases nv - vi,
            {
                let (k, v) = env.variables.entry(vi);
                let ghost b = rows@.map_values(|x: DbRow| x@);
                let ghost rb = rows@;
                let row = DbRow::Variable { group_name: gname.clone(), env_name: ename.clone(), key: k.clone(), value: v.clone() };
                let ghost rv = row@;
                rows.push(row);
                proof {
                    assert(rows@ == rb.push(row));
                    assert(rows@.map_values(|x: DbRow| x@) =~= b.push(rv));
                    assert(vs[vi as int] == (k@, v@));
                    assert(vs.take(vi + 1) =~= vs.take(vi as int).push((k@, v@)));
                    assert(var_rows(gname@, ename@, vs.take(vi + 1)) =~= var_rows(gname@, ename@, vs.take(vi as int)).push(RowView::Variable {
                        group_name: gname@,
                        env_name: ename@,
                        key: k@,
                        value: v@,
                    }));
                    assert(rows@.map_values(|x: DbRow| x@) =~= vstart + var_rows(gname@, ename@, vs.take(vi + 1)));
                }
                vi = vi + 1;
            }
            proof {
                assert(vs.take(nv as int) =~= vs);
                assert(rows@.map_values(|x: DbRow| x@) =~= start + env_rows(gname@, es.take(ei + 1)));
            }
            ei = ei + 1;
        }
        proof {
            assert(es.take(ne as int) =~= es);
            assert(rows@.map_values(|x: DbRow| x@) =~= config_rows(gs.take(i + 1)));
        }
        i = i + 1;
    }
    proof {
        assert(gs.take(n as int) =~= gs);
    }
    Ok(rows)
}

/// One stored environment, with its variables, as the database hands it back.
pub struct EnvRecord {
    pub group_name: String,
    pub name: String,
    pub description: Option<String>,
    pub hooks_post_json: Option<String>,
    pub variables: Vec<(String, String)>,
}

/// The view of a stored environment.
pub struct EnvRecordView {
    pub group_name: Seq<char>,
    pub name: Seq<char>,
    pub description: Option<Seq<char>>,
    pub hooks_post_json: Option<Seq<char>>,
    pub variables: Seq<(Seq<char>, Seq<char>)>,
}

impl View for EnvRecord {
    type V = EnvRecordView;

    open spec fn view(&self) -> EnvRecordView {
        EnvRecordView {
            group_name: self.group_name@,
            name: self.name@,
            description: self.description.deep_view(),
            hooks_post_json: self.hooks_post_json.deep_view(),
            variables: self.variables.deep_view(),
        }
    }
}

/// The groups that the group rows describe, each still without environments;
/// a later row of the same name wins.
pub open spec fn groups_of_rows(rows: Seq<(Seq<char>, Option<Seq<char>>)>) -> Map<Seq<char>, GroupView>
    decreases rows.len(),
{
    if rows.len() == 0 {
        Map::empty()
    } else {
        groups_of_rows(rows.drop_last()).insert(
            rows.last().0,
            GroupView { description: rows.last().1, environments: Map::empty() },
        )
    }
}

/// The variables that the variable rows hold; a later row of the same key wins.
pub open spec fn vars_of_rows(rows: Seq<(Seq<char>, Seq<char>)>) -> Map<Seq<char>, Seq<char>>
    decreases rows.len(),
{
    if rows.len() == 0 {
        Map::empty()
    } else {
        vars_of_rows(rows.drop_last()).insert(rows.last().0, rows.last().1)
    }
}

/// The hooks that a stored hooks text stands for: the post commands when the
/// text is a JSON array of strings, no hooks otherwise.
pub open spec fn hooks_of_json(text: Option<Seq<char>>) -> Option<Option<Seq<Seq<char>>>> {
    match text {
        Some(t) => match spec_json_string_list(t) {
            Some(list) => Some(Some(list)),
            None => None,
        },
        None => None,
    }
}

/// The environment that a stored environment stands for.
pub open spec fn env_of_record(r: EnvRecordView) -> EnvView {
    EnvView {
        description: r.description,
        variables: vars_of_rows(r.variables),
        hooks: hooks_of_json(r.hooks_post_json),
    }
}

/// Adds one stored environment to its group; a group that has no row of its
/// own is created with the description "<name> group".
pub open spec fn add_record(m: Map<Seq<char>, GroupView>, r: EnvRecordView) -> Map<Seq<char>, GroupView> {
    let g = if m.contains_key(r.group_name) {
        m[r.group_name]
    } else {
        GroupView {
            description: Some(crate::messages::group_description(r.group_name)),
            environments: Map::empty(),
        }
    };
    m.insert(
        r.group_name,
        GroupView { description: g.description, environments: g.environments.insert(r.name, env_of_record(r)) },
    )
}

/// Adds the stored environments one after the other.
pub open spec fn add_records(m: Map<Seq<char>, GroupView>, rs: Seq<EnvRecordView>) -> Map<Seq<char>, GroupView>
    decreases rs.len(),
{
    if rs.len() == 0 {
        m
    } else {
        add_record(add_records(m, rs.drop_last()), rs.last())
    }
}

/// The configuration that the stored rows describe.
pub open spec fn spec_config_from_rows(
    groups: Seq<(Seq<char>, Option<Seq<char>>)>,
    envs: Seq<EnvRecordView>,
) -> ConfigView {
    ConfigView { groups: add_records(groups_of_rows(groups), envs), environments: Map::empty() }
}

/// The hooks of a stored hooks text (see `hooks_of_json`).
fn hooks_from_json(text: &Option<String>) -> (r: Option<crate::model::HooksDef>)
    ensures
        match r {
            Some(h) => hooks_of_json(text.deep_view()) == Some(h.deep_view()),
            None => hooks_of_json(text.deep_view()) is None,
        },
{
    match text {
        Some(t) => match parse_string_list(t) {
            Some(list) => Some(crate::model::HooksDef { post: Some(list) }),
            None => None,
        },
        None => None,
    }
}

/// The variables of stored variable rows.
fn vars_from_rows(rows: &Vec<(String, String)>) -> (r: StrMap<String>)
    ensures
        r.wf(),
        r@ == vars_of_rows(rows.deep_view()),
{
    let ghost rv = rows.deep_view();
    let mut m: StrMap<String> = StrMap::new();
    let mut i: usize = 0;
    let n = rows.len();
    proof {
        assert(rv.take(0) =~= Seq::<(Seq<char>, Seq<char>)>::empty());
    }
    while i < n
        invariant
            n == rows.len(),
            rv == rows.deep_view(),
            i <= n,
            m.wf(),
            m@ == vars_of_rows(rv.take(i as int)),
        decreases n - i,
    {
        let k = rows[i].0.clone();
        let v = rows[i].1.clone();
        proof {
            assert(rv[i as int] == (k@, v@));
            assert(rv.take(i + 1).drop_last() =~= rv.take(i as int));
        }
        m.insert(k, v);
        i = i + 1;
    }
    proof {
        assert(rv.take(n as int) =~= rv);
    }
    m
}

/// Builds the configuration from the stored rows: first the groups, then each
/// stored environment in turn, into its group.
pub fn config_from_rows(groups: Vec<(String, Option<String>)>, envs: Vec<EnvRecord>) -> (r: ConfigFile)
    ensures
        r.wf(),
        r@ == spec_config_from_rows(groups.deep_view(), envs@.map_values(|e: EnvRecord| e@)),
{
    let ghost gv = groups.deep_view();
    let mut cfg = ConfigFile::new();
    let n = groups.len();
    let mut i: usize = 0;
    proof {
        assert(gv.take(0) =~= Seq::<(Seq<char>, Option<Seq<char>>)>::empty());
    }
    while i < n
        invariant
            n == groups.len(),
            gv == groups.deep_view(),
            i <= n,
            cfg.wf(),
            cfg@.groups == groups_of_rows(gv.take(i as int)),
            cfg@.environments == Map::<Seq<char>, EnvView>::empty(),
        decreases n - i,
    {
        let name = groups[i].0.clone();
        let description = crate::model::duplicate_opt_string(&groups[i].1);
        let g = GroupDef { description, environments: StrMap::new() };
        proof {
            assert(gv[i as int] == (name@, description.deep_view()));
            assert(gv.take(i + 1).drop_last() =~= gv.take(i as int));
            assert(g.environments@ =~= Map::<Seq<char>, EnvView>::empty());
        }
        cfg.groups.put(name, g);
        proof {
            assert(cfg@.groups =~= groups_of_rows(gv.take(i + 1)));
        }
        i = i + 1;
    }
    proof {
        assert(gv.take(n as int) =~= gv);
    }
    let ghost start = cfg@.groups;
    let ghost ev = envs@.map_values(|e: EnvRecord| e@);
    let ne = envs.len();
    let mut j: usize = 0;
    proof {
        assert(ev.take(0) =~= Seq::<EnvRecordView>::empty());
    }
    while j < ne
        invariant
            ne == envs.len(),
            ev == envs@.map_values(|e: EnvRecord| e@),
            j <= ne,
            cfg.wf(),
            cfg@.groups == add_records(start, ev.take(j as int)),
            cfg@.environments == Map::<Seq<char>, EnvView>::empty(),
        decreases ne - j,
    {
        let rec = &envs[j];
        let ghost rv = rec@;
        proof {
            assert(ev[j as int] == rv);
            assert(ev.take(j + 1).drop_last() =~= ev.take(j as int));
            assert(ev.take(j + 1).last() == rv);
        }
        let variables = vars_from_rows(&rec.variables);
        let hooks = hooks_from_json(&rec.hooks_post_json);
        let env = EnvDef { description: crate::model::duplicate_opt_string(&rec.description), variables, hooks };
        proof {
            assert(env.deep_view() == env_of_record(rv));
        }
        let ghost before = cfg@.groups;
        let mut g = match cfg.groups.take(&rec.group_name) {
            Some(g) => g,
            None => {
                let g = GroupDef {
                    description: Some(crate::messages::group_description_text(&rec.group_name)),
                    environments: StrMap::new(),
                };
                proof {
                    assert(g.environments@ =~= Map::<Seq<char>, EnvView>::empty());
                }
                g
            },
        };
        g.environments.put(rec.name.clone(), env);
        cfg.groups.put(rec.group_name.clone(), g);
        proof {
            assert(cfg@.groups =~= add_record(before, rv));
        }
        j = j + 1;
    }
    proof {
        assert(ev.take(ne as int) =~= ev);
    }
    cfg
}

} // verus!
