use clicky::listing::{get_environment_variables, list_groups};
use clicky::model::{ConfigFile, EnvDef, GroupDef, HooksDef};
use clicky::storage::{config_from_rows, config_to_rows, normalize_config, DbRow, EnvRecord};
use clicky::strmap::StrMap;

fn env(vars: &[(&str, &str)], hooks: Option<HooksDef>) -> EnvDef {
    let mut variables = StrMap::new();
    for (k, v) in vars {
        variables.insert(k.to_string(), v.to_string());
    }
    EnvDef { description: None, variables, hooks }
}

#[test]
fn normalize_moves_ungrouped_environments_into_default() {
    let mut cfg = ConfigFile::new();
    cfg.environments.insert("dev".to_string(), env(&[("K", "1")], None));
    let cfg = normalize_config(cfg);
    assert_eq!(cfg.environments.size(), 0);
    let groups = list_groups(&cfg);
    assert_eq!(groups.len(), 1);
    assert_eq!(groups[0].name, "default");
    assert_eq!(groups[0].description, Some("Default group".to_string()));
    let vars = get_environment_variables(&cfg, "default".to_string(), "dev".to_string()).expect("vars");
    assert_eq!(vars.get(&"K".to_string()), Some(&"1".to_string()));
}

#[test]
fn normalize_keeps_existing_default_group() {
    let mut cfg = ConfigFile::new();
    let mut environments = StrMap::new();
    environments.insert("dev".to_string(), env(&[("K", "old")], None));
    environments.insert("sit".to_string(), env(&[("S", "1")], None));
    cfg.groups.insert("default".to_string(), GroupDef { description: Some("mine".to_string()), environments });
    cfg.environments.insert("dev".to_string(), env(&[("K", "new")], None));
    let cfg = normalize_config(cfg);
    let groups = list_groups(&cfg);
    assert_eq!(groups[0].description, Some("mine".to_string()));
    assert_eq!(groups[0].env_count, 2);
    let vars = get_environment_variables(&cfg, "default".to_string(), "dev".to_string()).expect("vars");
    assert_eq!(vars.get(&"K".to_string()), Some(&"new".to_string()));
}

#[test]
fn normalize_without_ungrouped_environments_changes_nothing() {
    let mut cfg = ConfigFile::new();
    cfg.groups.insert("g".to_string(), GroupDef { description: None, environments: StrMap::new() });
    let cfg = normalize_config(cfg);
    assert_eq!(list_groups(&cfg).len(), 1);
    assert_eq!(list_groups(&cfg)[0].name, "g");
}

#[test]
fn rows_list_groups_environments_and_variables() {
    let mut cfg = ConfigFile::new();
    let mut environments = StrMap::new();
    environments.insert(
        "dev".to_string(),
        env(&[("A", "1"), ("B", "2")], Some(HooksDef { post: Some(vec!["echo hi".to_string(), "say \"x\"".to_string()]) })),
    );
    cfg.groups.insert("g".to_string(), GroupDef { description: Some("d".to_string()), environments });
    let rows = config_to_rows(&cfg).expect("rows");
    assert_eq!(rows.len(), 4);
    assert!(matches!(&rows[0], DbRow::Group { name, description } if name == "g" && description.as_deref() == Some("d")));
    match &rows[1] {
        DbRow::Environment { group_name, name, hooks_post_json, .. } => {
            assert_eq!(group_name, "g");
            assert_eq!(name, "dev");
            assert_eq!(hooks_post_json.as_deref(), Some("[\"echo hi\",\"say \\\"x\\\"\"]"));
        }
        _ => panic!("environment row expected"),
    }
    assert!(matches!(&rows[3], DbRow::Variable { key, value, .. } if key == "B" && value == "2"));
}

#[test]
fn rows_read_back_hooks_and_skip_invalid_hooks() {
    let groups = vec![("g".to_string(), None)];
    let envs = vec![
        EnvRecord {
            group_name: "g".to_string(),
            name: "dev".to_string(),
            description: Some("development".to_string()),
            hooks_post_json: Some("[\"echo hi\"]".to_string()),
            variables: vec![("A".to_string(), "1".to_string())],
        },
        EnvRecord {
            group_name: "g".to_string(),
            name: "bad".to_string(),
            description: None,
            hooks_post_json: Some("not json".to_string()),
            variables: vec![],
        },
        EnvRecord {
            group_name: "orphan".to_string(),
            name: "x".to_string(),
            description: None,
            hooks_post_json: None,
            variables: vec![("Z".to_string(), "9".to_string())],
        },
    ];
    let cfg = config_from_rows(groups, envs);
    let g = cfg.groups.get(&"g".to_string()).unwrap();
    assert!(g.description.is_none());
    let dev = g.environments.get(&"dev".to_string()).unwrap();
    assert_eq!(dev.description, Some("development".to_string()));
    assert_eq!(dev.hooks.as_ref().and_then(|h| h.post.clone()), Some(vec!["echo hi".to_string()]));
    assert!(g.environments.get(&"bad".to_string()).unwrap().hooks.is_none());
    let orphan = cfg.groups.get(&"orphan".to_string()).unwrap();
    assert_eq!(orphan.description, Some("orphan group".to_string()));
    assert_eq!(
        get_environment_variables(&cfg, "orphan".to_string(), "x".to_string()).unwrap().get(&"Z".to_string()),
        Some(&"9".to_string())
    );
}
