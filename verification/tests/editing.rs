use clicky::editing::{create_group, delete_environment, delete_group, rename_environment, rename_group};
use clicky::listing::{get_environment_variables, list_environments, list_groups};
use clicky::model::{ConfigFile, EnvDef, GroupDef};
use clicky::strmap::StrMap;

fn config_with(groups: &[(&str, &[(&str, &[(&str, &str)])])]) -> ConfigFile {
    let mut cfg = ConfigFile::new();
    for (g, envs) in groups {
        let mut environments = StrMap::new();
        for (e, vars) in envs.iter() {
            let mut variables = StrMap::new();
            for (k, v) in vars.iter() {
                variables.insert(k.to_string(), v.to_string());
            }
            environments.insert(e.to_string(), EnvDef { description: Some(format!("{} env", e)), variables, hooks: None });
        }
        cfg.groups.insert(g.to_string(), GroupDef { description: Some(format!("{} desc", g)), environments });
    }
    cfg
}

fn group_names(cfg: &ConfigFile) -> Vec<String> {
    list_groups(cfg).into_iter().map(|g| g.name).collect()
}

#[test]
fn create_group_trims_and_describes() {
    let mut cfg = ConfigFile::new();
    create_group(&mut cfg, "  team  ".to_string()).expect("create");
    let groups = list_groups(&cfg);
    assert_eq!(groups.len(), 1);
    assert_eq!(groups[0].name, "team");
    assert_eq!(groups[0].description, Some("team group".to_string()));
    assert_eq!(groups[0].env_count, 0);
}

#[test]
fn create_group_errors() {
    let mut cfg = config_with(&[("team", &[])]);
    assert_eq!(create_group(&mut cfg, "   ".to_string()), Err("group name is required".to_string()));
    assert_eq!(create_group(&mut cfg, " team".to_string()), Err("group 'team' already exists".to_string()));
    assert_eq!(group_names(&cfg), vec!["team".to_string()]);
}

#[test]
fn create_then_delete_restores_groups() {
    let mut cfg = config_with(&[("a", &[("dev", &[("K", "1")])])]);
    create_group(&mut cfg, "b".to_string()).expect("create");
    assert_eq!(group_names(&cfg), vec!["a".to_string(), "b".to_string()]);
    delete_group(&mut cfg, "b".to_string()).expect("delete");
    assert_eq!(group_names(&cfg), vec!["a".to_string()]);
}

#[test]
fn rename_group_moves_environments_and_back() {
    let mut cfg = config_with(&[("a", &[("dev", &[("K", "1")])]), ("c", &[])]);
    rename_group(&mut cfg, " a ".to_string(), "b".to_string()).expect("rename");
    assert_eq!(group_names(&cfg), vec!["b".to_string(), "c".to_string()]);
    let vars = get_environment_variables(&cfg, "b".to_string(), "dev".to_string()).expect("vars");
    assert_eq!(vars.get(&"K".to_string()), Some(&"1".to_string()));
    rename_group(&mut cfg, "b".to_string(), "a".to_string()).expect("rename back");
    assert_eq!(group_names(&cfg), vec!["a".to_string(), "c".to_string()]);
}

#[test]
fn rename_group_errors() {
    let mut cfg = config_with(&[("a", &[]), ("c", &[])]);
    assert_eq!(rename_group(&mut cfg, "".to_string(), "b".to_string()), Err("group name is required".to_string()));
    assert_eq!(rename_group(&mut cfg, "x".to_string(), "b".to_string()), Err("group 'x' not found".to_string()));
    assert_eq!(rename_group(&mut cfg, "a".to_string(), " c ".to_string()), Err("group 'c' already exists".to_string()));
    assert_eq!(rename_group(&mut cfg, "a".to_string(), " a".to_string()), Ok(()));
    assert_eq!(group_names(&cfg), vec!["a".to_string(), "c".to_string()]);
}

#[test]
fn delete_group_errors() {
    let mut cfg = config_with(&[("a", &[])]);
    assert_eq!(delete_group(&mut cfg, " ".to_string()), Err("group name is required".to_string()));
    assert_eq!(delete_group(&mut cfg, "b".to_string()), Err("group 'b' not found".to_string()));
}

#[test]
fn rename_environment_and_back() {
    let mut cfg = config_with(&[("g", &[("dev", &[("K", "1")]), ("sit", &[])])]);
    rename_environment(&mut cfg, "g".to_string(), "dev".to_string(), " uat ".to_string()).expect("rename");
    let names: Vec<String> = list_environments(&cfg, "g".to_string()).expect("list").into_iter().map(|e| e.name).collect();
    assert_eq!(names, vec!["sit".to_string(), "uat".to_string()]);
    let vars = get_environment_variables(&cfg, "g".to_string(), "uat".to_string()).expect("vars");
    assert_eq!(vars.get(&"K".to_string()), Some(&"1".to_string()));
    rename_environment(&mut cfg, "g".to_string(), "uat".to_string(), "dev".to_string()).expect("rename back");
    let names: Vec<String> = list_environments(&cfg, "g".to_string()).expect("list").into_iter().map(|e| e.name).collect();
    assert_eq!(names, vec!["dev".to_string(), "sit".to_string()]);
}

#[test]
fn rename_environment_errors() {
    let mut cfg = config_with(&[("g", &[("dev", &[]), ("sit", &[])])]);
    assert_eq!(
        rename_environment(&mut cfg, "x".to_string(), "dev".to_string(), "uat".to_string()),
        Err("group 'x' not found".to_string())
    );
    assert_eq!(
        rename_environment(&mut cfg, "g".to_string(), " ".to_string(), "uat".to_string()),
        Err("environment name is required".to_string())
    );
    assert_eq!(
        rename_environment(&mut cfg, " g ".to_string(), "qa".to_string(), "uat".to_string()),
        Err("environment 'qa' not found in group ' g '".to_string())
    );
    assert_eq!(
        rename_environment(&mut cfg, "g".to_string(), "dev".to_string(), "sit".to_string()),
        Err("environment 'sit' already exists in group 'g'".to_string())
    );
}

#[test]
fn delete_environment_and_errors() {
    let mut cfg = config_with(&[("g", &[("dev", &[]), ("sit", &[])])]);
    assert_eq!(
        delete_environment(&mut cfg, "g".to_string(), "qa".to_string()),
        Err("environment 'qa' not found in group 'g'".to_string())
    );
    assert_eq!(delete_environment(&mut cfg, "g".to_string(), "".to_string()), Err("environment name is required".to_string()));
    assert_eq!(delete_environment(&mut cfg, "h".to_string(), "dev".to_string()), Err("group 'h' not found".to_string()));
    delete_environment(&mut cfg, "g".to_string(), " dev ".to_string()).expect("delete");
    let names: Vec<String> = list_environments(&cfg, "g".to_string()).expect("list").into_iter().map(|e| e.name).collect();
    assert_eq!(names, vec!["sit".to_string()]);
}

#[test]
fn listing_sorts_and_counts() {
    let cfg = config_with(&[("zeta", &[("b", &[("K", "1"), ("L", "2")]), ("a", &[])]), ("alpha", &[])]);
    let groups = list_groups(&cfg);
    assert_eq!(groups.iter().map(|g| g.name.clone()).collect::<Vec<_>>(), vec!["alpha".to_string(), "zeta".to_string()]);
    assert_eq!(groups[1].env_count, 2);
    let envs = list_environments(&cfg, "zeta".to_string()).expect("list");
    assert_eq!(envs[0].name, "a");
    assert_eq!(envs[1].name, "b");
    assert_eq!(envs[1].var_count, 2);
    assert_eq!(envs[1].group, "zeta");
    assert_eq!(envs[1].description, Some("b env".to_string()));
    assert_eq!(list_environments(&cfg, "none".to_string()).err(), Some("group 'none' not found".to_string()));
    assert_eq!(
        get_environment_variables(&cfg, "zeta".to_string(), "c".to_string()).err(),
        Some("environment 'c' not found in group 'zeta'".to_string())
    );
}
