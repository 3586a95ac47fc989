use clicky::checks::validate_group_variable_uniqueness;
use clicky::listing::{get_environment_variables, list_environments, list_groups};
use clicky::model::{ConfigFile, EnvDef, GroupDef};
use clicky::strmap::StrMap;
use clicky::variables::{collect_group_keys, normalize_group_variable_keys, save_environment_variables};

fn vars(pairs: &[(&str, &str)]) -> StrMap<String> {
    let mut m = StrMap::new();
    for (k, v) in pairs {
        m.insert(k.to_string(), v.to_string());
    }
    m
}

fn value(cfg: &ConfigFile, g: &str, e: &str, k: &str) -> Option<String> {
    get_environment_variables(cfg, g.to_string(), e.to_string()).ok()?.get(&k.to_string()).cloned()
}

#[test]
fn save_creates_group_and_environment() {
    let mut cfg = ConfigFile::new();
    save_environment_variables(&mut cfg, "team".to_string(), "dev".to_string(), vars(&[("A", "1")])).expect("save");
    let groups = list_groups(&cfg);
    assert_eq!(groups[0].name, "team");
    assert_eq!(groups[0].description, Some("team group".to_string()));
    let envs = list_environments(&cfg, "team".to_string()).expect("list");
    assert_eq!(envs[0].description, Some("dev environment".to_string()));
    assert_eq!(value(&cfg, "team", "dev", "A"), Some("1".to_string()));
    let env = cfg.groups.get(&"team".to_string()).unwrap().environments.get(&"dev".to_string()).unwrap();
    assert!(matches!(&env.hooks, Some(h) if h.post.is_none()));
}

#[test]
fn save_pads_names_across_the_group() {
    let mut cfg = ConfigFile::new();
    save_environment_variables(&mut cfg, "g".to_string(), "dev".to_string(), vars(&[("A", "1")])).expect("save dev");
    save_environment_variables(&mut cfg, "g".to_string(), "sit".to_string(), vars(&[("B", "2")])).expect("save sit");
    assert_eq!(value(&cfg, "g", "dev", "A"), Some("1".to_string()));
    assert_eq!(value(&cfg, "g", "dev", "B"), Some("".to_string()));
    assert_eq!(value(&cfg, "g", "sit", "A"), Some("".to_string()));
    assert_eq!(value(&cfg, "g", "sit", "B"), Some("2".to_string()));
}

#[test]
fn save_keeps_description_and_hooks_of_existing_environment() {
    let mut cfg = ConfigFile::new();
    let mut environments = StrMap::new();
    environments.insert(
        "dev".to_string(),
        EnvDef { description: Some("mine".to_string()), variables: vars(&[("OLD", "x")]), hooks: None },
    );
    cfg.groups.insert("g".to_string(), GroupDef { description: None, environments });
    save_environment_variables(&mut cfg, "g".to_string(), "dev".to_string(), vars(&[("NEW", "y")])).expect("save");
    let env = cfg.groups.get(&"g".to_string()).unwrap().environments.get(&"dev".to_string()).unwrap();
    assert_eq!(env.description, Some("mine".to_string()));
    assert!(env.hooks.is_none());
    assert_eq!(value(&cfg, "g", "dev", "NEW"), Some("y".to_string()));
    assert_eq!(value(&cfg, "g", "dev", "OLD"), None);
}

#[test]
fn save_reports_a_name_used_by_another_group() {
    let mut cfg = ConfigFile::new();
    save_environment_variables(&mut cfg, "a".to_string(), "dev".to_string(), vars(&[("K", "1")])).expect("save a");
    let r = save_environment_variables(&mut cfg, "b".to_string(), "dev".to_string(), vars(&[("K", "2")]));
    let msg = r.expect_err("conflict");
    assert!(msg == "variable 'K' is already used in group 'a', cannot reuse in group 'b'"
        || msg == "variable 'K' is already used in group 'b', cannot reuse in group 'a'");
    assert_eq!(value(&cfg, "b", "dev", "K"), Some("2".to_string()));
}

#[test]
fn validate_accepts_shared_names_within_one_group() {
    let mut cfg = ConfigFile::new();
    save_environment_variables(&mut cfg, "a".to_string(), "dev".to_string(), vars(&[("K", "1")])).expect("dev");
    save_environment_variables(&mut cfg, "a".to_string(), "sit".to_string(), vars(&[("K", "2")])).expect("sit");
    assert_eq!(validate_group_variable_uniqueness(&cfg), Ok(()));
}

#[test]
fn normalize_and_collect_keys() {
    let mut environments = StrMap::new();
    environments.insert("dev".to_string(), EnvDef { description: None, variables: vars(&[("A", "1")]), hooks: None });
    environments.insert("sit".to_string(), EnvDef { description: None, variables: vars(&[("B", "2"), ("A", "3")]), hooks: None });
    let mut g = GroupDef { description: None, environments };
    let mut keys = collect_group_keys(&g);
    keys.sort();
    assert_eq!(keys, vec!["A".to_string(), "B".to_string()]);
    normalize_group_variable_keys(&mut g);
    let dev = g.environments.get(&"dev".to_string()).unwrap();
    assert_eq!(dev.variables.get(&"B".to_string()), Some(&"".to_string()));
    assert_eq!(dev.variables.get(&"A".to_string()), Some(&"1".to_string()));
    let sit = g.environments.get(&"sit".to_string()).unwrap();
    assert_eq!(sit.variables.size(), 2);
}

#[test]
fn lite_save_does_not_pad_other_environments() {
    let mut cfg = ConfigFile::new();
    clicky::lite::save_environment_variables(&mut cfg, "g".to_string(), "dev".to_string(), vars(&[("A", "1")])).expect("dev");
    clicky::lite::save_environment_variables(&mut cfg, "g".to_string(), "sit".to_string(), vars(&[("B", "2")])).expect("sit");
    assert_eq!(value(&cfg, "g", "dev", "B"), None);
    assert_eq!(value(&cfg, "g", "sit", "A"), None);
    assert_eq!(value(&cfg, "g", "sit", "B"), Some("2".to_string()));
    let r = clicky::lite::save_environment_variables(&mut cfg, "h".to_string(), "dev".to_string(), vars(&[("A", "3")]));
    assert!(r.is_err());
}
