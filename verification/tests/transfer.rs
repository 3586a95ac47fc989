use clicky::listing::{get_environment_variables, list_groups};
use clicky::merge::{merge_import, ImportConflictStrategy, ImportTargetMode};
use clicky::model::{ConfigFile, EnvDef, GroupDef};
use clicky::strmap::StrMap;
use clicky::transfer::{
    config_counts, export_config_flow, export_subset, import_config_flow, import_size_fits, preview_import_config_flow,
    ExportRequest, ImportRequest,
};

fn config_with(groups: &[(&str, &[(&str, &[(&str, &str)])])]) -> ConfigFile {
    let mut cfg = ConfigFile::new();
    for (g, envs) in groups {
        let mut environments = StrMap::new();
        for (e, vars) in envs.iter() {
            let mut variables = StrMap::new();
            for (k, v) in vars.iter() {
                variables.insert(k.to_string(), v.to_string());
            }
            environments.insert(e.to_string(), EnvDef { description: None, variables, hooks: None });
        }
        cfg.groups.insert(g.to_string(), GroupDef { description: Some(format!("{} desc", g)), environments });
    }
    cfg
}

fn value(cfg: &ConfigFile, g: &str, e: &str, k: &str) -> Option<String> {
    get_environment_variables(cfg, g.to_string(), e.to_string()).ok()?.get(&k.to_string()).cloned()
}

fn request(mode: ImportTargetMode, target: Option<&str>, strategy: ImportConflictStrategy) -> ImportRequest {
    ImportRequest {
        input_path: "in.yaml".to_string(),
        target_mode: mode,
        target_group: target.map(|t| t.to_string()),
        conflict_strategy: strategy,
        dry_run: false,
    }
}

#[test]
fn counts_of_a_configuration() {
    let cfg = config_with(&[("a", &[("dev", &[("K", "1"), ("L", "2")]), ("sit", &[("M", "3")])]), ("b", &[])]);
    assert_eq!(config_counts(&cfg), (2, 2, 3));
    assert!(import_size_fits(&cfg));
}

#[test]
fn export_all_groups_when_none_named() {
    let cfg = config_with(&[("a", &[("dev", &[("K", "1")])]), ("b", &[])]);
    let (sub, res) =
        export_config_flow(&cfg, &ExportRequest { output_path: "out.yaml".to_string(), group_names: vec![] }).expect("export");
    assert_eq!(res.output_path, "out.yaml");
    assert_eq!((res.groups, res.environments, res.variables), (2, 1, 1));
    assert_eq!(list_groups(&sub).len(), 2);
}

#[test]
fn export_names_the_first_missing_group() {
    let cfg = config_with(&[("a", &[])]);
    let r = export_subset(&cfg, &vec!["a".to_string(), "x".to_string(), "y".to_string()]);
    assert_eq!(r.err(), Some("group 'x' not found".to_string()));
    let sub = export_subset(&cfg, &vec!["a".to_string()]).expect("subset");
    assert_eq!(list_groups(&sub).len(), 1);
}

#[test]
fn import_skips_existing_values_by_default() {
    let mut base = config_with(&[("a", &[("dev", &[("K", "old")])])]);
    let imported = config_with(&[("a", &[("dev", &[("K", "new"), ("L", "1")]), ("sit", &[("K", "s")])])]);
    let s = import_config_flow(&mut base, &imported, &request(ImportTargetMode::KeepGroups, None, ImportConflictStrategy::SkipExisting))
        .expect("import");
    assert_eq!((s.groups_added, s.groups_skipped), (0, 1));
    assert_eq!((s.envs_added, s.envs_skipped), (1, 1));
    assert_eq!((s.vars_added, s.vars_overwritten, s.vars_skipped), (2, 0, 1));
    assert_eq!(value(&base, "a", "dev", "K"), Some("old".to_string()));
    assert_eq!(value(&base, "a", "dev", "L"), Some("1".to_string()));
    assert_eq!(value(&base, "a", "sit", "K"), Some("s".to_string()));
}

#[test]
fn import_overwrites_when_asked() {
    let mut base = config_with(&[("a", &[("dev", &[("K", "old")])])]);
    let imported = config_with(&[("a", &[("dev", &[("K", "new")])])]);
    let s = import_config_flow(
        &mut base,
        &imported,
        &request(ImportTargetMode::KeepGroups, None, ImportConflictStrategy::OverwriteExisting),
    )
    .expect("import");
    assert_eq!(s.vars_overwritten, 1);
    assert_eq!(value(&base, "a", "dev", "K"), Some("new".to_string()));
}

#[test]
fn import_skips_a_name_owned_by_another_group() {
    let mut base = config_with(&[("a", &[("dev", &[("K", "1")])]), ("b", &[("dev", &[("X", "1")])])]);
    let imported = config_with(&[("b", &[("dev", &[("K", "2")])])]);
    let s = import_config_flow(&mut base, &imported, &request(ImportTargetMode::KeepGroups, None, ImportConflictStrategy::OnlyAddNew))
        .expect("import");
    assert_eq!(s.vars_skipped, 1);
    assert_eq!(value(&base, "b", "dev", "K"), None);
}

#[test]
fn import_into_one_group() {
    let mut base = ConfigFile::new();
    let imported = config_with(&[("x", &[("dev", &[("K", "1")])]), ("y", &[("sit", &[("L", "2")])])]);
    let s = import_config_flow(
        &mut base,
        &imported,
        &request(ImportTargetMode::IntoGroup, Some("  team "), ImportConflictStrategy::SkipExisting),
    )
    .expect("import");
    assert_eq!((s.groups_added, s.envs_added, s.vars_added), (1, 2, 2));
    let groups = list_groups(&base);
    assert_eq!(groups.len(), 1);
    assert_eq!(groups[0].name, "team");
    assert_eq!(groups[0].description, Some("team group".to_string()));
    assert_eq!(value(&base, "team", "sit", "L"), Some("2".to_string()));
}

#[test]
fn import_into_group_needs_a_target() {
    let mut base = config_with(&[("a", &[])]);
    let imported = config_with(&[("x", &[("dev", &[("K", "1")])])]);
    let r = import_config_flow(&mut base, &imported, &request(ImportTargetMode::IntoGroup, Some("   "), ImportConflictStrategy::SkipExisting));
    assert_eq!(r.err(), Some("target_group is required for into_group mode".to_string()));
    let r = merge_import(&mut base, &imported, ImportTargetMode::IntoGroup, None, ImportConflictStrategy::SkipExisting);
    assert_eq!(r.err(), Some("target_group is required for into_group mode".to_string()));
    assert_eq!(list_groups(&base).len(), 1);
}

#[test]
fn import_reports_a_reused_name() {
    let mut base = config_with(&[("a", &[("dev", &[("K", "1")])])]);
    let imported = config_with(&[("b", &[("dev", &[("K", "2")])])]);
    let r = import_config_flow(&mut base, &imported, &request(ImportTargetMode::KeepGroups, None, ImportConflictStrategy::SkipExisting));
    let msg = r.err().expect("conflict");
    assert!(msg.starts_with("variable 'K' is already used in group '"));
}

#[test]
fn preview_leaves_the_base_alone() {
    let base = ConfigFile::new();
    let imported = config_with(&[("a", &[("dev", &[("K", "1")])])]);
    let mut req = request(ImportTargetMode::KeepGroups, None, ImportConflictStrategy::SkipExisting);
    req.dry_run = true;
    let s = preview_import_config_flow(&base, &imported, &req).expect("preview");
    assert_eq!((s.groups_added, s.envs_added, s.vars_added), (1, 1, 1));
    assert_eq!(list_groups(&base).len(), 0);
}

#[test]
fn skip_existing_and_only_add_new_agree() {
    let imported = config_with(&[("a", &[("dev", &[("K", "new"), ("L", "1")])])]);
    let mut b1 = config_with(&[("a", &[("dev", &[("K", "old")])])]);
    let mut b2 = config_with(&[("a", &[("dev", &[("K", "old")])])]);
    let s1 = import_config_flow(&mut b1, &imported, &request(ImportTargetMode::KeepGroups, None, ImportConflictStrategy::SkipExisting)).expect("skip");
    let s2 = import_config_flow(&mut b2, &imported, &request(ImportTargetMode::KeepGroups, None, ImportConflictStrategy::OnlyAddNew)).expect("only new");
    assert_eq!((s1.vars_added, s1.vars_skipped), (s2.vars_added, s2.vars_skipped));
    assert_eq!(value(&b1, "a", "dev", "K"), value(&b2, "a", "dev", "K"));
    assert_eq!(value(&b1, "a", "dev", "L"), value(&b2, "a", "dev", "L"));
}
