use chrono::Datelike;
use clicky::apply::{
    apply_environment_flow, finish_apply, hook_commands, hook_result, variable_apply_result, HookOutcome,
};
use clicky::listing::{detect_active_environments, get_environment_variables, list_environments, list_groups};
use clicky::logs::cleanup_targets;
use clicky::merge::{ImportConflictStrategy, ImportTargetMode};
use clicky::model::{ConfigFile, EnvDef, GroupDef, HooksDef};
use clicky::platform::{get_runtime_capabilities, Platform};
use clicky::storage::{config_from_rows, config_to_rows, DbRow, EnvRecord};
use clicky::strmap::StrMap;
use clicky::transfer::{export_config_flow, import_config_flow, preview_import_config_flow, ExportRequest, ImportRequest};

fn sample_config() -> ConfigFile {
    let mut variables = StrMap::new();
    variables.insert("CLICKY_TEST_API_URL".to_string(), "https://dev.example".to_string());
    variables.insert("CLICKY_TEST_TOKEN".to_string(), "token-123".to_string());
    let mut environments = StrMap::new();
    environments.insert(
        "dev".to_string(),
        EnvDef {
            description: Some("development".to_string()),
            variables,
            hooks: Some(HooksDef { post: Some(vec!["echo Clicky hook".to_string()]) }),
        },
    );
    let mut groups = StrMap::new();
    groups.insert(
        "default".to_string(),
        GroupDef { description: Some("default group".to_string()), environments },
    );
    ConfigFile { groups, environments: StrMap::new() }
}

/// Stores a configuration the way the database does and reads it back.
fn store_and_load(cfg: &ConfigFile) -> ConfigFile {
    let rows = config_to_rows(cfg).expect("save config");
    let mut groups: Vec<(String, Option<String>)> = Vec::new();
    let mut envs: Vec<EnvRecord> = Vec::new();
    for row in rows {
        match row {
            DbRow::Group { name, description } => groups.push((name, description)),
            DbRow::Environment { group_name, name, description, hooks_post_json } => envs.push(EnvRecord {
                group_name,
                name,
                description,
                hooks_post_json,
                variables: Vec::new(),
            }),
            DbRow::Variable { group_name, env_name, key, value } => {
                let rec = envs
                    .iter_mut()
                    .find(|r| r.group_name == group_name && r.name == env_name)
                    .expect("environment row before its variables");
                rec.variables.push((key, value));
            }
        }
    }
    config_from_rows(groups, envs)
}

#[test]
fn acceptance_export_import_roundtrip() {
    let config = store_and_load(&sample_config());

    let (exported, export_result) = export_config_flow(
        &config,
        &ExportRequest { output_path: "export-file.yaml".to_string(), group_names: vec!["default".to_string()] },
    )
    .expect("export config");
    assert_eq!(export_result.groups, 1);
    assert_eq!(export_result.environments, 1);
    assert_eq!(export_result.variables, 2);

    assert!(exported.groups.contains_key(&"default".to_string()));
    let vars = get_environment_variables(&exported, "default".to_string(), "dev".to_string()).expect("read exported");
    assert!(vars.contains_key(&"CLICKY_TEST_API_URL".to_string()));

    let mut base = store_and_load(&ConfigFile::new());

    let preview = preview_import_config_flow(
        &base,
        &exported,
        &ImportRequest {
            input_path: "export-file.yaml".to_string(),
            target_mode: ImportTargetMode::KeepGroups,
            target_group: None,
            conflict_strategy: ImportConflictStrategy::SkipExisting,
            dry_run: true,
        },
    )
    .expect("preview import");
    assert_eq!(preview.groups_added, 1);
    assert_eq!(preview.envs_added, 1);
    assert_eq!(preview.vars_added, 2);

    let imported = import_config_flow(
        &mut base,
        &exported,
        &ImportRequest {
            input_path: "export-file.yaml".to_string(),
            target_mode: ImportTargetMode::KeepGroups,
            target_group: None,
            conflict_strategy: ImportConflictStrategy::SkipExisting,
            dry_run: false,
        },
    )
    .expect("import config");
    assert_eq!(imported.groups_added, 1);
    assert_eq!(imported.envs_added, 1);
    assert_eq!(imported.vars_added, 2);

    let stored = store_and_load(&base);
    let groups = list_groups(&stored);
    assert_eq!(groups.len(), 1);
    let envs = list_environments(&stored, "default".to_string()).expect("list envs");
    assert_eq!(envs.len(), 1);
    let vars = get_environment_variables(&stored, "default".to_string(), "dev".to_string()).expect("get vars");
    assert_eq!(vars.get(&"CLICKY_TEST_API_URL".to_string()), Some(&"https://dev.example".to_string()));
    assert_eq!(vars.get(&"CLICKY_TEST_TOKEN".to_string()), Some(&"token-123".to_string()));
}

#[test]
fn acceptance_hooks_run_and_report() {
    let config = store_and_load(&sample_config());
    let plan = apply_environment_flow(&config, &"default".to_string(), &"dev".to_string(), &"persistent".to_string())
        .expect("apply config");

    let mut variable_results = Vec::new();
    for (k, v) in plan.entries {
        variable_results.push(variable_apply_result(k, v, None, Ok(())));
    }
    let mut hook_results = Vec::new();
    for cmd in hook_commands(&plan.hooks) {
        assert_eq!(cmd, "echo Clicky hook");
        hook_results.push(hook_result(
            cmd,
            HookOutcome::Finished { success: true, code: Some(0), stdout: b"Clicky hook\n".to_vec(), stderr: Vec::new() },
        ));
    }
    let result = finish_apply(
        "default".to_string(),
        "dev".to_string(),
        "persistent".to_string(),
        variable_results,
        hook_results,
    );

    assert_eq!(result.summary.total, 2);
    assert_eq!(result.summary.success, 2);
    assert_eq!(result.summary.failed, 0);
    assert_eq!(result.hook_results.len(), 1);
    assert!(result.hook_results[0].success);
    assert!(result.hook_results[0].message.contains("Clicky hook"));
}

#[test]
fn acceptance_windows_apply_and_detect() {
    let key = "CLICKY_TEST_ENV_1_A".to_string();
    let value = "value-windows-key".to_string();
    let mut variables = StrMap::new();
    variables.insert(key.clone(), value.clone());
    let mut environments = StrMap::new();
    environments.insert(
        "sit".to_string(),
        EnvDef { description: Some("system integration test".to_string()), variables, hooks: None },
    );
    let mut groups = StrMap::new();
    groups.insert("default".to_string(), GroupDef { description: Some("default group".to_string()), environments });
    let cfg = store_and_load(&ConfigFile { groups, environments: StrMap::new() });

    let mut current: StrMap<String> = StrMap::new();
    let before = detect_active_environments(&cfg, "default".to_string(), &current).expect("detect before apply");
    assert!(before.is_empty());

    let plan = apply_environment_flow(&cfg, &"default".to_string(), &"sit".to_string(), &"persistent".to_string())
        .expect("apply config");
    let mut results = Vec::new();
    for (k, v) in plan.entries {
        current.insert(k.clone(), v.clone());
        results.push(variable_apply_result(k, v, None, Ok(())));
    }
    let result = finish_apply("default".to_string(), "sit".to_string(), "persistent".to_string(), results, Vec::new());
    assert_eq!(result.summary.total, 1);
    assert_eq!(result.summary.success, 1);

    let active = detect_active_environments(&cfg, "default".to_string(), &current).expect("detect after apply");
    assert_eq!(active, vec!["sit".to_string()]);

    let capabilities = get_runtime_capabilities(Platform::Windows, None);
    assert_eq!(capabilities.platform, "windows");
    assert!(capabilities.apply_scope_hint.contains("新开进程"));
}

#[test]
fn cleanup_old_logs_removes_expired_files() {
    let retention: i64 = 30;
    let today = chrono::Local::now().date_naive();
    let old_date = today.checked_sub_signed(chrono::Duration::days(retention + 1)).expect("old date");
    let recent_date = today.checked_sub_signed(chrono::Duration::days(1)).expect("recent date");
    let old_file = format!("{}-info.log", old_date.format("%Y-%m-%d"));
    let recent_file = format!("{}-warn.log", recent_date.format("%Y-%m-%d"));

    let removed = cleanup_targets(&vec![old_file.clone(), recent_file.clone()], today.num_days_from_ce(), retention)
        .expect("cleanup logs");

    assert!(removed.contains(&old_file));
    assert!(!removed.contains(&recent_file));
}

#[test]
fn acceptance_idea_env_snapshot_written_and_updated() {
    let mut dev_vars = StrMap::new();
    dev_vars.insert("CLICKY_TEST_API_URL".to_string(), "https://dev.example".to_string());
    dev_vars.insert("CLICKY_TEST_TOKEN".to_string(), "token-123".to_string());
    let mut sit_vars = StrMap::new();
    sit_vars.insert("CLICKY_TEST_API_URL".to_string(), "https://sit.example".to_string());
    sit_vars.insert("CLICKY_TEST_TOKEN".to_string(), "token-456".to_string());
    let mut environments = StrMap::new();
    environments.insert(
        "dev".to_string(),
        EnvDef { description: Some("development".to_string()), variables: dev_vars, hooks: None },
    );
    environments.insert(
        "sit".to_string(),
        EnvDef { description: Some("system integration test".to_string()), variables: sit_vars, hooks: None },
    );
    let mut groups = StrMap::new();
    groups.insert("default".to_string(), GroupDef { description: Some("default group".to_string()), environments });
    let cfg = store_and_load(&ConfigFile { groups, environments: StrMap::new() });

    let apply = |env: &str| {
        let plan = apply_environment_flow(&cfg, &"default".to_string(), &env.to_string(), &"persistent".to_string())
            .expect("apply");
        let n = plan.entries.len();
        let file = clicky::idea::render_idea_env(&plan.entries);
        let result = clicky::apply::apply_report(
            "default".to_string(),
            env.to_string(),
            "persistent".to_string(),
            &plan,
            vec![None; n],
            vec![Ok(()); n],
            Vec::new(),
        );
        (result, file)
    };

    let (result, first) = apply("dev");
    assert_eq!(result.summary.success, 2);
    assert!(first.contains("CLICKY_TEST_API_URL=https://dev.example"));
    assert!(first.contains("CLICKY_TEST_TOKEN=token-123"));

    let (result, second) = apply("sit");
    assert_eq!(result.summary.success, 2);
    assert!(second.contains("CLICKY_TEST_API_URL=https://sit.example"));
    assert!(second.contains("CLICKY_TEST_TOKEN=token-456"));
    assert!(!second.contains("https://dev.example"));
}
