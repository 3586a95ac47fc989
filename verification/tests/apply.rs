use clicky::apply::{
    apply_environment_flow, build_apply_summary, finish_apply, hook_commands, hook_result, variable_apply_result,
    HookOutcome,
};
use clicky::model::{ConfigFile, EnvDef, GroupDef, HooksDef};
use clicky::strmap::StrMap;

fn config() -> ConfigFile {
    let mut variables = StrMap::new();
    variables.insert("B".to_string(), "2".to_string());
    variables.insert("A".to_string(), "1".to_string());
    let mut environments = StrMap::new();
    environments.insert(
        "dev".to_string(),
        EnvDef { description: None, variables, hooks: Some(HooksDef { post: Some(vec!["one".to_string(), "two".to_string()]) }) },
    );
    let mut cfg = ConfigFile::new();
    cfg.groups.insert("g".to_string(), GroupDef { description: None, environments });
    cfg
}

#[test]
fn plan_lists_variables_by_name_and_the_hooks() {
    let plan = apply_environment_flow(&config(), &"g".to_string(), &"dev".to_string(), &"persistent".to_string()).expect("plan");
    assert_eq!(plan.entries, vec![("A".to_string(), "1".to_string()), ("B".to_string(), "2".to_string())]);
    assert_eq!(hook_commands(&plan.hooks), vec!["one".to_string(), "two".to_string()]);
    assert!(hook_commands(&None).is_empty());
    assert!(hook_commands(&Some(HooksDef { post: None })).is_empty());
}

#[test]
fn plan_errors() {
    let cfg = config();
    let p = |g: &str, e: &str, m: &str| {
        apply_environment_flow(&cfg, &g.to_string(), &e.to_string(), &m.to_string()).err()
    };
    assert_eq!(p("x", "dev", "persistent"), Some("group 'x' not found".to_string()));
    assert_eq!(p("g", "qa", "persistent"), Some("environment 'qa' not found in group 'g'".to_string()));
    assert_eq!(
        p("g", "dev", "session"),
        Some("Clicky only supports persistent mode; reopen target processes after applying".to_string())
    );
}

#[test]
fn summary_counts_applied_failed_and_changed() {
    let results = vec![
        variable_apply_result("A".to_string(), "1".to_string(), Some("1".to_string()), Ok(())),
        variable_apply_result("B".to_string(), "2".to_string(), None, Ok(())),
        variable_apply_result("C".to_string(), "".to_string(), None, Err("denied".to_string())),
    ];
    assert_eq!(results[0].message, "persisted for new processes");
    assert_eq!(results[2].message, "denied");
    assert!(!results[2].applied);
    let s = build_apply_summary(&results);
    assert_eq!((s.total, s.success, s.failed, s.changed), (3, 2, 1, 1));
    let r = finish_apply("g".to_string(), "dev".to_string(), "persistent".to_string(), results, vec![]);
    assert_eq!(r.summary.success + r.summary.failed, r.summary.total);
    assert_eq!(r.group, "g");
}

#[test]
fn hook_results_join_output_and_error() {
    let r = hook_result(
        "cmd".to_string(),
        HookOutcome::Finished { success: false, code: Some(2), stdout: b"out\n".to_vec(), stderr: b"err\n".to_vec() },
    );
    assert_eq!(r.command, "cmd");
    assert!(!r.success);
    assert_eq!(r.code, Some(2));
    assert_eq!(r.message, "out\n\nerr");
    let r = hook_result(
        "cmd".to_string(),
        HookOutcome::Finished { success: true, code: Some(0), stdout: Vec::new(), stderr: vec![0xe4, 0xbd, 0xa0, 0xff] },
    );
    assert_eq!(r.message, "你\u{fffd}");
    let r = hook_result("cmd".to_string(), HookOutcome::SpawnFailed("No such file".to_string()));
    assert!(!r.success);
    assert_eq!(r.code, None);
    assert_eq!(r.message, "No such file");
}

#[test]
fn lite_apply_messages() {
    let cfg = config();
    let r = clicky::lite::apply_environment(&cfg, &"g".to_string(), &"dev".to_string(), &"session".to_string());
    assert_eq!(r.err(), Some("envflow only supports persistent mode; reopen target processes after applying".to_string()));
    let r = clicky::lite::apply_environment(&cfg, &"x".to_string(), &"dev".to_string(), &"session".to_string());
    assert_eq!(r.err(), Some("group 'x' not found".to_string()));
    let plan = clicky::lite::apply_environment(&cfg, &"g".to_string(), &"dev".to_string(), &"persistent".to_string()).expect("plan");
    assert_eq!(plan.entries.len(), 2);
}

#[test]
fn report_of_one_apply() {
    let cfg = config();
    let plan = apply_environment_flow(&cfg, &"g".to_string(), &"dev".to_string(), &"persistent".to_string()).expect("plan");
    let r = clicky::apply::apply_report(
        "g".to_string(),
        "dev".to_string(),
        "persistent".to_string(),
        &plan,
        vec![Some("1".to_string()), None],
        vec![Ok(()), Err("denied".to_string())],
        vec![
            HookOutcome::Finished { success: true, code: Some(0), stdout: b" ok \n".to_vec(), stderr: Vec::new() },
            HookOutcome::SpawnFailed("missing".to_string()),
        ],
    );
    assert_eq!((r.summary.total, r.summary.success, r.summary.failed, r.summary.changed), (2, 1, 1, 1));
    assert_eq!(r.variable_results[0].key, "A");
    assert_eq!(r.variable_results[1].message, "denied");
    assert_eq!(r.hook_results[0].command, "one");
    assert_eq!(r.hook_results[0].message, "ok");
    assert_eq!(r.hook_results[1].command, "two");
    assert!(!r.hook_results[1].success);
}

#[test]
fn idea_env_lines() {
    let text = clicky::idea::render_idea_env(&vec![("A".to_string(), "1".to_string()), ("B".to_string(), "x=y".to_string())]);
    assert_eq!(text, "A=1\nB=x=y\n");
    assert_eq!(clicky::idea::render_idea_env(&vec![]), "");
}
