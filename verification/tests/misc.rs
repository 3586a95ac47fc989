use clicky::listing::detect_active_environments;
use clicky::model::{ConfigFile, EnvDef, GroupDef};
use clicky::platform::{get_runtime_capabilities, Platform};
use clicky::recent::{current_recent_env, remember_recent_env, AppRuntimeState, EnvSelection};
use clicky::strmap::StrMap;
use clicky::text::{string_less, trim_string};
use clicky::tray::{format_recent_menu_label, no_recent_message, switch_status, tray_slots};
use clicky::apply::{finish_apply, variable_apply_result};

fn sel(g: &str, e: &str) -> EnvSelection {
    EnvSelection { group: g.to_string(), env: e.to_string() }
}

fn view(state: &AppRuntimeState) -> Vec<(String, String)> {
    state.recent_snapshot().into_iter().map(|s| (s.group, s.env)).collect()
}

#[test]
fn remember_moves_to_front_and_keeps_two() {
    let mut state = AppRuntimeState::new();
    assert!(current_recent_env(&state).is_none());
    remember_recent_env(&mut state, &"g".to_string(), &"a".to_string());
    remember_recent_env(&mut state, &"g".to_string(), &"b".to_string());
    remember_recent_env(&mut state, &"g".to_string(), &"c".to_string());
    assert_eq!(view(&state), vec![("g".to_string(), "c".to_string()), ("g".to_string(), "b".to_string())]);
    remember_recent_env(&mut state, &"g".to_string(), &"b".to_string());
    assert_eq!(view(&state), vec![("g".to_string(), "b".to_string()), ("g".to_string(), "c".to_string())]);
    let cur = current_recent_env(&state).expect("current");
    assert_eq!((cur.group, cur.env), ("g".to_string(), "b".to_string()));
    assert!(state.recent_at(2).is_none());
    assert_eq!(state.recent_at(1).map(|s| s.env), Some("c".to_string()));
}

#[test]
fn load_keeps_the_first_two() {
    let mut state = AppRuntimeState::new();
    state.load_recent(vec![sel("a", "1"), sel("b", "2"), sel("c", "3")]);
    assert_eq!(view(&state), vec![("a".to_string(), "1".to_string()), ("b".to_string(), "2".to_string())]);
}

#[test]
fn tray_labels_and_slots() {
    assert_eq!(format_recent_menu_label(Some(&sel("g", "dev")), 0), "g/dev");
    assert_eq!(format_recent_menu_label(None, 1), "最近环境 2（暂无）");
    let (a, b) = tray_slots(&vec![]);
    assert_eq!(a.label, "最近环境 1（暂无）");
    assert!(!a.enabled && a.checked);
    assert!(!b.enabled && b.checked);
    let (a, b) = tray_slots(&vec![sel("g", "dev"), sel("g", "sit")]);
    assert_eq!(a.label, "g/dev");
    assert_eq!(b.label, "g/sit");
    assert!(a.enabled && a.checked);
    assert!(b.enabled && !b.checked);
    let (_, b) = tray_slots(&vec![sel("g", "dev")]);
    assert!(!b.enabled && !b.checked);
}

#[test]
fn tray_status_texts() {
    assert_eq!(no_recent_message(), "请先在主界面应用至少一个环境。");
    let results = vec![
        variable_apply_result("A".to_string(), "1".to_string(), Some("0".to_string()), Ok(())),
        variable_apply_result("B".to_string(), "2".to_string(), Some("2".to_string()), Ok(())),
    ];
    let applied = finish_apply("g".to_string(), "dev".to_string(), "persistent".to_string(), results, vec![]);
    assert_eq!(switch_status(&sel("g", "dev"), &Ok(applied)), "已切换到 g/dev：处理 2 个，变更 1 个。");
    assert_eq!(switch_status(&sel("g", "dev"), &Err("boom".to_string())), "切换失败：boom");
}

#[test]
fn capabilities_per_platform() {
    let c = get_runtime_capabilities(Platform::Macos, Some("/x/env.sh".to_string()));
    assert_eq!(c.platform, "macos");
    assert_eq!(c.apply_scope_hint, "新开进程生效，当前进程通常需重启。");
    assert_eq!(c.shell_integration_file, Some("/x/env.sh".to_string()));
    let c = get_runtime_capabilities(Platform::Other("freebsd".to_string()), Some("/x".to_string()));
    assert_eq!(c.platform, "freebsd");
    assert!(c.shell_integration_file.is_none());
}

#[test]
fn detect_needs_every_value_to_match() {
    let mut environments = StrMap::new();
    let mut dev = StrMap::new();
    dev.insert("A".to_string(), "1".to_string());
    dev.insert("B".to_string(), "2".to_string());
    let mut sit = StrMap::new();
    sit.insert("A".to_string(), "1".to_string());
    environments.insert("dev".to_string(), EnvDef { description: None, variables: dev, hooks: None });
    environments.insert("sit".to_string(), EnvDef { description: None, variables: sit, hooks: None });
    environments.insert("empty".to_string(), EnvDef { description: None, variables: StrMap::new(), hooks: None });
    let mut cfg = ConfigFile::new();
    cfg.groups.insert("g".to_string(), GroupDef { description: None, environments });
    let mut current = StrMap::new();
    current.insert("A".to_string(), "1".to_string());
    current.insert("B".to_string(), "3".to_string());
    assert_eq!(
        detect_active_environments(&cfg, "g".to_string(), &current),
        Ok(vec!["empty".to_string(), "sit".to_string()])
    );
    assert_eq!(
        detect_active_environments(&cfg, "h".to_string(), &current),
        Err("group 'h' not found".to_string())
    );
}

#[test]
fn text_helpers() {
    assert_eq!(trim_string(&" \t a b \n".to_string()), "a b");
    assert_eq!(trim_string(&"\u{3000}x\u{a0}".to_string()), "x");
    assert!(string_less(&"a".to_string(), &"b".to_string()));
    assert!(string_less(&"a".to_string(), &"ab".to_string()));
    assert!(!string_less(&"b".to_string(), &"a".to_string()));
    assert!(!string_less(&"a".to_string(), &"a".to_string()));
    assert!(string_less(&"Z".to_string(), &"a".to_string()));
}

#[test]
fn recent_after_repeated_selection() {
    let mut state = AppRuntimeState::new();
    remember_recent_env(&mut state, &"g".to_string(), &"a".to_string());
    remember_recent_env(&mut state, &"g".to_string(), &"a".to_string());
    assert_eq!(view(&state), vec![("g".to_string(), "a".to_string())]);
    remember_recent_env(&mut state, &"g".to_string(), &"b".to_string());
    remember_recent_env(&mut state, &"g".to_string(), &"b".to_string());
    assert_eq!(view(&state), vec![("g".to_string(), "b".to_string()), ("g".to_string(), "a".to_string())]);
}
