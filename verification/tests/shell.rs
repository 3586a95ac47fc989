use clicky::appliers::{MacosEnvApplier, OtherEnvApplier, WindowsEnvApplier};
use clicky::launchctl::{debug_exit_code_text, launchctl_value, setenv_failure_message};
use clicky::shell::{render_shell_snapshot, shell_single_quote, shell_unquote, snapshot_lookup};

#[test]
fn quote_escapes_single_quotes() {
    assert_eq!(shell_single_quote("abc"), "'abc'");
    assert_eq!(shell_single_quote("it's"), "'it'\\''s'");
    assert_eq!(shell_single_quote(""), "''");
}

#[test]
fn unquote_reverses_quote() {
    for v in ["plain", "it's", "''", "a'b'c", "", "\\'", "ünï'côdé"] {
        assert_eq!(shell_unquote(&shell_single_quote(v)), v);
    }
    assert_eq!(shell_unquote("bare"), "bare");
    assert_eq!(shell_unquote("'"), "'");
    assert_eq!(shell_unquote("'half"), "'half");
}

#[test]
fn snapshot_is_sorted_and_quoted() {
    let items = vec![("B".to_string(), "two words".to_string()), ("A".to_string(), "it's".to_string())];
    let text = render_shell_snapshot(&items);
    assert_eq!(text, "# Managed by Clicky. Do not edit manually.\nexport A='it'\\''s'\nexport B='two words'\n");
}

#[test]
fn snapshot_reads_back_what_it_wrote() {
    let items = vec![
        ("PATH_X".to_string(), "/a b/c".to_string()),
        ("TOKEN".to_string(), "x'y".to_string()),
        ("EMPTY".to_string(), "".to_string()),
    ];
    let text = render_shell_snapshot(&items);
    for (k, v) in &items {
        assert_eq!(snapshot_lookup(&text, k), Some(v.clone()));
    }
    assert_eq!(snapshot_lookup(&text, &"MISSING".to_string()), None);
}

#[test]
fn lookup_handles_spacing_and_line_endings() {
    let text = "# header\r\nexport  KEY = 'v1' \r\nexport OTHER=raw\nexport KEY='v2'";
    assert_eq!(snapshot_lookup(text, &"KEY".to_string()), Some("v1".to_string()));
    assert_eq!(snapshot_lookup(text, &"OTHER".to_string()), Some("raw".to_string()));
    assert_eq!(snapshot_lookup("export LAST='x'\r", &"LAST".to_string()), Some("x".to_string()));
    assert_eq!(snapshot_lookup("", &"K".to_string()), None);
    assert_eq!(snapshot_lookup("exportK='x'\nexport J", &"K".to_string()), None);
}

#[test]
fn launchctl_answers() {
    assert_eq!(launchctl_value(true, &b"  value\n".to_vec()), Some("value".to_string()));
    assert_eq!(launchctl_value(true, &b" \n".to_vec()), None);
    assert_eq!(launchctl_value(false, &b"value".to_vec()), None);
    assert_eq!(launchctl_value(true, &vec![0x66, 0xff, 0x6f]), Some("f\u{fffd}o".to_string()));
}

#[test]
fn setenv_failure_messages() {
    assert_eq!(
        setenv_failure_message(&"K".to_string(), Some(1), &b"out".to_vec(), &b" err \n".to_vec()),
        "launchctl setenv 'K' failed: err"
    );
    assert_eq!(
        setenv_failure_message(&"K".to_string(), Some(1), &b"out\n".to_vec(), &Vec::new()),
        "launchctl setenv 'K' failed: out"
    );
    assert_eq!(
        setenv_failure_message(&"K".to_string(), Some(-3), &b"  ".to_vec(), &Vec::new()),
        "launchctl setenv 'K' failed: exit code Some(-3)"
    );
    assert_eq!(
        setenv_failure_message(&"K".to_string(), None, &Vec::new(), &Vec::new()),
        "launchctl setenv 'K' failed: exit code None"
    );
}

#[test]
fn exit_codes_print_like_debug() {
    for code in [Some(0), Some(7), Some(10), Some(-1), Some(i32::MIN), Some(i32::MAX), None] {
        assert_eq!(debug_exit_code_text(code), format!("{:?}", code));
    }
}

#[test]
fn platform_appliers() {
    let mac = MacosEnvApplier;
    let caps = mac.runtime_capabilities(Some("/home/u/.clicky/env.sh".to_string()));
    assert_eq!(caps.platform, "macos");
    assert_eq!(caps.shell_integration_file, Some("/home/u/.clicky/env.sh".to_string()));
    let text = mac.persist_shell_env_snapshot(&vec![("K".to_string(), "v".to_string())]);
    assert_eq!(
        mac.read_persistent_var(&"K".to_string(), None, Some(text.clone())),
        Some("v".to_string())
    );
    assert_eq!(
        mac.read_persistent_var(&"K".to_string(), Some("live".to_string()), Some(text)),
        Some("live".to_string())
    );
    assert_eq!(mac.read_persistent_var(&"K".to_string(), None, None), None);

    let win = WindowsEnvApplier;
    assert_eq!(win.runtime_capabilities().platform, "windows");
    assert_eq!(win.persist_shell_env_snapshot(&vec![]), Ok(None));

    let other = OtherEnvApplier;
    assert_eq!(
        other.apply_var_persistent(&"K".to_string(), &"v".to_string()),
        Err("persistent apply is not implemented for this OS yet".to_string())
    );
    assert_eq!(other.persist_shell_env_snapshot(&vec![]), Ok(None));
    let caps = other.runtime_capabilities("linux".to_string());
    assert_eq!(caps.platform, "linux");
    assert_eq!(caps.apply_scope_hint, "当前平台仅支持配置管理，环境变量持久化应用尚未实现。");
    assert!(caps.shell_integration_file.is_none());
}
