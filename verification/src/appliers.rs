use vstd::prelude::*;
use crate::platform::{
    apply_unsupported_message, config_only_hint, msg_apply_unsupported, new_process_hint, runtime_capabilities,
    Platform, RuntimeCapabilities,
};
use crate::shell::{render_shell_snapshot, snapshot_lookup, spec_render_snapshot, spec_snapshot_lookup};

verus! {

/// macOS: variables go to `launchctl setenv` and to a shell snapshot that new
/// shells source; the snapshot is also where a value is read back from when
/// launchctl has none.
pub struct MacosEnvApplier;

/// Windows: variables go to the user's environment in the registry.
pub struct WindowsEnvApplier;

/// Any other system: only configuration management is available.
pub struct OtherEnvApplier;

impl MacosEnvApplier {
    /// The platform summary, with the path of the shell snapshot when it is known.
    pub fn runtime_capabilities(&self, shell_integration_file: Option<String>) -> (r: RuntimeCapabilities)
        ensures
            r.platform@ == "macos"@,
            r.apply_scope_hint@ == new_process_hint(),
            r.shell_integration_file == shell_integration_file,
    {
        runtime_capabilities(Platform::Macos, shell_integration_file)
    }

    /// The text of the shell snapshot that exports `items`.
    pub fn persist_shell_env_snapshot(&self, items: &Vec<(String, String)>) -> (r: String)
        ensures
            r@ == spec_render_snapshot(items.deep_view()),
    {
        render_shell_snapshot(items)
    }

    /// The persisted value of `key`: what launchctl reports, or else what the
    /// shell snapshot (its text, when the file exists) gives it.
    pub fn read_persistent_var(&self, key: &String, launchctl: Option<String>, snapshot: Option<String>) -> (r: Option<String>)
        ensures
            launchctl is Some ==> r == launchctl,
            launchctl is None ==> r.deep_view() == (match snapshot {
                Some(text) => spec_snapshot_lookup(text@, key@),
                None => None,
            }),
    {
        if launchctl.is_some() {
            return launchctl;
        }
        match snapshot {
            Some(text) => snapshot_lookup(text.as_str(), key),
            None => None,
        }
    }
}

impl WindowsEnvApplier {
    pub fn runtime_capabilities(&self) -> (r: RuntimeCapabilities)
        ensures
            r.platform@ == "windows"@,
            r.apply_scope_hint@ == new_process_hint(),
            r.shell_integration_file is None,
    {
        runtime_capabilities(Platform::Windows, None)
    }

    /// Windows writes no shell snapshot.
    pub fn persist_shell_env_snapshot(&self, items: &Vec<(String, String)>) -> (r: Result<Option<String>, String>)
        ensures
            r == Ok::<Option<String>, String>(None),
    {
        Ok(None)
    }
}

impl OtherEnvApplier {
    /// Applying is refused on these systems.
    pub fn apply_var_persistent(&self, key: &String, value: &String) -> (r: Result<(), String>)
        ensures
            r matches Err(m) && m@ == msg_apply_unsupported(),
    {
        Err(apply_unsupported_message())
    }

    /// No shell snapshot is written on these systems.
    pub fn persist_shell_env_snapshot(&self, items: &Vec<(String, String)>) -> (r: Result<Option<String>, String>)
        ensures
            r == Ok::<Option<String>, String>(None),
    {
        Ok(None)
    }

    /// The platform summary for the system named `os`.
    pub fn runtime_capabilities(&self, os: String) -> (r: RuntimeCapabilities)
        ensures
            r.platform == os,
            r.apply_scope_hint@ == config_only_hint(),
            r.shell_integration_file is None,
    {
        runtime_capabilities(Platform::Other(os), None)
    }
}

} // verus!
