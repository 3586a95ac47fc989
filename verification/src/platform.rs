use vstd::prelude::*;

verus! {

/// The operating system the application runs on.
pub enum Platform {
    Windows,
    Macos,
    /// Any other system, by its name.
    Other(String),
}

/// What the frontend is told about applying environments on this platform.
pub struct RuntimeCapabilities {
    pub platform: String,
    pub apply_scope_hint: String,
    pub shell_integration_file: Option<String>,
}

/// New processes see the applied values; running ones usually need a restart.
pub open spec fn new_process_hint() -> Seq<char> {
    "新开进程生效，当前进程通常需重启。"@
}

/// Only configuration management is available; applying is not implemented.
pub open spec fn config_only_hint() -> Seq<char> {
    "当前平台仅支持配置管理，环境变量持久化应用尚未实现。"@
}

/// The error of applying a variable on a platform without support.
pub open spec fn msg_apply_unsupported() -> Seq<char> {
    "persistent apply is not implemented for this OS yet"@
}

pub fn apply_unsupported_message() -> (r: String)
    ensures
        r@ == msg_apply_unsupported(),
{
    "persistent apply is not implemented for this OS yet".to_owned()
}

/// The platform summary. Only macOS writes a shell integration file, so only
/// there the given file is reported.
pub fn runtime_capabilities(platform: Platform, shell_integration_file: Option<String>) -> (r: RuntimeCapabilities)
    ensures
        match platform {
            Platform::Windows => r.platform@ == "windows"@ && r.apply_scope_hint@ == new_process_hint()
                && r.shell_integration_file is None,
            Platform::Macos => r.platform@ == "macos"@ && r.apply_scope_hint@ == new_process_hint()
                && r.shell_integration_file == shell_integration_file,
            Platform::Other(os) => r.platform == os && r.apply_scope_hint@ == config_only_hint()
                && r.shell_integration_file is None,
        },
{
    match platform {
        Platform::Windows => RuntimeCapabilities {
            platform: "windows".to_owned(),
            apply_scope_hint: "新开进程生效，当前进程通常需重启。".to_owned(),
            shell_integration_file: None,
        },
        Platform::Macos => RuntimeCapabilities {
            platform: "macos".to_owned(),
            apply_scope_hint: "新开进程生效，当前进程通常需重启。".to_owned(),
            shell_integration_file,
        },
        Platform::Other(os) => RuntimeCapabilities {
            platform: os,
            apply_scope_hint: "当前平台仅支持配置管理，环境变量持久化应用尚未实现。".to_owned(),
            shell_integration_file: None,
        },
    }
}

/// The platform summary shown in the frontend.
pub fn get_runtime_capabilities(platform: Platform, shell_integration_file: Option<String>) -> (r: RuntimeCapabilities)
    ensures
        match platform {
            Platform::Windows => r.platform@ == "windows"@ && r.apply_scope_hint@ == new_process_hint()
                && r.shell_integration_file is None,
            Platform::Macos => r.platform@ == "macos"@ && r.apply_scope_hint@ == new_process_hint()
                && r.shell_integration_file == shell_integration_file,
            Platform::Other(os) => r.platform == os && r.apply_scope_hint@ == config_only_hint()
                && r.shell_integration_file is None,
        },
{
    runtime_capabilities(platform, shell_integration_file)
}

} // verus!
