use vstd::prelude::*;
use crate::listing::sorted_keys;
use crate::messages::{
    applied_message, env_not_found_message, group_not_found_message, msg_applied, msg_env_not_found,
    msg_group_not_found, msg_persistent_only, persistent_only_message,
};
use crate::model::{ConfigFile, HooksDef, Item};
use crate::sorting::{sorted_by_name, Named};
use crate::text::{trim, trim_string};
use vstd::string::*;


verus! {

/// What applying one variable did.
pub struct VariableApplyResult {
    pub key: String,
    pub before: Option<String>,
    pub after: String,
    pub applied: bool,
    pub message: String,
}

/// What running one hook command did.
pub struct HookResult {
    pub command: String,
    pub success: bool,
    pub code: Option<i32>,
    pub message: String,
}

/// Totals over the per-variable results.
pub struct ApplySummary {
    pub total: usize,
    pub success: usize,
    pub failed: usize,
    pub changed: usize,
}

/// The report of applying an environment.
pub struct ApplyResult {
    pub group: String,
    pub environment: String,
    pub mode: String,
    pub summary: ApplySummary,
    pub variable_results: Vec<VariableApplyResult>,
    pub hook_results: Vec<HookResult>,
}

/// What to apply: the variables in name order, and the hooks to run afterwards.
pub struct ApplyPlan {
    pub entries: Vec<(String, String)>,
    pub hooks: Option<HooksDef>,
}

/// `entries` are the variables of the map, in name order.
pub open spec fn entries_of(entries: Seq<(String, String)>, vars: Map<Seq<char>, Seq<char>>) -> bool {
    &&& sorted_by_name(entries)
    &&& entries.len() == vars.dom().len()
    &&& forall|i: int| 0 <= i < entries.len() ==> vars.contains_key(#[trigger] entries[i].0@) && vars[entries[i].0@] == entries[i].1@
    &&& forall|k: Seq<char>| #[trigger] vars.contains_key(k) ==> exists|i: int| 0 <= i < entries.len() && #[trigger] entries[i].0@ == k
}

/// The only mode that can be applied.
pub open spec fn persistent_mode() -> Seq<char> {
    "persistent"@
}

/// Looks up the environment to apply and lists its variables in name order.
/// The group and environment are looked up by the names as given.
pub fn apply_environment_flow(cfg: &ConfigFile, group_name: &String, env_name: &String, mode: &String) -> (r: Result<ApplyPlan, String>)
    requires
        cfg.wf(),
    ensures
        !cfg@.groups.contains_key(group_name@) ==> (r matches Err(e) && e@ == msg_group_not_found(group_name@)),
        cfg@.groups.contains_key(group_name@) && !cfg@.groups[group_name@].environments.contains_key(env_name@)
            ==> (r matches Err(e) && e@ == msg_env_not_found(env_name@, group_name@)),
        cfg@.groups.contains_key(group_name@) && cfg@.groups[group_name@].environments.contains_key(env_name@)
            && mode@ != persistent_mode() ==> (r matches Err(e) && e@ == msg_persistent_only()),
        cfg@.groups.contains_key(group_name@) && cfg@.groups[group_name@].environments.contains_key(env_name@)
            && mode@ == persistent_mode() ==> (r matches Ok(plan) && {
            let env = cfg@.groups[group_name@].environments[env_name@];
            &&& entries_of(plan.entries@, env.variables)
            &&& match plan.hooks {
                Some(h) => env.hooks == Some(h.deep_view()),
                None => env.hooks is None,
            }
        }),
{
    let g = match cfg.groups.get(group_name) {
        Some(g) => g,
        None => {
            return Err(group_not_found_message(group_name));
        },
    };
    proof {
        cfg.groups.lemma_value_inv(group_name@);
    }
    let env = match g.environments.get(env_name) {
        Some(e) => e,
        None => {
            return Err(env_not_found_message(env_name, group_name));
        },
    };
    proof {
        g.environments.lemma_value_inv(env_name@);
    }
    let persistent = "persistent".to_owned();
    if !(*mode == persistent) {
        return Err(persistent_only_message());
    }
    let vars = &env.variables;
    let keys = sorted_keys(vars);
    let mut entries: Vec<(String, String)> = Vec::new();
    let mut i: usize = 0;
    while i < keys.len()
        invariant
            vars.wf(),
            i <= keys@.len(),
            sorted_by_name(keys@),
            keys@.len() == vars.len(),
            crate::listing::lists_keys(keys@, vars@),
            entries@.len() == i,
            forall|a: int| 0 <= a < i ==> #[trigger] entries@[a].0@ == keys@[a]@ && vars@[keys@[a]@] == entries@[a].1@,
        decreases keys@.len() - i,
    {
        let k = &keys[i];
        proof {
            assert(vars@.contains_key(keys@[i as int]@));
        }
        let v = vars.get(k).unwrap();
        entries.push((k.clone(), v.clone()));
        i = i + 1;
    }
    proof {
        vars.lemma_dom_len();
        assert forall|a: int, b: int| 0 <= a < b < entries@.len() implies crate::text::str_less(#[trigger] entries@[a].name_view(), #[trigger] entries@[b].name_view()) by {
            assert(crate::text::str_less(keys@[a].name_view(), keys@[b].name_view()));
        }
        assert forall|k: Seq<char>| #[trigger] vars@.contains_key(k) implies exists|i: int| 0 <= i < entries@.len() && #[trigger] entries@[i].0@ == k by {
            let a = choose|a: int| 0 <= a < keys@.len() && #[trigger] keys@[a]@ == k;
            assert(entries@[a].0@ == k);
        }
        assert forall|a: int| 0 <= a < entries@.len() implies vars@.contains_key(#[trigger] entries@[a].0@) && vars@[entries@[a].0@] == entries@[a].1@ by {
            assert(vars@.contains_key(keys@[a]@));
        }
    }
    let hooks = match &env.hooks {
        Some(h) => Some(h.duplicate()),
        None => None,
    };
    Ok(ApplyPlan { entries, hooks })
}

/// The view of one variable result that the summary counts.
pub open spec fn var_changed(r: VariableApplyResult) -> bool {
    (match r.before {
        Some(b) => b@,
        None => Seq::<char>::empty(),
    }) != r.after@
}

pub open spec fn count_applied(s: Seq<VariableApplyResult>) -> nat
    decreases s.len(),
{
    if s.len() == 0 {
        0
    } else {
        count_applied(s.drop_last()) + if s.last().applied { 1nat } else { 0nat }
    }
}

pub open spec fn count_changed(s: Seq<VariableApplyResult>) -> nat
    decreases s.len(),
{
    if s.len() == 0 {
        0
    } else {
        count_changed(s.drop_last()) + if var_changed(s.last()) { 1nat } else { 0nat }
    }
}

proof fn lemma_counts_le(s: Seq<VariableApplyResult>)
    ensures
        count_applied(s) <= s.len(),
        count_changed(s) <= s.len(),
    decreases s.len(),
{
    if s.len() > 0 {
        lemma_counts_le(s.drop_last());
    }
}

/// The per-variable result: applied with the standard message, or failed with the error.
pub fn variable_apply_result(key: String, value: String, before: Option<String>, outcome: Result<(), String>) -> (r:
    VariableApplyResult)
    ensures
        r.key == key,
        r.after == value,
        r.before == before,
        r.applied == outcome is Ok,
        outcome is Ok ==> r.message@ == msg_applied(),
        outcome matches Err(e) ==> r.message == e,
{
    match outcome {
        Ok(()) => VariableApplyResult { key, before, after: value, applied: true, message: applied_message() },
        Err(e) => VariableApplyResult { key, before, after: value, applied: false, message: e },
    }
}

/// Totals: all results, the applied ones, the failed ones, and those whose
/// value differs from the value before (a missing value counts as empty).
pub fn build_apply_summary(results: &Vec<VariableApplyResult>) -> (r: ApplySummary)
    ensures
        r.total == results@.len(),
        r.success == count_applied(results@),
        r.failed == results@.len() - count_applied(results@),
        r.changed == count_changed(results@),
{
    let n = results.len();
    let mut success: usize = 0;
    let mut changed: usize = 0;
    let mut i: usize = 0;
    proof {
        assert(results@.take(0) =~= Seq::<VariableApplyResult>::empty());
    }
    while i < n
        invariant
            n == results@.len(),
            i <= n,
            success == count_applied(results@.take(i as int)),
            changed == count_changed(results@.take(i as int)),
        decreases n - i,
    {
        let item = &results[i];
        proof {
            assert(results@.take(i + 1).drop_last() =~= results@.take(i as int));
            assert(results@.take(i + 1).last() == results@[i as int]);
            lemma_counts_le(results@.take(i as int));
        }
        if item.applied {
            success = success + 1;
        }
        let differs = match &item.before {
            Some(b) => !(*b == item.after),
            None => item.after.as_str().unicode_len() != 0,
        };
        proof {
            if item.before is None {
                if item.after@.len() == 0 {
                    assert(item.after@ =~= Seq::<char>::empty());
                }
            }
        }
        if differs {
            changed = changed + 1;
        }
        i = i + 1;
    }
    proof {
        assert(results@.take(n as int) =~= results@);
        lemma_counts_le(results@);
    }
    ApplySummary { total: n, success, failed: n - success, changed }
}

/// The report of an apply, with its summary derived from the per-variable results.
pub fn finish_apply(
    group: String,
    environment: String,
    mode: String,
    variable_results: Vec<VariableApplyResult>,
    hook_results: Vec<HookResult>,
) -> (r: ApplyResult)
    ensures
        r.group == group,
        r.environment == environment,
        r.mode == mode,
        r.variable_results == variable_results,
        r.hook_results == hook_results,
        r.summary.total == variable_results@.len(),
        r.summary.success == count_applied(variable_results@),
        r.summary.failed == variable_results@.len() - count_applied(variable_results@),
        r.summary.changed == count_changed(variable_results@),
{
    let summary = build_apply_summary(&variable_results);
    ApplyResult { group, environment, mode, summary, variable_results, hook_results }
}

/// The hook commands to run, in order.
pub fn hook_commands(hooks: &Option<HooksDef>) -> (r: Vec<String>)
    ensures
        match hooks {
            Some(h) => match h.post {
                Some(list) => r@.len() == list@.len() && forall|i: int| 0 <= i < r@.len() ==> #[trigger] r@[i]@ == list@[i]@,
                None => r@.len() == 0,
            },
            None => r@.len() == 0,
        },
{
    match hooks {
        Some(h) => match &h.post {
            Some(list) => {
                let mut r: Vec<String> = Vec::new();
                let mut i: usize = 0;
                while i < list.len()
                    invariant
                        i <= list@.len(),
                        r@.len() == i,
                        forall|j: int| 0 <= j < i ==> #[trigger] r@[j]@ == list@[j]@,
                    decreases list@.len() - i,
                {
                    r.push(list[i].clone());
                    i = i + 1;
                }
                r
            },
            None => Vec::new(),
        },
        None => Vec::new(),
    }
}

/// The text of `bytes` read as UTF-8, each invalid sequence replaced by U+FFFD.
pub uninterp spec fn spec_utf8_lossy(bytes: Seq<u8>) -> Seq<char>;

/// Decodes with `String::from_utf8_lossy`. Its result is named
/// `spec_utf8_lossy` of the bytes; for valid UTF-8 it is the decoded text.
#[verifier::external_body]
pub(crate) fn utf8_lossy(bytes: &Vec<u8>) -> (r: String)
    ensures
        r@ == spec_utf8_lossy(bytes@),
        vstd::utf8::valid_utf8(bytes@) ==> r@ == vstd::utf8::decode_utf8(bytes@),
{
    String::from_utf8_lossy(bytes.as_slice()).into_owned()
}

/// How a hook command ended: it ran (with its exit status and output), or it could not be started.
pub enum HookOutcome {
    Finished { success: bool, code: Option<i32>, stdout: Vec<u8>, stderr: Vec<u8> },
    SpawnFailed(String),
}

/// The standard output, then the standard error on a new line, trimmed.
pub open spec fn hook_message(stdout: Seq<u8>, stderr: Seq<u8>) -> Seq<char> {
    let m1 = if stdout.len() > 0 { spec_utf8_lossy(stdout) } else { Seq::<char>::empty() };
    let m2 = if stderr.len() > 0 {
        if m1.len() > 0 {
            m1 + "\n"@ + spec_utf8_lossy(stderr)
        } else {
            m1 + spec_utf8_lossy(stderr)
        }
    } else {
        m1
    };
    trim(m2)
}

/// The result of one hook command.
pub fn hook_result(command: String, outcome: HookOutcome) -> (r: HookResult)
    ensures
        r.command == command,
        match outcome {
            HookOutcome::Finished { success, code, stdout, stderr } => r.success == success && r.code == code
                && r.message@ == hook_message(stdout@, stderr@),
            HookOutcome::SpawnFailed(e) => !r.success && r.code is None && r.message == e,
        },
{
    match outcome {
        HookOutcome::Finished { success, code, stdout, stderr } => {
            let mut msg = String::new();
            if stdout.len() > 0 {
                let out = utf8_lossy(&stdout);
                msg.append(out.as_str());
            }
            if stderr.len() > 0 {
                if msg.as_str().unicode_len() > 0 {
                    msg.append("\n");
                }
                let err = utf8_lossy(&stderr);
                msg.append(err.as_str());
            }
            let message = trim_string(&msg);
            proof {
                let m1 = if stdout@.len() > 0 { spec_utf8_lossy(stdout@) } else { Seq::<char>::empty() };
                if stderr@.len() == 0 {
                    assert(msg@ =~= m1);
                } else if m1.len() > 0 {
                    assert(msg@ =~= m1 + "\n"@ + spec_utf8_lossy(stderr@));
                } else {
                    assert(msg@ =~= m1 + spec_utf8_lossy(stderr@));
                }
            }
            HookResult { command, success, code, message }
        },
        HookOutcome::SpawnFailed(e) => HookResult { command, success: false, code: None, message: e },
    }
}

/// `r` reports hook `command` with the given outcome, as `hook_result` does.
pub open spec fn reports_hook(r: HookResult, command: Seq<char>, outcome: HookOutcome) -> bool {
    &&& r.command@ == command
    &&& match outcome {
        HookOutcome::Finished { success, code, stdout, stderr } => r.success == success && r.code == code && r.message@
            == hook_message(stdout@, stderr@),
        HookOutcome::SpawnFailed(e) => !r.success && r.code is None && r.message == e,
    }
}

/// `r` reports variable `kv` with the value before and the outcome of the
/// write, as `variable_apply_result` does.
pub open spec fn reports_variable(r: VariableApplyResult, kv: (String, String), before: Option<String>, outcome: Result<(), String>) -> bool {
    &&& r.key == kv.0
    &&& r.after == kv.1
    &&& r.before == before
    &&& r.applied == outcome is Ok
    &&& (outcome is Ok ==> r.message@ == msg_applied())
    &&& (outcome matches Err(e) ==> r.message == e)
}

/// The hook commands of an environment's hooks, in order.
pub open spec fn post_commands(hooks: Option<HooksDef>) -> Seq<String> {
    match hooks {
        Some(h) => match h.post {
            Some(list) => list@,
            None => Seq::empty(),
        },
        None => Seq::empty(),
    }
}

/// The report of one apply. For each variable of the plan, in order, the
/// value read before the write and the outcome of the write; for each hook
/// command of the plan, in order, how it ended. The report lists the
/// variables and the hooks in that order and sums the variables up.
pub fn apply_report(
    group: String,
    environment: String,
    mode: String,
    plan: &ApplyPlan,
    befores: Vec<Option<String>>,
    outcomes: Vec<Result<(), String>>,
    hook_outcomes: Vec<HookOutcome>,
) -> (r: ApplyResult)
    requires
        befores@.len() == plan.entries@.len(),
        outcomes@.len() == plan.entries@.len(),
        hook_outcomes@.len() == post_commands(plan.hooks).len(),
    ensures
        r.group == group,
        r.environment == environment,
        r.mode == mode,
        r.variable_results@.len() == plan.entries@.len(),
        forall|i: int| 0 <= i < plan.entries@.len() ==> reports_variable(#[trigger] r.variable_results@[i], plan.entries@[i], befores@[i], outcomes@[i]),
        r.hook_results@.len() == hook_outcomes@.len(),
        forall|i: int| 0 <= i < hook_outcomes@.len() ==> reports_hook(#[trigger] r.hook_results@[i], post_commands(plan.hooks)[i]@, hook_outcomes@[i]),
        r.summary.total == plan.entries@.len(),
        r.summary.success == count_applied(r.variable_results@),
        r.summary.failed == plan.entries@.len() - count_applied(r.variable_results@),
        r.summary.changed == count_changed(r.variable_results@),
{
    let ghost bs = befores@;
    let ghost os = outcomes@;
    let ghost hs = hook_outcomes@;
    let mut befores = befores;
    let mut outcomes = outcomes;
    let mut hook_outcomes = hook_outcomes;
    let n = plan.entries.len();
    let mut variable_results: Vec<VariableApplyResult> = Vec::new();
    let mut i: usize = 0;
    while i < n
        invariant
            n == plan.entries@.len(),
            i <= n,
            bs.len() == n,
            os.len() == n,
            befores@ == bs.skip(i as int),
            outcomes@ == os.skip(i as int),
            variable_results@.len() == i,
            forall|j: int| 0 <= j < i ==> reports_variable(#[trigger] variable_results@[j], plan.entries@[j], bs[j], os[j]),
        decreases n - i,
    {
        let before = befores.remove(0);
        let outcome = outcomes.remove(0);
        proof {
            assert(before == bs[i as int]);
            assert(outcome == os[i as int]);
            assert(befores@ =~= bs.skip(i + 1));
            assert(outcomes@ =~= os.skip(i + 1));
        }
        let key = plan.entries[i].0.clone();
        let value = plan.entries[i].1.clone();
        let res = variable_apply_result(key, value, before, outcome);
        variable_results.push(res);
        i = i + 1;
    }
    let commands = hook_commands(&plan.hooks);
    let ghost cs = post_commands(plan.hooks);
    let m = hook_outcomes.len();
    let mut hook_results: Vec<HookResult> = Vec::new();
    let mut k: usize = 0;
    while k < m
        invariant
            m == hs.len(),
            hs.len() == cs.len(),
            commands@.len() == cs.len(),
            forall|j: int| 0 <= j < cs.len() ==> #[trigger] commands@[j]@ == cs[j]@,
            k <= m,
            hook_outcomes@ == hs.skip(k as int),
            hook_results@.len() == k,
            forall|j: int| 0 <= j < k ==> reports_hook(#[trigger] hook_results@[j], cs[j]@, hs[j]),
        decreases m - k,
    {
        let outcome = hook_outcomes.remove(0);
        proof {
            assert(outcome == hs[k as int]);
            assert(hook_outcomes@ =~= hs.skip(k + 1));
        }
        let command = commands[k].clone();
        let res = hook_result(command, outcome);
        hook_results.push(res);
        k = k + 1;
    }
    finish_apply(group, environment, mode, variable_results, hook_results)
}

} // verus!
