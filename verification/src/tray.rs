use vstd::prelude::*;
use crate::apply::{build_apply_summary, count_changed, ApplyResult};
use crate::recent::EnvSelection;
use crate::text::{append_decimal, decimal};

verus! {

/// The label of a quick-switch slot: the environment as `group/env`, or a
/// placeholder with the slot's number (counted from 1) when the slot is empty.
pub open spec fn spec_recent_menu_label(item: Option<(Seq<char>, Seq<char>)>, index: nat) -> Seq<char> {
    match item {
        Some(sel) => sel.0 + "/"@ + sel.1,
        None => "最近环境 "@ + decimal(index + 1) + "（暂无）"@,
    }
}

/// The label of quick-switch slot `index`.
pub fn format_recent_menu_label(item: Option<&EnvSelection>, index: usize) -> (r: String)
    requires
        index < u64::MAX,
    ensures
        r@ == spec_recent_menu_label(
            match item {
                Some(s) => Some(s@),
                None => None,
            },
            index as nat,
        ),
{
    match item {
        Some(sel) => crate::text::concat3(sel.group.as_str(), "/", sel.env.as_str()),
        None => {
            let mut r = "最近环境 ".to_owned();
            append_decimal(&mut r, index as u64 + 1);
            r.append("（暂无）");
            r
        },
    }
}

/// One quick-switch entry of the tray menu.
pub struct TraySlot {
    pub label: String,
    pub enabled: bool,
    pub checked: bool,
}

fn same_selection(a: Option<&EnvSelection>, b: Option<&EnvSelection>) -> (r: bool)
    ensures
        r == (match (a, b) {
            (Some(x), Some(y)) => x@ == y@,
            (None, None) => true,
            _ => false,
        }),
{
    match (a, b) {
        (Some(x), Some(y)) => x.group == y.group && x.env == y.env,
        (None, None) => true,
        _ => false,
    }
}

/// The two quick-switch entries of the tray menu for the recent list (newest
/// first). An entry is enabled when its slot holds an environment, and checked
/// when it equals the newest entry (both empty counts as equal).
pub fn tray_slots(recent: &Vec<EnvSelection>) -> (r: (TraySlot, TraySlot))
    ensures
        r.0.label@ == spec_recent_menu_label(if recent@.len() > 0 { Some(recent@[0]@) } else { None }, 0),
        r.1.label@ == spec_recent_menu_label(if recent@.len() > 1 { Some(recent@[1]@) } else { None }, 1),
        r.0.enabled == (recent@.len() > 0),
        r.1.enabled == (recent@.len() > 1),
        r.0.checked,
        r.1.checked == (if recent@.len() > 1 { recent@[0]@ == recent@[1]@ } else { recent@.len() == 0 }),
{
    let first: Option<&EnvSelection> = if recent.len() > 0 { Some(&recent[0]) } else { None };
    let second: Option<&EnvSelection> = if recent.len() > 1 { Some(&recent[1]) } else { None };
    let current = first;
    let slot0 = TraySlot { label: format_recent_menu_label(first, 0), enabled: first.is_some(), checked: same_selection(current, first) };
    let slot1 = TraySlot { label: format_recent_menu_label(second, 1), enabled: second.is_some(), checked: same_selection(current, second) };
    (slot0, slot1)
}

/// The tray's answer when there is no recent environment in the slot.
pub open spec fn msg_no_recent() -> Seq<char> {
    "请先在主界面应用至少一个环境。"@
}

pub fn no_recent_message() -> (r: String)
    ensures
        r@ == msg_no_recent(),
{
    "请先在主界面应用至少一个环境。".to_owned()
}

/// The tray's status after switching to `sel`: how many variables were
/// handled and how many changed, or why the switch failed.
pub open spec fn spec_switch_status(sel: (Seq<char>, Seq<char>), outcome: Result<(nat, nat), Seq<char>>) -> Seq<char> {
    match outcome {
        Ok((total, changed)) => "已切换到 "@ + sel.0 + "/"@ + sel.1 + "：处理 "@ + decimal(total) + " 个，变更 "@
            + decimal(changed) + " 个。"@,
        Err(e) => "切换失败："@ + e,
    }
}

/// The status text of a switch from the tray.
pub fn switch_status(sel: &EnvSelection, result: &Result<ApplyResult, String>) -> (r: String)
    ensures
        r@ == spec_switch_status(
            sel@,
            match result {
                Ok(a) => Ok((a.variable_results@.len(), count_changed(a.variable_results@))),
                Err(e) => Err(e@),
            },
        ),
{
    match result {
        Ok(a) => {
            let summary = build_apply_summary(&a.variable_results);
            let mut r = "已切换到 ".to_owned();
            r.append(sel.group.as_str());
            r.append("/");
            r.append(sel.env.as_str());
            r.append("：处理 ");
            append_decimal(&mut r, summary.total as u64);
            r.append(" 个，变更 ");
            append_decimal(&mut r, summary.changed as u64);
            r.append(" 个。");
            r
        },
        Err(e) => {
            let mut r = "切换失败：".to_owned();
            r.append(e.as_str());
            r
        },
    }
}

} // verus!
