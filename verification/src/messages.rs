use vstd::prelude::*;
use crate::text::{concat3, concat5, concat7};

verus! {

pub open spec fn msg_group_required() -> Seq<char> {
    "group name is required"@
}

pub open spec fn msg_env_required() -> Seq<char> {
    "environment name is required"@
}

pub open spec fn msg_group_exists(name: Seq<char>) -> Seq<char> {
    "group '"@ + name + "' already exists"@
}

pub open spec fn msg_group_not_found(name: Seq<char>) -> Seq<char> {
    "group '"@ + name + "' not found"@
}

pub open spec fn msg_env_not_found(env: Seq<char>, group: Seq<char>) -> Seq<char> {
    "environment '"@ + env + "' not found in group '"@ + group + "'"@
}

pub open spec fn msg_env_exists(env: Seq<char>, group: Seq<char>) -> Seq<char> {
    "environment '"@ + env + "' already exists in group '"@ + group + "'"@
}

pub open spec fn msg_var_reused(key: Seq<char>, owner: Seq<char>, group: Seq<char>) -> Seq<char> {
    "variable '"@ + key + "' is already used in group '"@ + owner + "', cannot reuse in group '"@
        + group + "'"@
}

pub open spec fn msg_persistent_only() -> Seq<char> {
    "Clicky only supports persistent mode; reopen target processes after applying"@
}

pub open spec fn msg_target_group_required() -> Seq<char> {
    "target_group is required for into_group mode"@
}

pub open spec fn msg_applied() -> Seq<char> {
    "persisted for new processes"@
}

/// The description given to a group created on the fly.
pub open spec fn group_description(name: Seq<char>) -> Seq<char> {
    name + " group"@
}

/// The description given to an environment created on the fly.
pub open spec fn env_description(name: Seq<char>) -> Seq<char> {
    name + " environment"@
}

pub fn group_required_message() -> (r: String)
    ensures
        r@ == msg_group_required(),
{
    "group name is required".to_owned()
}

pub fn env_required_message() -> (r: String)
    ensures
        r@ == msg_env_required(),
{
    "environment name is required".to_owned()
}

pub fn group_exists_message(name: &String) -> (r: String)
    ensures
        r@ == msg_group_exists(name@),
{
    concat3("group '", name.as_str(), "' already exists")
}

pub fn group_not_found_message(name: &String) -> (r: String)
    ensures
        r@ == msg_group_not_found(name@),
{
    concat3("group '", name.as_str(), "' not found")
}

pub fn env_not_found_message(env: &String, group: &String) -> (r: String)
    ensures
        r@ == msg_env_not_found(env@, group@),
{
    concat5("environment '", env.as_str(), "' not found in group '", group.as_str(), "'")
}

pub fn env_exists_message(env: &String, group: &String) -> (r: String)
    ensures
        r@ == msg_env_exists(env@, group@),
{
    concat5("environment '", env.as_str(), "' already exists in group '", group.as_str(), "'")
}

pub fn var_reused_message(key: &String, owner: &String, group: &String) -> (r: String)
    ensures
        r@ == msg_var_reused(key@, owner@, group@),
{
    concat7(
        "variable '",
        key.as_str(),
        "' is already used in group '",
        owner.as_str(),
        "', cannot reuse in group '",
        group.as_str(),
        "'",
    )
}

pub fn persistent_only_message() -> (r: String)
    ensures
        r@ == msg_persistent_only(),
{
    "Clicky only supports persistent mode; reopen target processes after applying".to_owned()
}

pub fn target_group_required_message() -> (r: String)
    ensures
        r@ == msg_target_group_required(),
{
    "target_group is required for into_group mode".to_owned()
}

pub fn applied_message() -> (r: String)
    ensures
        r@ == msg_applied(),
{
    "persisted for new processes".to_owned()
}

pub fn group_description_text(name: &String) -> (r: String)
    ensures
        r@ == group_description(name@),
{
    let mut r = name.clone();
    r.append(" group");
    r
}

pub fn env_description_text(name: &String) -> (r: String)
    ensures
        r@ == env_description(name@),
{
    let mut r = name.clone();
    r.append(" environment");
    r
}

} // verus!
