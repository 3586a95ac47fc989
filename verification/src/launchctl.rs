use vstd::prelude::*;
use vstd::string::*;
use crate::apply::{spec_utf8_lossy, utf8_lossy};
use crate::text::{append_decimal, decimal, trim, trim_string};

verus! {

/// The value that `launchctl getenv` reported: its output, trimmed, when the
/// command succeeded and printed something other than white space.
pub open spec fn spec_launchctl_value(success: bool, stdout: Seq<u8>) -> Option<Seq<char>> {
    if !success {
        None
    } else {
        let v = trim(spec_utf8_lossy(stdout));
        if v.len() == 0 {
            None
        } else {
            Some(v)
        }
    }
}

/// Reads the answer of `launchctl getenv`.
pub fn launchctl_value(success: bool, stdout: &Vec<u8>) -> (r: Option<String>)
    ensures
        r.deep_view() == spec_launchctl_value(success, stdout@),
{
    if !success {
        return None;
    }
    let text = utf8_lossy(stdout);
    let v = trim_string(&text);
    if v.as_str().unicode_len() == 0 {
        None
    } else {
        Some(v)
    }
}

/// An integer as Rust prints it: its decimal digits, after `-` when negative.
pub open spec fn signed_decimal(n: int) -> Seq<char> {
    if n < 0 {
        seq!['-'] + decimal((-n) as nat)
    } else {
        decimal(n as nat)
    }
}

/// How an exit code prints with `{:?}`: `Some(<n>)`, or `None` when there is none.
pub open spec fn debug_exit_code(code: Option<i32>) -> Seq<char> {
    match code {
        Some(n) => "Some("@ + signed_decimal(n as int) + ")"@,
        None => "None"@,
    }
}

/// Prints an exit code the way `{:?}` prints an `Option<i32>`.
pub fn debug_exit_code_text(code: Option<i32>) -> (r: String)
    ensures
        r@ == debug_exit_code(code),
{
    proof {
        reveal_strlit("Some(");
        reveal_strlit(")");
        reveal_strlit("None");
    }
    match code {
        Some(n) => {
            let mut r = "Some(".to_owned();
            if n < 0 {
                r.append("-");
                proof {
                    reveal_strlit("-");
                }
                let m: u64 = (0i64 - (n as i64)) as u64;
                append_decimal(&mut r, m);
            } else {
                append_decimal(&mut r, n as u64);
            }
            r.append(")");
            r
        },
        None => "None".to_owned(),
    }
}

/// The output of a failed `launchctl setenv`: its standard error, or, when
/// that is empty, its standard output.
pub open spec fn setenv_output(stdout: Seq<u8>, stderr: Seq<u8>) -> Seq<char> {
    let m = if stderr.len() > 0 { spec_utf8_lossy(stderr) } else { Seq::<char>::empty() };
    if m.len() == 0 && stdout.len() > 0 {
        spec_utf8_lossy(stdout)
    } else {
        m
    }
}

/// The message of a failed `launchctl setenv` for `key`: the trimmed output,
/// or the exit code when the output is only white space.
pub open spec fn spec_setenv_failure(key: Seq<char>, code: Option<i32>, stdout: Seq<u8>, stderr: Seq<u8>) -> Seq<char> {
    let out = trim(setenv_output(stdout, stderr));
    let detail = if out.len() == 0 {
        "exit code "@ + debug_exit_code(code)
    } else {
        out
    };
    "launchctl setenv '"@ + key + "' failed: "@ + detail
}

/// Reports a failed `launchctl setenv`.
pub fn setenv_failure_message(key: &String, code: Option<i32>, stdout: &Vec<u8>, stderr: &Vec<u8>) -> (r: String)
    ensures
        r@ == spec_setenv_failure(key@, code, stdout@, stderr@),
{
    let mut message = String::new();
    if stderr.len() > 0 {
        let e = utf8_lossy(stderr);
        message.append(e.as_str());
    }
    if message.as_str().unicode_len() == 0 && stdout.len() > 0 {
        let o = utf8_lossy(stdout);
        message.append(o.as_str());
    }
    proof {
        let m = if stderr@.len() > 0 { spec_utf8_lossy(stderr@) } else { Seq::<char>::empty() };
        if stderr@.len() > 0 {
            assert(message@ =~= m || message@ =~= spec_utf8_lossy(stdout@));
        }
        assert(message@ =~= setenv_output(stdout@, stderr@));
    }
    let out = trim_string(&message);
    let detail = if out.as_str().unicode_len() == 0 {
        let mut d = "exit code ".to_owned();
        let c = debug_exit_code_text(code);
        d.append(c.as_str());
        d
    } else {
        out
    };
    let mut r = crate::text::concat3("launchctl setenv '", key.as_str(), "' failed: ");
    r.append(detail.as_str());
    r
}

} // verus!
