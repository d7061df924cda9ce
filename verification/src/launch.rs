//! Launching an engine and waiting for it.
//!
//! The launch command is a plain shell command, so that it works with any engine on any platform.

use crate::text::{joined, trim_slashes, without_slashes};
use vstd::prelude::*;

verus! {

/// The shell of a platform, and the flag behind which it takes a command.
pub fn shell(windows: bool) -> (res: (&'static str, &'static str))
    ensures
        res.0@ == (if windows {
            "cmd"@
        } else {
            "sh"@
        }),
        res.1@ == (if windows {
            "/C"@
        } else {
            "-c"@
        }),
{
    if windows {
        ("cmd", "/C")
    } else {
        ("sh", "-c")
    }
}

/// Where an engine is asked whether it is ready.
pub fn ready_url(base_url: &str) -> (res: String)
    ensures
        res@ == without_slashes(base_url@) + "/v1/models"@,
{
    joined(trim_slashes(base_url).as_str(), "/v1/models")
}

/// How often an engine is asked, in milliseconds.
pub const POLL_MS: u64 = 500;

/// How long an engine may take to be ready, in seconds.
pub const READY_TIMEOUT_SECS: u64 = 180;

/// What to do after an engine was asked whether it is ready.
#[derive(Debug, Clone, Copy, PartialEq, Eq, Structural)]
pub enum Wait {
    /// It is.
    Ready,
    /// It is not; ask again in a while.
    Again,
    /// It is not, and it is too late.
    TimedOut,
}

/// An engine that answers is ready, even if it is late; one that does not is asked again until
/// the deadline.
pub fn wait_ready(answered: bool, past_deadline: bool) -> (res: Wait)
    ensures
        res == (if answered {
            Wait::Ready
        } else if past_deadline {
            Wait::TimedOut
        } else {
            Wait::Again
        }),
{
    if answered {
        Wait::Ready
    } else if past_deadline {
        Wait::TimedOut
    } else {
        Wait::Again
    }
}

/// What is said when an engine did not become ready in time.
pub fn timeout_error(cmd: &str, url: &str, timeout: &str) -> (res: String)
    ensures
        res@ == "engine '"@ + cmd@ + "' did not become ready at "@ + url@ + " within "@ + timeout@,
{
    let mut message = joined("engine '", cmd);
    message.append("' did not become ready at ");
    message.append(url);
    message.append(" within ");
    message.append(timeout);
    message
}

/// An engine that answers is ready, late or not; one that does not is waited for until the deadline,
/// and no longer.
pub proof fn lemma_waiting_ends(answered: bool, past_deadline: bool, res: Wait)
    requires
        call_ensures(wait_ready, (answered, past_deadline), res),
    ensures
        res == Wait::Ready <==> answered,
        res == Wait::Again <==> !answered && !past_deadline,
        res == Wait::TimedOut <==> !answered && past_deadline,
{
}

/// A command is run by the shell of the platform, and an engine is ready where its models can be
/// listed.
pub proof fn lemma_engines_are_launched(
    windows: bool,
    by: (&'static str, &'static str),
    base_url: &str,
    bare: String,
    url: String,
)
    requires
        call_ensures(shell, (windows,), by),
        call_ensures(trim_slashes, (base_url,), bare),
        call_ensures(ready_url, (base_url,), url),
    ensures
        windows ==> by.0@ == "cmd"@ && by.1@ == "/C"@,
        !windows ==> by.0@ == "sh"@ && by.1@ == "-c"@,
        url@ == bare@ + "/v1/models"@,
{
}

} // verus!
