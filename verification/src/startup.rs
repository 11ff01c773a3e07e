//! Decisions taken once at startup: where the gateway credentials came from,
//! which warning that calls for, and which logging filter applies.

use vstd::prelude::*;

verus! {

/// The logging filter used when neither the settings nor `RUST_LOG` give one.
pub const DEFAULT_LOG_FILTER: &'static str = "ws2tcp_local=info";

/// Whether the credentials in use come from the `WS2TCP_LOCAL_BASIC_AUTH`
/// environment variable: not from the command line, none configured, and
/// the variable set.
pub fn basic_auth_from_environment(
    from_cli: bool,
    configured: bool,
    environment_set: bool,
) -> (r: bool)
    ensures
        r == (!from_cli && !configured && environment_set),
{
    !from_cli && !configured && environment_set
}

/// The warning to log about credentials that other users of the machine
/// may see: the command line's when they were given there, else the
/// environment's when they came from there, else none.
pub fn warn_if_basic_auth_may_leak(
    basic_auth_from_cli: bool,
    basic_auth_from_environment: bool,
) -> (r: Option<&'static str>)
    ensures
        basic_auth_from_cli ==> (r matches Some(m) && m@
            == "Basic Auth credentials supplied with --basic-auth may be exposed in shell history and process arguments; continuing startup"@),
        !basic_auth_from_cli && basic_auth_from_environment ==> (r matches Some(m) && m@
            == "Basic Auth credentials supplied through WS2TCP_LOCAL_BASIC_AUTH may be exposed in shell history or the process environment; continuing startup"@),
        !basic_auth_from_cli && !basic_auth_from_environment ==> r is None,
{
    if basic_auth_from_cli {
        Some(
            "Basic Auth credentials supplied with --basic-auth may be exposed in shell history and process arguments; continuing startup",
        )
    } else if basic_auth_from_environment {
        Some(
            "Basic Auth credentials supplied through WS2TCP_LOCAL_BASIC_AUTH may be exposed in shell history or the process environment; continuing startup",
        )
    } else {
        None
    }
}

/// The logging filter: the configured one, else the value of `RUST_LOG`,
/// else `DEFAULT_LOG_FILTER`.
pub fn log_filter(log_level: Option<&str>, rust_log: Option<String>) -> (r: String)
    ensures
        r@ == match log_level {
            Some(level) => level@,
            None => match rust_log {
                Some(env) => env@,
                None => DEFAULT_LOG_FILTER@,
            },
        },
{
    match log_level {
        Some(level) => level.to_owned(),
        None => match rust_log {
            Some(env) => env,
            None => DEFAULT_LOG_FILTER.to_owned(),
        },
    }
}

} // verus!
