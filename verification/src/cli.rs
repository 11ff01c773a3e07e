//! Command-line values: the proxy mode and the arguments that override the
//! configuration file.

use std::path::PathBuf;
use vstd::prelude::*;

verus! {

/// How requests are routed: by the domain rules (`Auto`) or all through the
/// gateway (`Global`).
#[derive(Clone, Copy, Debug, PartialEq, Eq, Structural)]
pub enum ProxyMode {
    Auto,
    Global,
}

/// The proxy mode as the command line spells it.
#[derive(Clone, Copy, Debug, PartialEq, Eq, Structural)]
pub enum CliProxyMode {
    Auto,
    Global,
}

impl From<CliProxyMode> for ProxyMode {
    fn from(mode: CliProxyMode) -> (r: Self) {
        match mode {
            CliProxyMode::Auto => ProxyMode::Auto,
            CliProxyMode::Global => ProxyMode::Global,
        }
    }
}

impl vstd::std_specs::convert::FromSpecImpl<CliProxyMode> for ProxyMode {
    open spec fn obeys_from_spec() -> bool {
        true
    }

    open spec fn from_spec(mode: CliProxyMode) -> ProxyMode {
        match mode {
            CliProxyMode::Auto => ProxyMode::Auto,
            CliProxyMode::Global => ProxyMode::Global,
        }
    }
}

/// The other mode.
pub open spec fn other_mode(mode: ProxyMode) -> ProxyMode {
    match mode {
        ProxyMode::Auto => ProxyMode::Global,
        ProxyMode::Global => ProxyMode::Auto,
    }
}

/// The mode that a toggle switches to.
pub fn toggled(mode: ProxyMode) -> (r: ProxyMode)
    ensures
        r == other_mode(mode),
{
    match mode {
        ProxyMode::Auto => ProxyMode::Global,
        ProxyMode::Global => ProxyMode::Auto,
    }
}

/// Toggling always changes the mode, and toggling twice gives the mode back.
pub proof fn lemma_toggle_involution(mode: ProxyMode)
    ensures
        other_mode(mode) != mode,
        other_mode(other_mode(mode)) == mode,
{
}

/// The name of a mode, as the configuration file spells it.
pub fn mode_name(mode: ProxyMode) -> (r: &'static str)
    ensures
        r@ == match mode {
            ProxyMode::Auto => "auto"@,
            ProxyMode::Global => "global"@,
        },
{
    match mode {
        ProxyMode::Auto => "auto",
        ProxyMode::Global => "global",
    }
}

/// The values given on the command line; each one that is given overrides
/// the configuration file. The listen address is kept as text.
#[derive(Debug)]
pub struct Args {
    pub config: Option<PathBuf>,
    pub listen: Option<String>,
    pub gateway: Option<String>,
    pub basic_auth: Option<String>,
    pub buffer_size: Option<usize>,
    pub log_level: Option<String>,
    pub custom_domain_rules: Option<PathBuf>,
    pub proxy_mode: Option<ProxyMode>,
    pub verify_server_certificate: bool,
}

} // verus!
