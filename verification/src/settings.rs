//! The effective settings: command-line values over configuration-file
//! values over defaults.

use std::path::PathBuf;
use vstd::prelude::*;

use crate::cli::{Args, ProxyMode};
use crate::paths::{
    joined_path, parent_path, path_absolute, path_is_absolute, path_join, path_parent,
};

verus! {

/// The listen address used when neither the command line nor the file
/// gives one.
pub const DEFAULT_LISTEN: &'static str = "127.0.0.1:3128";

/// The read buffer size used when neither the command line nor the file
/// gives one.
pub const DEFAULT_BUFFER_SIZE: usize = 16384;

/// The values a TOML configuration file gives. Its listen address is kept
/// as text.
#[derive(Debug)]
pub struct FileSettings {
    pub listen: Option<String>,
    pub gateway: Option<String>,
    pub basic_auth: Option<String>,
    pub buffer_size: Option<usize>,
    pub log_level: Option<String>,
    pub custom_domain_rules: Option<PathBuf>,
    pub proxy_mode: Option<ProxyMode>,
    pub verify_server_certificate: Option<bool>,
}

impl Default for FileSettings {
    /// A file that gives no value.
    fn default() -> (r: Self)
        ensures
            r.listen is None,
            r.gateway is None,
            r.basic_auth is None,
            r.buffer_size is None,
            r.log_level is None,
            r.custom_domain_rules is None,
            r.proxy_mode is None,
            r.verify_server_certificate is None,
    {
        FileSettings {
            listen: None,
            gateway: None,
            basic_auth: None,
            buffer_size: None,
            log_level: None,
            custom_domain_rules: None,
            proxy_mode: None,
            verify_server_certificate: None,
        }
    }
}

/// The settings the proxy runs with. The listen address is kept as text.
#[derive(Debug)]
pub struct Settings {
    pub listen: String,
    pub gateway: String,
    pub basic_auth: Option<String>,
    pub buffer_size: usize,
    pub log_level: Option<String>,
    pub custom_domain_rules: Option<PathBuf>,
    pub proxy_mode: ProxyMode,
    pub verify_server_certificate: bool,
}

/// Why no settings could be resolved.
#[derive(Clone, Copy, Debug, PartialEq, Eq, Structural)]
pub enum SettingsError {
    /// Neither the command line nor the file gives a gateway.
    MissingGateway,
    /// The chosen buffer size is 0.
    ZeroBufferSize,
}

impl SettingsError {
    pub fn message(&self) -> (r: &'static str)
        ensures
            r@ == match self {
                SettingsError::MissingGateway => "--gateway is required unless provided by --config"@,
                SettingsError::ZeroBufferSize => "--buffer-size must be greater than 0"@,
            },
    {
        match self {
            SettingsError::MissingGateway => "--gateway is required unless provided by --config",
            SettingsError::ZeroBufferSize => "--buffer-size must be greater than 0",
        }
    }
}

/// The first of two optional values that is given (`Option::or`).
pub open spec fn first_given<T>(a: Option<T>, b: Option<T>) -> Option<T> {
    match a {
        Some(x) => Some(x),
        None => b,
    }
}

/// A path from the configuration file as it is used: kept when it is
/// absolute or when there is no configuration directory, otherwise joined to
/// that directory.
pub open spec fn config_relative(path: PathBuf, config_dir: Option<PathBuf>) -> PathBuf {
    if path_absolute(path) {
        path
    } else {
        match config_dir {
            Some(dir) => joined_path(dir, path),
            None => path,
        }
    }
}

/// The directory of the configuration file that `config` names, if any.
pub open spec fn config_dir_of(config: Option<PathBuf>) -> Option<PathBuf> {
    match config {
        Some(path) => parent_path(path),
        None => None,
    }
}

/// A custom rules path from the configuration file is taken from the
/// directory that holds that file, whatever the `--config` path is
/// (absolute or relative): an absolute rules path is kept, a relative one is
/// joined to the parent of the `--config` path when it has one.
pub proof fn lemma_file_rules_path_from_config_dir(rules: PathBuf, config: PathBuf)
    ensures
        config_dir_of(Some(config)) == parent_path(config),
        config_relative(rules, config_dir_of(Some(config))) == if path_absolute(rules) {
            rules
        } else {
            match parent_path(config) {
                Some(dir) => joined_path(dir, rules),
                None => rules,
            }
        },
{
}

/// A path from the configuration file, resolved against the file's directory
/// (see `config_relative`).
pub fn resolve_config_relative_path(path: PathBuf, config_dir: Option<&PathBuf>) -> (r: PathBuf)
    ensures
        r == config_relative(
            path,
            match config_dir {
                Some(dir) => Some(*dir),
                None => None,
            },
        ),
{
    if path_is_absolute(&path) {
        return path;
    }
    match config_dir {
        Some(dir) => path_join(dir, &path),
        None => path,
    }
}

impl Settings {
    /// The settings from the command line `args` and the values
    /// `file_settings` of the configuration file that `args.config` names
    /// (`FileSettings::default()` when it names none). Each value is the
    /// command line's, else the file's, else the default; a relative custom
    /// rules path from the file is resolved against the file's directory.
    pub fn resolve(args: Args, file_settings: FileSettings) -> (r: Result<Settings, SettingsError>)
        ensures
            (r matches Err(SettingsError::MissingGateway)) <==> (args.gateway is None
                && file_settings.gateway is None),
            (r matches Err(SettingsError::ZeroBufferSize)) <==> (first_given(
                args.gateway,
                file_settings.gateway,
            ) is Some && first_given(args.buffer_size, file_settings.buffer_size).unwrap_or(
                DEFAULT_BUFFER_SIZE,
            ) == 0),
            r matches Ok(s) ==> {
                &&& s.listen@ == match first_given(args.listen, file_settings.listen) {
                    Some(listen) => listen@,
                    None => DEFAULT_LISTEN@,
                }
                &&& Some(s.gateway) == first_given(args.gateway, file_settings.gateway)
                &&& s.basic_auth == first_given(args.basic_auth, file_settings.basic_auth)
                &&& s.buffer_size == first_given(
                    args.buffer_size,
                    file_settings.buffer_size,
                ).unwrap_or(DEFAULT_BUFFER_SIZE)
                &&& s.log_level == first_given(args.log_level, file_settings.log_level)
                &&& (args.custom_domain_rules is Some ==> s.custom_domain_rules
                    == args.custom_domain_rules)
                &&& (args.custom_domain_rules is None && file_settings.custom_domain_rules is Some
                    && args.config is Some && !path_absolute(file_settings.custom_domain_rules->0)
                    && parent_path(args.config->0) is Some ==> s.custom_domain_rules == Some(
                    joined_path(
                        parent_path(args.config->0)->0,
                        file_settings.custom_domain_rules->0,
                    ),
                ))
                &&& (args.custom_domain_rules is None ==> s.custom_domain_rules
                    == match file_settings.custom_domain_rules {
                    Some(path) => Some(config_relative(path, config_dir_of(args.config))),
                    None => None,
                })
                &&& s.proxy_mode == first_given(args.proxy_mode, file_settings.proxy_mode).unwrap_or(
                    ProxyMode::Global,
                )
                &&& s.verify_server_certificate == (args.verify_server_certificate
                    || file_settings.verify_server_certificate == Some(true))
            },
    {
        let config_dir = match &args.config {
            Some(path) => path_parent(path),
            None => None,
        };
        let listen = match args.listen {
            Some(listen) => listen,
            None => match file_settings.listen {
                Some(listen) => listen,
                None => DEFAULT_LISTEN.to_owned(),
            },
        };
        let gateway = match args.gateway {
            Some(gateway) => gateway,
            None => match file_settings.gateway {
                Some(gateway) => gateway,
                None => return Err(SettingsError::MissingGateway),
            },
        };
        let buffer_size = match args.buffer_size {
            Some(size) => size,
            None => match file_settings.buffer_size {
                Some(size) => size,
                None => DEFAULT_BUFFER_SIZE,
            },
        };
        if buffer_size == 0 {
            return Err(SettingsError::ZeroBufferSize);
        }
        let basic_auth = match args.basic_auth {
            Some(auth) => Some(auth),
            None => file_settings.basic_auth,
        };
        let log_level = match args.log_level {
            Some(level) => Some(level),
            None => file_settings.log_level,
        };
        let custom_domain_rules = match args.custom_domain_rules {
            Some(path) => Some(path),
            None => match file_settings.custom_domain_rules {
                Some(path) => Some(resolve_config_relative_path(path, config_dir.as_ref())),
                None => None,
            },
        };
        let proxy_mode = match args.proxy_mode {
            Some(mode) => mode,
            None => match file_settings.proxy_mode {
                Some(mode) => mode,
                None => ProxyMode::Global,
            },
        };
        let verify_server_certificate = if args.verify_server_certificate {
            true
        } else {
            match file_settings.verify_server_certificate {
                Some(verify) => verify,
                None => false,
            }
        };
        Ok(
            Settings {
                listen,
                gateway,
                basic_auth,
                buffer_size,
                log_level,
                custom_domain_rules,
                proxy_mode,
                verify_server_certificate,
            },
        )
    }
}

} // verus!
