use std::path::{Path, PathBuf};
use ws2tcp_local::cli::{Args, ProxyMode};
use ws2tcp_local::settings::{
    resolve_config_relative_path, FileSettings, Settings, SettingsError, DEFAULT_BUFFER_SIZE,
    DEFAULT_LISTEN,
};

fn args_with_config(config: Option<std::path::PathBuf>) -> Args {
    Args {
        config,
        listen: None,
        gateway: None,
        basic_auth: None,
        buffer_size: None,
        log_level: None,
        custom_domain_rules: None,
        proxy_mode: None,
        verify_server_certificate: false,
    }
}

#[test]
fn rejects_missing_gateway() {
    assert!(Settings::resolve(args_with_config(None), FileSettings::default()).is_err());
}

#[test]
fn resolves_cli_only_settings() {
    let settings = Settings::resolve(
        Args {
            config: None,
            listen: Some("127.0.0.1:9000".parse().unwrap()),
            gateway: Some("wss://example.com/ws".to_owned()),
            basic_auth: Some("user:pass".to_owned()),
            buffer_size: Some(4096),
            log_level: Some("debug".to_owned()),
            custom_domain_rules: Some("cli-domains.txt".into()),
            proxy_mode: Some(ProxyMode::Global),
            verify_server_certificate: true,
        },
        FileSettings::default(),
    )
    .unwrap();

    assert_eq!(settings.listen, "127.0.0.1:9000".parse::<String>().unwrap());
    assert_eq!(settings.gateway, "wss://example.com/ws");
    assert_eq!(settings.basic_auth.as_deref(), Some("user:pass"));
    assert_eq!(settings.buffer_size, 4096);
    assert_eq!(settings.log_level.as_deref(), Some("debug"));
    assert_eq!(
        settings.custom_domain_rules.as_deref(),
        Some(Path::new("cli-domains.txt"))
    );
    assert_eq!(settings.proxy_mode, ProxyMode::Global);
    assert!(settings.verify_server_certificate);
}

#[test]
fn disables_server_certificate_verification_by_default() {
    let settings = Settings::resolve(
        Args {
            config: None,
            listen: None,
            gateway: Some("wss://example.com/ws".to_owned()),
            basic_auth: None,
            buffer_size: None,
            log_level: None,
            custom_domain_rules: None,
            proxy_mode: None,
            verify_server_certificate: false,
        },
        FileSettings::default(),
    )
    .unwrap();

    assert!(!settings.verify_server_certificate);
}

#[test]
fn uses_global_proxy_mode_by_default() {
    let settings = Settings::resolve(
        Args {
            config: None,
            listen: None,
            gateway: Some("wss://example.com/ws".to_owned()),
            basic_auth: None,
            buffer_size: None,
            log_level: None,
            custom_domain_rules: None,
            proxy_mode: None,
            verify_server_certificate: false,
        },
        FileSettings::default(),
    )
    .unwrap();

    assert_eq!(settings.proxy_mode, ProxyMode::Global);
}

fn file_values() -> FileSettings {
    FileSettings {
        listen: Some("127.0.0.1:8000".to_owned()),
        gateway: Some("wss://file.example/ws".to_owned()),
        basic_auth: Some("file:secret".to_owned()),
        buffer_size: Some(1024),
        log_level: Some("info".to_owned()),
        custom_domain_rules: Some("file-domains.txt".into()),
        proxy_mode: Some(ProxyMode::Auto),
        verify_server_certificate: Some(true),
    }
}

#[test]
fn cli_values_override_file_values() {
    let settings = Settings::resolve(
        Args {
            config: Some(PathBuf::from("/etc/ws2tcp-local/local.toml")),
            listen: Some("127.0.0.1:9000".to_owned()),
            gateway: Some("wss://cli.example/ws".to_owned()),
            basic_auth: Some("cli:secret".to_owned()),
            buffer_size: Some(2048),
            log_level: Some("debug".to_owned()),
            custom_domain_rules: Some("cli-domains.txt".into()),
            proxy_mode: Some(ProxyMode::Global),
            verify_server_certificate: false,
        },
        file_values(),
    )
    .unwrap();

    assert_eq!(settings.listen, "127.0.0.1:9000");
    assert_eq!(settings.gateway, "wss://cli.example/ws");
    assert_eq!(settings.basic_auth.as_deref(), Some("cli:secret"));
    assert_eq!(settings.buffer_size, 2048);
    assert_eq!(settings.log_level.as_deref(), Some("debug"));
    assert_eq!(
        settings.custom_domain_rules.as_deref(),
        Some(Path::new("cli-domains.txt"))
    );
    assert_eq!(settings.proxy_mode, ProxyMode::Global);
    assert!(settings.verify_server_certificate);
}

#[test]
fn file_values_fill_what_the_cli_leaves_out() {
    let settings = Settings::resolve(
        args_with_config(Some(PathBuf::from("/etc/ws2tcp-local/local.toml"))),
        file_values(),
    )
    .unwrap();

    assert_eq!(settings.listen, "127.0.0.1:8000");
    assert_eq!(settings.gateway, "wss://file.example/ws");
    assert_eq!(settings.basic_auth.as_deref(), Some("file:secret"));
    assert_eq!(settings.buffer_size, 1024);
    assert_eq!(settings.log_level.as_deref(), Some("info"));
    assert_eq!(
        settings.custom_domain_rules.as_deref(),
        Some(Path::new("/etc/ws2tcp-local/file-domains.txt"))
    );
    assert_eq!(settings.proxy_mode, ProxyMode::Auto);
    assert!(settings.verify_server_certificate);
}

#[test]
fn defaults_when_nothing_is_given() {
    let mut args = args_with_config(None);
    args.gateway = Some("ws://1.2.3.4:8000".to_owned());
    let settings = Settings::resolve(args, FileSettings::default()).unwrap();
    assert_eq!(settings.listen, DEFAULT_LISTEN);
    assert_eq!(settings.listen, "127.0.0.1:3128");
    assert_eq!(settings.buffer_size, DEFAULT_BUFFER_SIZE);
    assert_eq!(settings.buffer_size, 16384);
    assert_eq!(settings.basic_auth, None);
    assert_eq!(settings.log_level, None);
    assert_eq!(settings.custom_domain_rules, None);
}

#[test]
fn settings_errors() {
    let err = Settings::resolve(args_with_config(None), FileSettings::default()).unwrap_err();
    assert_eq!(err, SettingsError::MissingGateway);

    let mut args = args_with_config(None);
    args.gateway = Some("ws://gw".to_owned());
    args.buffer_size = Some(0);
    let err = Settings::resolve(args, file_values()).unwrap_err();
    assert_eq!(err, SettingsError::ZeroBufferSize);

    let mut file = file_values();
    file.buffer_size = Some(0);
    let err = Settings::resolve(args_with_config(None), file).unwrap_err();
    assert_eq!(err, SettingsError::ZeroBufferSize);
}

#[test]
fn resolves_relative_paths_against_config_dir() {
    let dir = PathBuf::from("/srv/conf");
    assert_eq!(
        resolve_config_relative_path(PathBuf::from("rules.txt"), Some(&dir)),
        PathBuf::from("/srv/conf/rules.txt")
    );
    assert_eq!(
        resolve_config_relative_path(PathBuf::from("/abs/rules.txt"), Some(&dir)),
        PathBuf::from("/abs/rules.txt")
    );
    assert_eq!(
        resolve_config_relative_path(PathBuf::from("rules.txt"), None),
        PathBuf::from("rules.txt")
    );
}
