use ws2tcp_local::cli::{mode_name, toggled, CliProxyMode, ProxyMode};
use ws2tcp_local::startup::{
    basic_auth_from_environment, log_filter, warn_if_basic_auth_may_leak,
};

#[test]
fn toggles_between_auto_and_global() {
    assert_eq!(toggled(ProxyMode::Auto), ProxyMode::Global);
    assert_eq!(toggled(ProxyMode::Global), ProxyMode::Auto);
}

#[test]
fn toggling_twice_restores_the_mode() {
    assert_eq!(toggled(toggled(ProxyMode::Auto)), ProxyMode::Auto);
    assert_eq!(toggled(toggled(ProxyMode::Global)), ProxyMode::Global);
}

#[test]
fn names_modes_and_converts_cli_modes() {
    assert_eq!(mode_name(ProxyMode::Auto), "auto");
    assert_eq!(mode_name(ProxyMode::Global), "global");
    assert_eq!(ProxyMode::from(CliProxyMode::Auto), ProxyMode::Auto);
    assert_eq!(ProxyMode::from(CliProxyMode::Global), ProxyMode::Global);
}

#[test]
fn chooses_basic_auth_warning() {
    assert!(warn_if_basic_auth_may_leak(true, true)
        .unwrap()
        .contains("--basic-auth"));
    assert!(warn_if_basic_auth_may_leak(false, true)
        .unwrap()
        .contains("WS2TCP_LOCAL_BASIC_AUTH"));
    assert_eq!(warn_if_basic_auth_may_leak(false, false), None);
    assert!(basic_auth_from_environment(false, false, true));
    assert!(!basic_auth_from_environment(true, false, true));
    assert!(!basic_auth_from_environment(false, true, true));
    assert!(!basic_auth_from_environment(false, false, false));
}

#[test]
fn chooses_log_filter() {
    assert_eq!(log_filter(Some("debug"), Some("trace".to_owned())), "debug");
    assert_eq!(log_filter(None, Some("trace".to_owned())), "trace");
    assert_eq!(log_filter(None, None), "ws2tcp_local=info");
}
