use base64::engine::general_purpose::STANDARD;
use base64::Engine;
use std::path::PathBuf;
use ws2tcp_local::routing_rules::{
    host_from_authority, is_domain_like, normalize_host_for_match, parse_custom_domain_rule_domain,
    parse_custom_domain_rules_text, parse_decoded_gfwlist, parse_gfwlist, parse_gfwlist_text,
    parse_proxy_rule_domain, parse_rule_sources, strip_ascii_whitespace, AuthorityError,
    DomainRules, GfwlistError, RoutingRules, GFWLIST_URL,
};

#[test]
fn parses_gfwlist_domain_rules() {
    let text = "\
! comment
||example.com
||example.net/path
||example.org^
||example.edu$third-party
||wild*.blocked.test
.leading-dot.example
|http://ignored.example
";
    let encoded = STANDARD.encode(text);
    let rules = parse_gfwlist(encoded.as_bytes()).unwrap();

    assert!(rules.matches("example.com"));
    assert!(rules.matches("www.example.com"));
    assert!(rules.matches("example.net"));
    assert!(rules.matches("a.example.org"));
    assert!(rules.matches("example.edu"));
    assert!(rules.matches("www.leading-dot.example"));
    assert!(!rules.matches("wild.blocked.test"));
    assert!(!rules.matches("ignored.example"));
}

#[test]
fn matches_case_insensitively_and_on_suffix_boundary() {
    let rules = parse_gfwlist_text("||example.com\n").unwrap();

    assert!(rules.matches("WWW.Example.Com."));
    assert!(!rules.matches("badexample.com"));
}

#[test]
fn parses_custom_domain_rules() {
    let domains = parse_custom_domain_rules_text(
        "\
# One Squid dstdomain entry per line.
.paypal.com
.www.paypal.com

.googleadservices.com # inline comment
127.0.0.1
bad:domain
",
    );
    let rules = DomainRules::new(domains).unwrap();

    assert!(rules.matches("paypal.com"));
    assert!(rules.matches("checkout.paypal.com"));
    assert!(rules.matches("www.paypal.com"));
    assert!(rules.matches("pagead.googleadservices.com"));
    assert!(!rules.matches("127.0.0.1"));
    assert!(!rules.matches("bad:domain"));
}

#[test]
fn extracts_host_from_authority() {
    assert_eq!(
        host_from_authority("example.com:443").unwrap(),
        "example.com"
    );
    assert_eq!(
        host_from_authority("[2001:db8::1]:443").unwrap(),
        "2001:db8::1"
    );
}

#[test]
fn authority_errors() {
    assert_eq!(
        host_from_authority("[2001:db8::1]").unwrap_err(),
        AuthorityError::Ipv6WithoutPort
    );
    assert_eq!(
        host_from_authority("example.com").unwrap_err(),
        AuthorityError::MissingPort
    );
    assert_eq!(host_from_authority("a:b:443").unwrap(), "a:b");
    assert_eq!(host_from_authority(":443").unwrap(), "");
    assert_eq!(host_from_authority("[x]]:1").unwrap(), "x]");
}

#[test]
fn normalizes_hosts() {
    assert_eq!(normalize_host_for_match("  WWW.Example.COM.  "), "www.example.com");
    assert_eq!(normalize_host_for_match("..a.b.."), "a.b");
    assert_eq!(normalize_host_for_match("\u{3000}Ab\t"), "ab");
    assert_eq!(normalize_host_for_match("Ä.Com"), "Ä.com");
    assert_eq!(normalize_host_for_match(""), "");
}

#[test]
fn recognizes_domain_like_text() {
    assert!(is_domain_like("example.com"));
    assert!(is_domain_like("a-b.c1"));
    assert!(is_domain_like("1.2.3"));
    assert!(is_domain_like("1.2.3.4.5"));
    assert!(is_domain_like("256.1.1.1"));
    assert!(is_domain_like("01.1.1.1"));
    assert!(!is_domain_like(""));
    assert!(!is_domain_like("127.0.0.1"));
    assert!(!is_domain_like("255.255.255.255"));
    assert!(!is_domain_like("0.0.0.0"));
    assert!(!is_domain_like("bad:domain"));
    assert!(!is_domain_like("under_score.com"));
    assert!(!is_domain_like("ümlaut.de"));
}

#[test]
fn parses_single_rule_lines() {
    assert_eq!(
        parse_proxy_rule_domain("||Example.COM/path").as_deref(),
        Some("example.com")
    );
    assert_eq!(
        parse_proxy_rule_domain(".a.b.c^x").as_deref(),
        Some("a.b.c")
    );
    assert_eq!(
        parse_proxy_rule_domain("||.dots.example..$x").as_deref(),
        Some("dots.example")
    );
    assert_eq!(parse_proxy_rule_domain("|http://x.example"), None);
    assert_eq!(parse_proxy_rule_domain("@@||x.example"), None);
    assert_eq!(parse_proxy_rule_domain("||a*.example"), None);
    assert_eq!(parse_proxy_rule_domain("||1.2.3.4"), None);
    assert_eq!(parse_proxy_rule_domain("||"), None);
    assert_eq!(
        parse_custom_domain_rule_domain("  .Paypal.com # note").as_deref(),
        Some("paypal.com")
    );
    assert_eq!(parse_custom_domain_rule_domain("# .paypal.com"), None);
    assert_eq!(parse_custom_domain_rule_domain("   "), None);
}

#[test]
fn splits_lines_like_str_lines() {
    let domains = parse_custom_domain_rules_text("a.example\r\nb.example\rc.example\nd.example");
    let rules = DomainRules::new(domains).unwrap();
    assert_eq!(rules.len(), 2);
    assert!(rules.matches("a.example"));
    assert!(!rules.matches("b.example"));
    assert!(!rules.matches("c.example"));
    assert!(rules.matches("d.example"));
}

#[test]
fn gfwlist_errors() {
    assert!(matches!(
        parse_gfwlist(b"not base64!"),
        Err(GfwlistError::Decode)
    ));
    let invalid_utf8 = STANDARD.encode([0xffu8, 0xfe, 0xfd]);
    assert!(matches!(
        parse_gfwlist(invalid_utf8.as_bytes()),
        Err(GfwlistError::NotUtf8)
    ));
    let no_rules = STANDARD.encode("! only a comment\n|http://x.example\n");
    assert!(matches!(
        parse_gfwlist(no_rules.as_bytes()),
        Err(GfwlistError::NoUsableDomains)
    ));
    assert!(matches!(
        parse_decoded_gfwlist(vec![0xc3, 0x28]),
        Err(GfwlistError::NotUtf8)
    ));
    assert!(DomainRules::new(parse_custom_domain_rules_text("# nothing\n")).is_err());
}

#[test]
fn gfwlist_body_may_hold_line_breaks() {
    let encoded = STANDARD.encode("||wrapped.example\n||second.example\n");
    let (head, tail) = encoded.split_at(8);
    let body = format!(" {}\r\n{}\n", head, tail);
    assert_eq!(strip_ascii_whitespace(body.as_bytes()), encoded.as_bytes());
    let rules = parse_gfwlist(body.as_bytes()).unwrap();
    assert_eq!(rules.len(), 2);
    assert!(rules.matches("x.wrapped.example"));
}

#[test]
fn merges_custom_rules_into_gfwlist() {
    let encoded = STANDARD.encode("||example.com\n||shared.example\n");
    let rules = parse_rule_sources(
        encoded.as_bytes(),
        Some(".paypal.com\nshared.example\n"),
    )
    .unwrap();
    assert_eq!(rules.len(), 3);
    assert!(rules.matches("www.paypal.com"));
    assert!(rules.matches("example.com"));
    let only_gfwlist = parse_rule_sources(encoded.as_bytes(), None).unwrap();
    assert_eq!(only_gfwlist.len(), 2);
    assert!(!only_gfwlist.matches("paypal.com"));
    assert!(matches!(
        parse_rule_sources(b"%%%", Some(".paypal.com\n")),
        Err(GfwlistError::Decode)
    ));
}

#[test]
fn extends_rules_with_union() {
    let mut rules = parse_gfwlist_text("||a.example\n||b.example\n").unwrap();
    rules.extend(parse_custom_domain_rules_text("b.example\nc.example\n"));
    assert_eq!(rules.len(), 3);
    assert!(rules.matches("c.example"));
    assert!(rules.matches("a.example"));
}

#[test]
fn subdomains_of_matching_hosts_match() {
    let rules = parse_gfwlist_text("||example.com\n").unwrap();
    assert!(rules.matches("example.com"));
    assert!(rules.matches("a.example.com"));
    assert!(rules.matches("b.a.example.com"));
    assert!(rules.matches("EXAMPLE.com"));
    assert!(!rules.matches("com"));
    assert!(!rules.matches(""));
    assert!(!rules.matches("..."));
    assert!(!rules.matches("example.com.evil"));
}

#[test]
fn routes_by_rules_or_all_directly() {
    let rules = parse_gfwlist_text("||example.com\n").unwrap();
    let routing = RoutingRules::loaded(Some(rules), None);
    assert!(routing.should_proxy_host("www.example.com"));
    assert!(!routing.should_proxy_host("example.org"));
    assert_eq!(routing.mode(), "gfwlist");
    assert_eq!(
        routing.describe(),
        format!("1 domains from {}", GFWLIST_URL)
    );

    let direct = RoutingRules::loaded(None, Some(PathBuf::from("custom.txt")));
    assert!(!direct.should_proxy_host("example.org"));
    assert!(!direct.should_proxy_host("www.example.com"));
    assert!(!direct.should_proxy_host(""));
    assert_eq!(direct.mode(), "direct");
    assert_eq!(
        direct.describe(),
        format!("no domains via proxy; failed to load {}", GFWLIST_URL)
    );
}

#[test]
fn describes_custom_rule_path() {
    let text: String = (0..12).map(|i| format!("||d{}.example\n", i)).collect();
    let rules = parse_gfwlist_text(&text).unwrap();
    let routing = RoutingRules::loaded(Some(rules), Some(PathBuf::from("custom-domains.txt")));
    assert_eq!(
        routing.describe(),
        format!(
            "12 domains from {} plus custom rules from custom-domains.txt",
            GFWLIST_URL
        )
    );
}

#[test]
fn normalization_and_rules_ignore_case() {
    let rules = parse_gfwlist_text("||Example.COM\n").unwrap();
    assert!(rules.matches("WWW.EXAMPLE.COM"));
    assert!(rules.matches("www.example.com"));
    assert_eq!(
        parse_proxy_rule_domain("||x.example"),
        parse_proxy_rule_domain(".x.example")
    );
    assert_eq!(
        parse_proxy_rule_domain("||X.EXAMPLE/A"),
        parse_proxy_rule_domain("||x.example/a")
    );
    assert_eq!(normalize_host_for_match(". a"), " a");
    assert_eq!(normalize_host_for_match("A.B"), normalize_host_for_match("a.b"));
    assert_eq!(
        parse_custom_domain_rule_domain("x.example#anything"),
        parse_custom_domain_rule_domain("x.example")
    );
}
