use base64::engine::general_purpose::STANDARD;
use base64::Engine;
use ws2tcp_local::domain_set::DomainSet;
use ws2tcp_local::routing_rules::parse_gfwlist;

#[test]
fn keeps_each_domain_once() {
    let mut set = DomainSet::new();
    assert!(set.is_empty());
    assert!(set.insert("b.example".to_owned()));
    assert!(set.insert("a.example".to_owned()));
    assert!(set.insert("c.example".to_owned()));
    assert!(!set.insert("b.example".to_owned()));
    assert_eq!(set.len(), 3);
    assert!(!set.is_empty());
    assert!(set.contains(&"a.example".to_owned()));
    assert!(set.contains(&"c.example".to_owned()));
    assert!(!set.contains(&"d.example".to_owned()));
    assert!(!set.contains(&"a.exampl".to_owned()));
    assert!(!set.contains(&String::new()));
}

#[test]
fn extends_and_copies() {
    let mut first = DomainSet::new();
    first.insert("x.example".to_owned());
    first.insert("y.example".to_owned());
    let mut second = DomainSet::new();
    second.insert("y.example".to_owned());
    second.insert("z.example".to_owned());
    let copy = first.copied();
    first.extend(second);
    assert_eq!(first.len(), 3);
    assert!(first.contains(&"z.example".to_owned()));
    assert_eq!(copy.len(), 2);
    assert!(!copy.contains(&"z.example".to_owned()));
}

#[test]
fn handles_a_full_size_gfwlist() {
    let mut text = String::from("[AutoProxy 0.2.9]\n! comment\n");
    for i in 0..6000 {
        text.push_str(&format!("||site{}.example{}\n", i, i % 7));
        text.push_str(&format!(".site{}.example{}\n", i, i % 7));
    }
    let encoded = STANDARD.encode(&text);
    let rules = parse_gfwlist(encoded.as_bytes()).unwrap();
    assert_eq!(rules.len(), 6000);
    assert!(rules.matches("www.site5999.example0"));
    assert!(rules.matches("site0.example0"));
    assert!(!rules.matches("site0.example1"));
}
