use dns_auto_routes::name::DomainName;

fn name(s: &str) -> DomainName {
    DomainName::parse(s).expect("name should parse")
}

#[test]
fn zone_of_is_reflexive() {
    let z = name("corp.example.com");
    assert!(z.is_zone_of(&z));
    let root = name("");
    assert!(root.is_zone_of(&root));
}

#[test]
fn zone_matches_subdomain_and_itself() {
    let z = name("corp.example.com");
    assert!(z.is_zone_of(&name("vpn.corp.example.com")));
    assert!(z.is_zone_of(&name("corp.example.com")));
    assert!(z.is_zone_of(&name("a.b.corp.example.com")));
}

#[test]
fn zone_does_not_match_lookalike() {
    let z = name("corp.example.com");
    assert!(!z.is_zone_of(&name("notcorp.example.com")));
    assert!(!z.is_zone_of(&name("example.com")));
    assert!(!z.is_zone_of(&name("corp.example.org")));
    assert!(!z.is_zone_of(&name("corp.example.com.evil.net")));
}

#[test]
fn zone_matching_is_case_insensitive() {
    let z = name("CORP.Example.COM");
    assert!(z.is_zone_of(&name("vpn.corp.example.com")));
    assert!(z.same_name(&name("corp.example.com")));
}

#[test]
fn trailing_dot_is_normalized() {
    let a = name("corp.example.com.");
    let b = name("corp.example.com");
    assert!(a.same_name(&b));
    assert_eq!(a.label_count(), 3);
}

#[test]
fn root_is_zone_of_everything() {
    let root = name("");
    assert!(root.is_zone_of(&name("corp.example.com")));
    let dot = name(".");
    assert_eq!(dot.label_count(), 0);
}

#[test]
fn parse_rejects_empty_labels_and_non_ascii() {
    assert!(DomainName::parse("a..b").is_none());
    assert!(DomainName::parse(".a").is_none());
    assert!(DomainName::parse("a.b..").is_none());
    assert!(DomainName::parse("caf\u{e9}.example.com").is_none());
}

#[test]
fn hyphens_and_digits_are_kept() {
    let n = name("host-1.Example.com");
    assert_eq!(n.to_host_string(), "host-1.example.com");
    assert!(name("example.com").is_zone_of(&n));
}

#[test]
fn host_string_is_canonical() {
    let n = name("VPN.Corp.Example.Com.");
    assert_eq!(n.to_host_string(), "vpn.corp.example.com");
    let root = name("");
    assert_eq!(root.to_host_string(), "");
}

#[test]
fn duplicate_preserves_the_name() {
    let n = name("edge.cdn.net");
    let d = n.duplicate();
    assert!(d.same_name(&n));
    assert_eq!(d.to_host_string(), "edge.cdn.net");
}
