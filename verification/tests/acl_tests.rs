//! The access-control evaluator: rule order, wildcards, credentials and
//! subnets.

use webdis::acl::{base64_encode, Acl, PeerAddr};
use webdis::config::AclConfig;

fn v4(a: u8, b: u8, c: u8, d: u8) -> PeerAddr {
    PeerAddr {
        v4: true,
        addr: ((a as u128) << 24) | ((b as u128) << 16) | ((c as u128) << 8) | (d as u128),
    }
}

fn rule(
    ip: Option<&str>,
    auth: Option<&str>,
    enabled: Option<Vec<&str>>,
    disabled: Option<Vec<&str>>,
) -> AclConfig {
    AclConfig {
        ip: ip.map(|s| s.to_string()),
        http_basic_auth: auth.map(|s| s.to_string()),
        enabled: enabled.map(|v| v.into_iter().map(|s| s.to_string()).collect()),
        disabled: disabled.map(|v| v.into_iter().map(|s| s.to_string()).collect()),
    }
}

#[test]
fn test_empty_ruleset_allows() {
    let acl = Acl::new(None);
    assert!(acl.check(&v4(127, 0, 0, 1), None, b"FLUSHALL"));
}

#[test]
fn test_acl_restrictions() {
    // one rule disabling DEBUG, one re-enabling it behind a credential
    let acl = Acl::new(Some(vec![
        rule(None, None, None, Some(vec!["DEBUG"])),
        rule(None, Some("user:password"), Some(vec!["DEBUG"]), None),
    ]));
    let peer = v4(127, 0, 0, 1);
    assert!(!acl.check(&peer, None, b"DEBUG"));
    let header = b"Basic dXNlcjpwYXNzd29yZA==".to_vec();
    assert!(acl.check(&peer, Some(&header), b"DEBUG"));
    // a wrong credential leaves the rule unmatched
    let wrong = b"Basic dXNlcjp3cm9uZw==".to_vec();
    assert!(!acl.check(&peer, Some(&wrong), b"DEBUG"));
    // other commands stay allowed without credentials
    assert!(acl.check(&peer, None, b"GET"));
}

#[test]
fn test_base64_encoding() {
    assert_eq!(base64_encode(b"user:password"), b"dXNlcjpwYXNzd29yZA==");
    assert_eq!(base64_encode(b""), b"");
    assert_eq!(base64_encode(b"a"), b"YQ==");
    assert_eq!(base64_encode(b"ab"), b"YWI=");
    assert_eq!(base64_encode(b"abc"), b"YWJj");
}

#[test]
fn test_acl_case_insensitive_and_wildcard() {
    let acl = Acl::new(Some(vec![rule(None, None, None, Some(vec!["debug"]))]));
    let peer = v4(10, 0, 0, 1);
    assert!(!acl.check(&peer, None, b"DEBUG"));
    assert!(!acl.check(&peer, None, b"Debug"));
    assert!(acl.check(&peer, None, b"GET"));

    let deny_all = Acl::new(Some(vec![rule(None, None, None, Some(vec!["*"]))]));
    assert!(!deny_all.check(&peer, None, b"GET"));
}

#[test]
fn test_acl_order_later_rule_wins() {
    // disabled first, enabled afterwards: the later rule has the last word
    let acl = Acl::new(Some(vec![
        rule(None, None, None, Some(vec!["*"])),
        rule(None, None, Some(vec!["GET"]), None),
    ]));
    let peer = v4(10, 0, 0, 1);
    assert!(acl.check(&peer, None, b"GET"));
    assert!(!acl.check(&peer, None, b"SET"));

    // within one rule, enabled overrides disabled
    let acl2 = Acl::new(Some(vec![rule(None, None, Some(vec!["GET"]), Some(vec!["GET"]))]));
    assert!(acl2.check(&peer, None, b"GET"));
}

#[test]
fn test_acl_subnet_match() {
    let acl = Acl::new(Some(vec![rule(
        Some("127.0.0.0/8"),
        None,
        None,
        Some(vec!["*"]),
    )]));
    assert!(!acl.check(&v4(127, 0, 0, 1), None, b"GET"));
    assert!(!acl.check(&v4(127, 255, 0, 7), None, b"GET"));
    assert!(acl.check(&v4(10, 0, 0, 1), None, b"GET"));
    // a peer of the other family never matches a v4 subnet
    let v6peer = PeerAddr { v4: false, addr: 1 };
    assert!(acl.check(&v6peer, None, b"GET"));
    // an IPv6 subnet matches IPv6 peers only
    let acl6 = Acl::new(Some(vec![rule(Some("fd00::/8"), None, None, Some(vec!["*"]))]));
    let in6 = PeerAddr { v4: false, addr: 0xfd00 << 112 | 1 };
    let out6 = PeerAddr { v4: false, addr: 0x2001 << 112 | 1 };
    assert!(!acl6.check(&in6, None, b"GET"));
    assert!(acl6.check(&out6, None, b"GET"));
    // an unparseable subnet leaves the rule matching everyone
    let acl2 = Acl::new(Some(vec![rule(
        Some("not-a-subnet"),
        None,
        None,
        Some(vec!["GET"]),
    )]));
    assert!(!acl2.check(&v4(10, 0, 0, 1), None, b"GET"));
}
