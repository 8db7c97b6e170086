//! The access-control evaluator: an ordered list of rules matched against
//! the peer's address and credentials, folded in declaration order — later
//! rules override earlier ones, and within a rule `enabled` overrides
//! `disabled`. The empty ruleset permits everything.

use vstd::prelude::*;

use crate::config::AclConfig;
use crate::seqs::{bytes_eq, eq_ignore_case, push_all};

use vstd::string::*;

verus! {

/// The UTF-8 bytes of a character string.
pub open spec fn utf8_bytes(s: Seq<char>) -> Seq<u8> {
    vstd::utf8::encode_utf8(s)
}

/// A CIDR subnet, held as plain values: address family, network address
/// bits, prefix length.
pub struct Subnet {
    pub v4: bool,
    pub addr: u128,
    pub prefix: u8,
}

/// A peer address in the same plain form.
pub struct PeerAddr {
    pub v4: bool,
    pub addr: u128,
}

impl Subnet {
    pub open spec fn wf(self) -> bool {
        if self.v4 {
            self.prefix <= 32 && self.addr < 0x100000000
        } else {
            self.prefix <= 128
        }
    }

    /// Membership: the peer shares the subnet's family and its first
    /// `prefix` address bits; a prefix past the address length compares the
    /// whole address.
    pub open spec fn contains_spec(self, p: PeerAddr) -> bool {
        self.v4 == p.v4 && (self.prefix == 0 || {
            let bits: u128 = if self.v4 {
                32
            } else {
                128
            };
            let sh: u128 = if self.prefix as u128 >= bits {
                0
            } else {
                (bits - self.prefix) as u128
            };
            (p.addr >> sh) == (self.addr >> sh)
        })
    }

    pub fn contains(&self, p: &PeerAddr) -> (r: bool)
        ensures
            r == self.contains_spec(*p),
    {
        if self.v4 != p.v4 {
            return false;
        }
        if self.prefix == 0 {
            return true;
        }
        let bits: u128 = if self.v4 {
            32
        } else {
            128
        };
        let sh: u128 = if self.prefix as u128 >= bits {
            0
        } else {
            bits - (self.prefix as u128)
        };
        (p.addr >> sh) == (self.addr >> sh)
    }
}

/// What a CIDR string denotes, if anything: family, network address bits,
/// prefix length. Named, not defined — the grammar is ipnet's.
pub uninterp spec fn subnet_of(s: Seq<char>) -> Option<(bool, u128, u8)>;

/// Relies on ipnet's `IpNet: FromStr`, `network` and `prefix_len`: a CIDR
/// string parses to its network address and a prefix no longer than the
/// address; `network` zeroes the host bits.
#[verifier::external_body]
fn parse_subnet(s: &str) -> (r: Option<Subnet>)
    ensures
        (match (r, subnet_of(s@)) {
            (Some(sn), Some((v4, addr, prefix))) => sn.v4 == v4 && sn.addr == addr && sn.prefix
                == prefix && sn.wf(),
            (None, None) => true,
            _ => false,
        }),
{
    match s.parse::<ipnet::IpNet>() {
        Ok(ipnet::IpNet::V4(n4)) => Some(
            Subnet { v4: true, addr: u32::from(n4.network()) as u128, prefix: n4.prefix_len() },
        ),
        Ok(ipnet::IpNet::V6(n6)) => Some(
            Subnet { v4: false, addr: u128::from(n6.network()), prefix: n6.prefix_len() },
        ),
        Err(_) => None,
    }
}

/// The base64 alphabet, digit by digit.
pub open spec fn b64_digit(d: u8) -> u8 {
    if d < 26 {
        (65 + d) as u8
    } else if d < 52 {
        (71 + d) as u8
    } else if d < 62 {
        ((d - 52) + 48) as u8
    } else if d == 62 {
        43u8
    } else {
        47u8
    }
}

/// Standard base64 with padding, three bytes to four digits.
pub open spec fn base64_of(s: Seq<u8>) -> Seq<u8>
    decreases s.len(),
{
    if s.len() == 0 {
        Seq::empty()
    } else if s.len() == 1 {
        seq![
            b64_digit(s[0] >> 2),
            b64_digit((s[0] & 3) << 4),
            61u8,
            61u8,
        ]
    } else if s.len() == 2 {
        seq![
            b64_digit(s[0] >> 2),
            b64_digit(((s[0] & 3) << 4) | (s[1] >> 4)),
            b64_digit((s[1] & 15) << 2),
            61u8,
        ]
    } else {
        seq![
            b64_digit(s[0] >> 2),
            b64_digit(((s[0] & 3) << 4) | (s[1] >> 4)),
            b64_digit(((s[1] & 15) << 2) | (s[2] >> 6)),
            b64_digit(s[2] & 63),
        ] + base64_of(s.skip(3))
    }
}

fn b64_digit_byte(d: u8) -> (r: u8)
    requires
        d < 64,
    ensures
        r == b64_digit(d),
{
    if d < 26 {
        65 + d
    } else if d < 52 {
        71 + d
    } else if d < 62 {
        (d - 52) + 48
    } else if d == 62 {
        43
    } else {
        47
    }
}

/// Encodes `s` in base64.
pub fn base64_encode(s: &[u8]) -> (r: Vec<u8>)
    ensures
        r@ == base64_of(s@),
{
    let n = s.len();
    let mut out: Vec<u8> = Vec::new();
    let mut i: usize = 0;
    proof {
        assert(s@.skip(0) =~= s@);
        assert(out@ + base64_of(s@.skip(0)) =~= base64_of(s@));
    }
    while n - i >= 3
        invariant
            n == s@.len(),
            0 <= i <= n,
            base64_of(s@) == out@ + base64_of(s@.skip(i as int)),
        decreases n - i,
    {
        let b0 = s[i];
        let b1 = s[i + 1];
        let b2 = s[i + 2];
        let ghost t = s@.skip(i as int);
        proof {
            assert(t[0] == b0 && t[1] == b1 && t[2] == b2);
            assert(b0 >> 2 < 64 && (b0 & 3) << 4 < 64 && b1 >> 4 < 16) by (bit_vector);
            assert(((b0 & 3) << 4) | (b1 >> 4) < 64 && ((b1 & 15) << 2) | (b2 >> 6) < 64 && (b2
                & 63) < 64) by (bit_vector);
        }
        out.push(b64_digit_byte(b0 >> 2));
        out.push(b64_digit_byte(((b0 & 3) << 4) | (b1 >> 4)));
        out.push(b64_digit_byte(((b1 & 15) << 2) | (b2 >> 6)));
        out.push(b64_digit_byte(b2 & 63));
        proof {
            assert(t.skip(3) =~= s@.skip(i as int + 3));
            assert(base64_of(t) =~= seq![
                b64_digit(b0 >> 2),
                b64_digit(((b0 & 3) << 4) | (b1 >> 4)),
                b64_digit(((b1 & 15) << 2) | (b2 >> 6)),
                b64_digit(b2 & 63),
            ] + base64_of(t.skip(3)));
            assert(base64_of(s@) =~= out@ + base64_of(s@.skip(i as int + 3)));
        }
        i += 3;
    }
    let ghost t = s@.skip(i as int);
    if n - i == 1 {
        let b0 = s[i];
        proof {
            assert(t[0] == b0);
            assert(b0 >> 2 < 64 && (b0 & 3) << 4 < 64) by (bit_vector);
        }
        out.push(b64_digit_byte(b0 >> 2));
        out.push(b64_digit_byte((b0 & 3) << 4));
        out.push(61);
        out.push(61);
        proof {
            assert(base64_of(t) =~= seq![b64_digit(b0 >> 2), b64_digit((b0 & 3) << 4), 61u8, 61u8]);
            assert(out@ =~= base64_of(s@));
        }
    } else if n - i == 2 {
        let b0 = s[i];
        let b1 = s[i + 1];
        proof {
            assert(t[0] == b0 && t[1] == b1);
            assert(b0 >> 2 < 64 && ((b0 & 3) << 4) | (b1 >> 4) < 64 && (b1 & 15) << 2 < 64)
                by (bit_vector);
        }
        out.push(b64_digit_byte(b0 >> 2));
        out.push(b64_digit_byte(((b0 & 3) << 4) | (b1 >> 4)));
        out.push(b64_digit_byte((b1 & 15) << 2));
        out.push(61);
        proof {
            assert(base64_of(t) =~= seq![
                b64_digit(b0 >> 2),
                b64_digit(((b0 & 3) << 4) | (b1 >> 4)),
                b64_digit((b1 & 15) << 2),
                61u8,
            ]);
            assert(out@ =~= base64_of(s@));
        }
    } else {
        proof {
            assert(t.len() == 0);
            assert(base64_of(t) =~= Seq::<u8>::empty());
            assert(out@ =~= base64_of(s@));
        }
    }
    out
}

/// The `Authorization` header value that matches a credential: `Basic `
/// followed by the credential's base64 form.
pub open spec fn basic_header(cred: Seq<u8>) -> Seq<u8> {
    seq![66u8, 97u8, 115u8, 105u8, 99u8, 32u8] + base64_of(cred)
}

/// One compiled rule: an optional subnet, the optional header value that the
/// credential requirement demands, and the two command lists.
pub struct AclRule {
    pub subnet: Option<Subnet>,
    pub auth_header: Option<Vec<u8>>,
    pub enabled: Vec<Vec<u8>>,
    pub disabled: Vec<Vec<u8>>,
}

/// The ordered ruleset.
pub struct Acl {
    pub rules: Vec<AclRule>,
}

/// A command list entry hits `cmd` when it is the wildcard `*` or equals it
/// ignoring ASCII case.
pub open spec fn list_has(l: Seq<Vec<u8>>, cmd: Seq<u8>) -> bool {
    exists|i: int| 0 <= i < l.len() && (l[i]@ == seq![42u8] || eq_ignore_case(l[i]@, cmd))
}

/// Whether a rule matches the peer: its subnet, if any, contains the
/// address, and its credential, if any, equals the presented header.
pub open spec fn rule_matches(r: AclRule, peer: PeerAddr, auth: Option<Seq<u8>>) -> bool {
    (match r.subnet {
        Some(sn) => sn.contains_spec(peer),
        None => true,
    }) && (match r.auth_header {
        Some(h) => (match auth {
            Some(a) => a == h@,
            None => false,
        }),
        None => true,
    })
}

/// One step of the fold: a matching rule first applies `disabled`, then
/// `enabled` on top of it; a rule that does not match changes nothing.
pub open spec fn rule_step(allowed: bool, r: AclRule, peer: PeerAddr, auth: Option<Seq<u8>>, cmd: Seq<u8>) -> bool {
    if rule_matches(r, peer, auth) {
        if list_has(r.enabled@, cmd) {
            true
        } else if list_has(r.disabled@, cmd) {
            false
        } else {
            allowed
        }
    } else {
        allowed
    }
}

/// The fold of the rules in declaration order, starting from `allowed`.
pub open spec fn acl_fold(allowed: bool, rules: Seq<AclRule>, peer: PeerAddr, auth: Option<Seq<u8>>, cmd: Seq<u8>) -> bool
    decreases rules.len(),
{
    if rules.len() == 0 {
        allowed
    } else {
        acl_fold(rule_step(allowed, rules[0], peer, auth, cmd), rules.drop_first(), peer, auth, cmd)
    }
}

/// The evaluator's answer: everything is enabled by default, then the rules
/// fold over it in order.
pub open spec fn acl_eval(rules: Seq<AclRule>, peer: PeerAddr, auth: Option<Seq<u8>>, cmd: Seq<u8>) -> bool {
    acl_fold(true, rules, peer, auth, cmd)
}

/// Order law: evaluating one more rule is one more fold step at the end —
/// the later rule has the last word.
pub proof fn lemma_acl_order(allowed: bool, rules: Seq<AclRule>, r: AclRule, peer: PeerAddr, auth: Option<Seq<u8>>, cmd: Seq<u8>)
    ensures
        acl_fold(allowed, rules.push(r), peer, auth, cmd) == rule_step(
            acl_fold(allowed, rules, peer, auth, cmd),
            r,
            peer,
            auth,
            cmd,
        ),
    decreases rules.len(),
{
    if rules.len() == 0 {
        assert(rules.push(r)[0] == r);
        assert(rules.push(r).drop_first() =~= Seq::<AclRule>::empty());
        assert(acl_fold(
            rule_step(allowed, r, peer, auth, cmd),
            Seq::<AclRule>::empty(),
            peer,
            auth,
            cmd,
        ) == rule_step(allowed, r, peer, auth, cmd));
        assert(acl_fold(allowed, rules, peer, auth, cmd) == allowed);
    } else {
        assert(rules.push(r)[0] == rules[0]);
        assert(rules.push(r).drop_first() =~= rules.drop_first().push(r));
        lemma_acl_order(
            rule_step(allowed, rules[0], peer, auth, cmd),
            rules.drop_first(),
            r,
            peer,
            auth,
            cmd,
        );
    }
}

pub open spec fn opt_bytes(a: Option<&Vec<u8>>) -> Option<Seq<u8>> {
    match a {
        Some(v) => Some(v@),
        None => None,
    }
}

/// How one compiled rule relates to the configuration entry it came from.
pub open spec fn rule_from_config(r: AclRule, c: AclConfig) -> bool {
    (match c.ip {
        Some(ip) => (match (r.subnet, subnet_of(ip@)) {
            (Some(sn), Some((v4, addr, prefix))) => sn.v4 == v4 && sn.addr == addr && sn.prefix
                == prefix && sn.wf(),
            (None, None) => true,
            _ => false,
        }),
        None => r.subnet is None,
    }) && (match c.http_basic_auth {
        Some(cred) => (match r.auth_header {
            Some(h) => h@ == basic_header(utf8_bytes(cred@)),
            None => false,
        }),
        None => r.auth_header is None,
    }) && (match c.enabled {
        Some(en) => r.enabled@.len() == en@.len() && (forall|i: int|
            0 <= i < en@.len() ==> r.enabled@[i]@ == utf8_bytes(en@[i]@)),
        None => r.enabled@.len() == 0,
    }) && (match c.disabled {
        Some(dis) => r.disabled@.len() == dis@.len() && (forall|i: int|
            0 <= i < dis@.len() ==> r.disabled@[i]@ == utf8_bytes(dis@[i]@)),
        None => r.disabled@.len() == 0,
    })
}

impl Acl {
    pub open spec fn wf(self) -> bool {
        forall|i: int|
            0 <= i < self.rules@.len() ==> (match #[trigger] self.rules@[i].subnet {
                Some(sn) => sn.wf(),
                None => true,
            })
    }

    /// Compiles the configured rules in order: each subnet string parsed,
    /// each credential turned into the header value it demands, the command
    /// lists carried over byte for byte.
    pub fn new(config: Option<Vec<AclConfig>>) -> (r: Acl)
        ensures
            r.wf(),
            (match config {
                Some(cs) => r.rules@.len() == cs@.len() && (forall|i: int|
                    0 <= i < cs@.len() ==> rule_from_config(#[trigger] r.rules@[i], cs@[i])),
                None => r.rules@.len() == 0,
            }),
    {
        let mut rules: Vec<AclRule> = Vec::new();
        match config {
            None => Acl { rules },
            Some(cs) => {
                let n = cs.len();
                let mut i: usize = 0;
                while i < n
                    invariant
                        n == cs@.len(),
                        0 <= i <= n,
                        rules@.len() == i,
                        forall|j: int|
                            0 <= j < i ==> rule_from_config(#[trigger] rules@[j], cs@[j]),
                        forall|j: int|
                            0 <= j < i ==> (match #[trigger] rules@[j].subnet {
                                Some(sn) => sn.wf(),
                                None => true,
                            }),
                    decreases n - i,
                {
                    let c = &cs[i];
                    let subnet = match &c.ip {
                        Some(ip) => parse_subnet(ip.as_str()),
                        None => None,
                    };
                    let auth_header = match &c.http_basic_auth {
                        Some(cred) => {
                            let mut h: Vec<u8> = Vec::new();
                            h.push(66);
                            h.push(97);
                            h.push(115);
                            h.push(105);
                            h.push(99);
                            h.push(32);
                            let e = base64_encode(cred.as_str().as_bytes());
                            push_all(&mut h, e.as_slice());
                            assert(h@ =~= basic_header(utf8_bytes(cred@)));
                            Some(h)
                        },
                        None => None,
                    };
                    let enabled = match &c.enabled {
                        Some(en) => copy_string_list(en),
                        None => Vec::new(),
                    };
                    let disabled = match &c.disabled {
                        Some(dis) => copy_string_list(dis),
                        None => Vec::new(),
                    };
                    rules.push(AclRule { subnet, auth_header, enabled, disabled });
                    i += 1;
                }
                Acl { rules }
            },
        }
    }

    /// The evaluator: folds the rules in order over "allowed", per the
    /// order law `acl_eval`.
    pub fn check(&self, peer: &PeerAddr, auth: Option<&Vec<u8>>, command: &[u8]) -> (r: bool)
        ensures
            r == acl_eval(self.rules@, *peer, opt_bytes(auth), command@),
    {
        let n = self.rules.len();
        let mut allowed = true;
        let mut i: usize = 0;
        proof {
            assert(self.rules@.skip(0) =~= self.rules@);
        }
        while i < n
            invariant
                n == self.rules@.len(),
                0 <= i <= n,
                acl_eval(self.rules@, *peer, opt_bytes(auth), command@) == acl_fold(
                    allowed,
                    self.rules@.skip(i as int),
                    *peer,
                    opt_bytes(auth),
                    command@,
                ),
            decreases n - i,
        {
            let rule = &self.rules[i];
            let subnet_ok = match &rule.subnet {
                Some(sn) => sn.contains(peer),
                None => true,
            };
            let auth_ok = match &rule.auth_header {
                Some(h) => match auth {
                    Some(a) => bytes_eq(a.as_slice(), h.as_slice()),
                    None => false,
                },
                None => true,
            };
            let ghost allowed0 = allowed;
            if subnet_ok && auth_ok {
                if list_contains(&rule.enabled, command) {
                    allowed = true;
                } else if list_contains(&rule.disabled, command) {
                    allowed = false;
                }
            }
            proof {
                assert(rule_step(allowed0, self.rules@[i as int], *peer, opt_bytes(auth), command@)
                    == allowed);
                assert(self.rules@.skip(i as int).drop_first() =~= self.rules@.skip(i as int + 1));
                assert(self.rules@.skip(i as int)[0] == self.rules@[i as int]);
            }
            i += 1;
        }
        proof {
            assert(self.rules@.skip(n as int).len() == 0);
        }
        allowed
    }
}

/// Copies a list of strings to byte strings.
fn copy_string_list(l: &Vec<String>) -> (r: Vec<Vec<u8>>)
    ensures
        r@.len() == l@.len(),
        forall|i: int| 0 <= i < l@.len() ==> r@[i]@ == utf8_bytes(l@[i]@),
{
    let n = l.len();
    let mut out: Vec<Vec<u8>> = Vec::new();
    let mut i: usize = 0;
    while i < n
        invariant
            n == l@.len(),
            0 <= i <= n,
            out@.len() == i,
            forall|j: int| 0 <= j < i ==> out@[j]@ == utf8_bytes(l@[j]@),
        decreases n - i,
    {
        out.push(l[i].as_str().as_bytes_vec());
        i += 1;
    }
    out
}

/// Whether any entry hits `cmd`: the wildcard, or a case-insensitive match.
fn list_contains(l: &Vec<Vec<u8>>, cmd: &[u8]) -> (r: bool)
    ensures
        r == list_has(l@, cmd@),
{
    let n = l.len();
    let mut i: usize = 0;
    while i < n
        invariant
            n == l@.len(),
            0 <= i <= n,
            forall|j: int|
                0 <= j < i ==> !(l@[j]@ == seq![42u8] || eq_ignore_case(l@[j]@, cmd@)),
        decreases n - i,
    {
        let e = &l[i];
        let star = e.len() == 1 && e[0] == 42;
        proof {
            if star {
                assert(e@ =~= seq![42u8]);
            } else {
                if e@.len() == 1 && e@[0] == 42 {
                    assert(false);
                }
            }
        }
        if star || crate::seqs::bytes_eq_ignore_case(e.as_slice(), cmd) {
            return true;
        }
        i += 1;
    }
    false
}

} // verus!
