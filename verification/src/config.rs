//! Gateway configuration: the recognized options, their defaults, the legacy
//! aliases, the backend URL they determine, and the default configuration
//! document.
//!
//! Reading and deserializing a configuration file is I/O and stays outside
//! the library; it hands in a `RawConfig` of plain optional values, and
//! `Config::new` applies the defaulting and aliasing rules to it.

use vstd::prelude::*;

use vstd::string::*;

use crate::json::{JsonPair, JVal, Json};

verus! {

pub const DEFAULT_HTTP_THREADS: usize = 4;

pub const DEFAULT_POOL_SIZE_PER_THREAD: usize = 10;

pub const DEFAULT_HTTP_MAX_REQUEST_SIZE: usize = 128 * 1024 * 1024;

pub const DEFAULT_VERBOSITY: usize = 4;

pub const DEFAULT_DATABASE: u8 = 0;

/// TLS settings for the backend connection.
#[derive(Clone)]
pub struct SslConfig {
    pub enabled: bool,
    pub ca_cert_bundle: String,
    pub path_to_certs: Option<String>,
    pub client_cert: String,
    pub client_key: String,
    pub redis_sni: Option<String>,
}

/// One access-control entry as configured.
#[derive(Clone)]
pub struct AclConfig {
    pub disabled: Option<Vec<String>>,
    pub enabled: Option<Vec<String>>,
    pub http_basic_auth: Option<String>,
    pub ip: Option<String>,
}

/// Backend credentials: a single legacy password, or a user and password
/// pair.
#[derive(Clone)]
pub enum RedisAuthConfig {
    Legacy(String),
    ACL(Vec<String>),
}

/// How often the log file is flushed to disk.
#[derive(Clone)]
pub enum LogFsyncMode {
    Auto,
    All,
}

#[derive(Clone)]
pub enum LogFsync {
    Mode(LogFsyncMode),
    Millis(u64),
}

/// The configuration exactly as a file states it: every option absent or
/// present, the legacy aliases still under their own names.
#[derive(Clone)]
pub struct RawConfig {
    pub redis_host: Option<String>,
    pub redis_port: Option<u16>,
    pub http_host: Option<String>,
    pub http_port: Option<u16>,
    pub http_threads: Option<usize>,
    pub threads: Option<usize>,
    pub database: Option<u8>,
    pub pool_size_per_thread: Option<usize>,
    pub pool_size: Option<usize>,
    pub daemonize: Option<bool>,
    pub pidfile: Option<String>,
    pub websockets: Option<bool>,
    pub ssl: Option<SslConfig>,
    pub acl: Option<Vec<AclConfig>>,
    pub redis_auth: Option<RedisAuthConfig>,
    pub http_max_request_size: Option<usize>,
    pub user: Option<String>,
    pub group: Option<String>,
    pub default_root: Option<String>,
    pub verbosity: Option<usize>,
    pub logfile: Option<String>,
    pub log_fsync: Option<LogFsync>,
}

/// The settled configuration.
#[derive(Clone)]
pub struct Config {
    pub redis_host: String,
    pub redis_port: u16,
    pub http_host: String,
    pub http_port: u16,
    pub http_threads: Option<usize>,
    pub legacy_http_threads: Option<usize>,
    pub database: u8,
    pub pool_size_per_thread: Option<usize>,
    pub legacy_pool_size_per_thread: Option<usize>,
    pub daemonize: bool,
    pub pidfile: Option<String>,
    pub websockets: bool,
    pub ssl: Option<SslConfig>,
    pub acl: Option<Vec<AclConfig>>,
    pub redis_auth: Option<RedisAuthConfig>,
    pub http_max_request_size: Option<usize>,
    pub user: Option<String>,
    pub group: Option<String>,
    pub default_root: Option<String>,
    pub verbosity: Option<usize>,
    pub logfile: Option<String>,
    pub log_fsync: Option<LogFsync>,
}

pub fn default_redis_host() -> (r: String)
    ensures
        r@ == ("127.0.0.1")@,
{
    String::from_str("127.0.0.1")
}

pub fn default_redis_port() -> (r: u16)
    ensures
        r == 6379,
{
    6379
}

pub fn default_http_host() -> (r: String)
    ensures
        r@ == ("0.0.0.0")@,
{
    String::from_str("0.0.0.0")
}

pub fn default_http_port() -> (r: u16)
    ensures
        r == 7379,
{
    7379
}

impl Config {
    /// Settles a raw configuration: hosts, ports and counters get their
    /// defaults where the file was silent, and the legacy aliases are
    /// applied.
    pub fn new(raw: RawConfig) -> (r: Config)
        ensures
            r.redis_host@ == (match raw.redis_host {
                Some(h) => h@,
                None => ("127.0.0.1")@,
            }),
            r.redis_port == (match raw.redis_port {
                Some(p) => p,
                None => 6379u16,
            }),
            r.http_host@ == (match raw.http_host {
                Some(h) => h@,
                None => ("0.0.0.0")@,
            }),
            r.http_port == (match raw.http_port {
                Some(p) => p,
                None => 7379u16,
            }),
            r.database == (match raw.database {
                Some(d) => d,
                None => DEFAULT_DATABASE,
            }),
            r.daemonize == (match raw.daemonize {
                Some(b) => b,
                None => false,
            }),
            r.websockets == (match raw.websockets {
                Some(b) => b,
                None => false,
            }),
            r.http_threads == (if raw.http_threads is Some {
                raw.http_threads
            } else {
                raw.threads
            }),
            r.pool_size_per_thread == (if raw.pool_size_per_thread is Some {
                raw.pool_size_per_thread
            } else {
                raw.pool_size
            }),
            r.legacy_http_threads is None,
            r.legacy_pool_size_per_thread is None,
            r.pidfile == raw.pidfile,
            r.ssl == raw.ssl,
            r.acl == raw.acl,
            r.redis_auth == raw.redis_auth,
            r.http_max_request_size == raw.http_max_request_size,
            r.user == raw.user,
            r.group == raw.group,
            r.default_root == raw.default_root,
            r.verbosity == raw.verbosity,
            r.logfile == raw.logfile,
            r.log_fsync == raw.log_fsync,
    {
        let mut c = Config {
            redis_host: match raw.redis_host {
                Some(h) => h,
                None => default_redis_host(),
            },
            redis_port: match raw.redis_port {
                Some(p) => p,
                None => default_redis_port(),
            },
            http_host: match raw.http_host {
                Some(h) => h,
                None => default_http_host(),
            },
            http_port: match raw.http_port {
                Some(p) => p,
                None => default_http_port(),
            },
            http_threads: raw.http_threads,
            legacy_http_threads: raw.threads,
            database: match raw.database {
                Some(d) => d,
                None => DEFAULT_DATABASE,
            },
            pool_size_per_thread: raw.pool_size_per_thread,
            legacy_pool_size_per_thread: raw.pool_size,
            daemonize: match raw.daemonize {
                Some(b) => b,
                None => false,
            },
            pidfile: raw.pidfile,
            websockets: match raw.websockets {
                Some(b) => b,
                None => false,
            },
            ssl: raw.ssl,
            acl: raw.acl,
            redis_auth: raw.redis_auth,
            http_max_request_size: raw.http_max_request_size,
            user: raw.user,
            group: raw.group,
            default_root: raw.default_root,
            verbosity: raw.verbosity,
            logfile: raw.logfile,
            log_fsync: raw.log_fsync,
        };
        c.apply_legacy_aliases();
        c
    }

    /// The legacy names count only while the canonical ones are absent, and
    /// are cleared either way.
    pub fn apply_legacy_aliases(&mut self)
        ensures
            final(self).http_threads == (if old(self).http_threads is Some {
                old(self).http_threads
            } else {
                old(self).legacy_http_threads
            }),
            final(self).pool_size_per_thread == (if old(self).pool_size_per_thread is Some {
                old(self).pool_size_per_thread
            } else {
                old(self).legacy_pool_size_per_thread
            }),
            final(self).legacy_http_threads is None,
            final(self).legacy_pool_size_per_thread is None,
            final(self).redis_host == old(self).redis_host,
            final(self).redis_port == old(self).redis_port,
            final(self).http_host == old(self).http_host,
            final(self).http_port == old(self).http_port,
            final(self).database == old(self).database,
            final(self).daemonize == old(self).daemonize,
            final(self).pidfile == old(self).pidfile,
            final(self).websockets == old(self).websockets,
            final(self).ssl == old(self).ssl,
            final(self).acl == old(self).acl,
            final(self).redis_auth == old(self).redis_auth,
            final(self).http_max_request_size == old(self).http_max_request_size,
            final(self).user == old(self).user,
            final(self).group == old(self).group,
            final(self).default_root == old(self).default_root,
            final(self).verbosity == old(self).verbosity,
            final(self).logfile == old(self).logfile,
            final(self).log_fsync == old(self).log_fsync,
    {
        if self.http_threads.is_none() && self.legacy_http_threads.is_some() {
            self.http_threads = self.legacy_http_threads.take();
        } else {
            self.legacy_http_threads = None;
        }
        if self.pool_size_per_thread.is_none() && self.legacy_pool_size_per_thread.is_some() {
            self.pool_size_per_thread = self.legacy_pool_size_per_thread.take();
        } else {
            self.legacy_pool_size_per_thread = None;
        }
    }

    /// The backend URL the configuration determines: scheme by TLS,
    /// credentials as configured, then host, port and database index.
    pub fn get_redis_url(&self) -> (r: String)
        ensures
            r@ == redis_url_text(*self),
    {
        let mut s = String::new();
        match &self.ssl {
            Some(ssl) if ssl.enabled => {
                s.append("rediss");
            },
            _ => {
                s.append("redis");
            },
        }
        s.append("://");
        match &self.redis_auth {
            Some(RedisAuthConfig::Legacy(password)) => {
                s.append(":");
                s.append(password.as_str());
                s.append("@");
            },
            Some(RedisAuthConfig::ACL(creds)) => {
                if creds.len() == 2 {
                    s.append(creds[0].as_str());
                    s.append(":");
                    s.append(creds[1].as_str());
                    s.append("@");
                }
            },
            None => {},
        }
        s.append(self.redis_host.as_str());
        s.append(":");
        push_dec_chars(&mut s, self.redis_port as u64);
        s.append("/");
        push_dec_chars(&mut s, self.database as u64);
        proof {
            assert(s@ =~= redis_url_text(*self));
        }
        s
    }

    /// The default configuration document: the keys a default configuration
    /// carries, in the documented order, unset options omitted, with a
    /// schema reference in front.
    pub fn default_document(schema_ref: &str) -> (r: Json)
        ensures
            r@ == JVal::Obj(default_document_entries(schema_ref.spec_bytes())),
    {
        let mut ps: Vec<JsonPair> = Vec::new();
        ps.push(JsonPair { key: ("$schema").as_bytes_vec(), val: Json::Str(schema_ref.as_bytes_vec()) });
        ps.push(JsonPair { key: ("redis_host").as_bytes_vec(), val: Json::Str(("127.0.0.1").as_bytes_vec()) });
        ps.push(JsonPair { key: ("redis_port").as_bytes_vec(), val: Json::Int(6379) });
        ps.push(JsonPair { key: ("http_host").as_bytes_vec(), val: Json::Str(("0.0.0.0").as_bytes_vec()) });
        ps.push(JsonPair { key: ("http_port").as_bytes_vec(), val: Json::Int(7379) });
        ps.push(JsonPair { key: ("http_threads").as_bytes_vec(), val: Json::Int(4) });
        ps.push(JsonPair { key: ("pool_size_per_thread").as_bytes_vec(), val: Json::Int(10) });
        ps.push(JsonPair { key: ("database").as_bytes_vec(), val: Json::Int(0) });
        ps.push(JsonPair { key: ("daemonize").as_bytes_vec(), val: Json::Bool(false) });
        ps.push(JsonPair { key: ("websockets").as_bytes_vec(), val: Json::Bool(false) });
        ps.push(JsonPair { key: ("http_max_request_size").as_bytes_vec(), val: Json::Int(134217728) });
        ps.push(JsonPair { key: ("verbosity").as_bytes_vec(), val: Json::Int(4) });
        let r = Json::Obj(ps);
        proof {
            let entries = default_document_entries(schema_ref.spec_bytes());
            let got = (match r@ {
                JVal::Obj(e) => e,
                _ => Seq::empty(),
            });
            crate::json::lemma_pair_views_len(
                (match r {
                    Json::Obj(ref v) => v@,
                    _ => Seq::empty(),
                }),
            );
            assert forall|i: int| 0 <= i < got.len() implies got[i] == entries[i] by {
                crate::json::lemma_pair_views_index(
                    (match r {
                        Json::Obj(ref v) => v@,
                        _ => Seq::empty(),
                    }),
                    i,
                );
            }
            assert(got =~= entries);
        }
        r
    }
}

/// The members of the default configuration document, in order.
pub open spec fn default_document_entries(schema: Seq<u8>) -> Seq<(Seq<u8>, JVal)> {
    seq![
        (("$schema").spec_bytes(), JVal::Str(schema)),
        (("redis_host").spec_bytes(), JVal::Str(("127.0.0.1").spec_bytes())),
        (("redis_port").spec_bytes(), JVal::Int(6379)),
        (("http_host").spec_bytes(), JVal::Str(("0.0.0.0").spec_bytes())),
        (("http_port").spec_bytes(), JVal::Int(7379)),
        (("http_threads").spec_bytes(), JVal::Int(4)),
        (("pool_size_per_thread").spec_bytes(), JVal::Int(10)),
        (("database").spec_bytes(), JVal::Int(0)),
        (("daemonize").spec_bytes(), JVal::Bool(false)),
        (("websockets").spec_bytes(), JVal::Bool(false)),
        (("http_max_request_size").spec_bytes(), JVal::Int(134217728)),
        (("verbosity").spec_bytes(), JVal::Int(4)),
    ]
}

impl Default for Config {
    /// The built-in defaults: local backend, all interfaces, four threads of
    /// ten connections each, web features off.
    fn default() -> (r: Config)
        ensures
            r.redis_host@ == ("127.0.0.1")@,
            r.redis_port == 6379,
            r.http_host@ == ("0.0.0.0")@,
            r.http_port == 7379,
            r.http_threads == Some(DEFAULT_HTTP_THREADS),
            r.legacy_http_threads is None,
            r.database == DEFAULT_DATABASE,
            r.pool_size_per_thread == Some(DEFAULT_POOL_SIZE_PER_THREAD),
            r.legacy_pool_size_per_thread is None,
            !r.daemonize,
            r.pidfile is None,
            !r.websockets,
            r.ssl is None,
            r.acl is None,
            r.redis_auth is None,
            r.http_max_request_size == Some(DEFAULT_HTTP_MAX_REQUEST_SIZE),
            r.user is None,
            r.group is None,
            r.default_root is None,
            r.verbosity == Some(DEFAULT_VERBOSITY),
            r.logfile is None,
            r.log_fsync is None,
    {
        Config {
            redis_host: default_redis_host(),
            redis_port: default_redis_port(),
            http_host: default_http_host(),
            http_port: default_http_port(),
            http_threads: Some(DEFAULT_HTTP_THREADS),
            legacy_http_threads: None,
            database: DEFAULT_DATABASE,
            pool_size_per_thread: Some(DEFAULT_POOL_SIZE_PER_THREAD),
            legacy_pool_size_per_thread: None,
            daemonize: false,
            pidfile: None,
            websockets: false,
            ssl: None,
            acl: None,
            redis_auth: None,
            http_max_request_size: Some(DEFAULT_HTTP_MAX_REQUEST_SIZE),
            user: None,
            group: None,
            default_root: None,
            verbosity: Some(DEFAULT_VERBOSITY),
            logfile: None,
            log_fsync: None,
        }
    }
}

/// The decimal digit `n % 10` as a character.
pub open spec fn digit_char(n: nat) -> char {
    ((48 + (n % 10)) as u8) as char
}

/// Decimal rendering of a natural number as characters.
pub open spec fn dec_chars(n: nat) -> Seq<char>
    decreases n,
{
    if n < 10 {
        seq![digit_char(n)]
    } else {
        dec_chars(n / 10).push(digit_char(n))
    }
}

/// The scheme the configuration selects.
pub open spec fn scheme_text(c: Config) -> Seq<char> {
    if (match c.ssl {
        Some(s) => s.enabled,
        None => false,
    }) {
        ("rediss")@
    } else {
        ("redis")@
    }
}

/// The credential part of the URL, empty when none applies.
pub open spec fn auth_text(c: Config) -> Seq<char> {
    match c.redis_auth {
        Some(RedisAuthConfig::Legacy(p)) => (":")@ + p@ + ("@")@,
        Some(RedisAuthConfig::ACL(creds)) => if creds@.len() == 2 {
            creds@[0]@ + (":")@ + creds@[1]@ + ("@")@
        } else {
            Seq::empty()
        },
        None => Seq::empty(),
    }
}

/// The whole backend URL as characters.
pub open spec fn redis_url_text(c: Config) -> Seq<char> {
    scheme_text(c) + ("://")@ + auth_text(c) + c.redis_host@ + (":")@ + dec_chars(
        c.redis_port as nat,
    ) + ("/")@ + dec_chars(c.database as nat)
}

fn digit_str(d: u8) -> (r: &'static str)
    requires
        d < 10,
    ensures
        r@ == seq![digit_char(d as nat)],
{
    proof {
        reveal_strlit("0");
        reveal_strlit("1");
        reveal_strlit("2");
        reveal_strlit("3");
        reveal_strlit("4");
        reveal_strlit("5");
        reveal_strlit("6");
        reveal_strlit("7");
        reveal_strlit("8");
        reveal_strlit("9");
    }
    let r: &'static str = if d == 0 {
        "0"
    } else if d == 1 {
        "1"
    } else if d == 2 {
        "2"
    } else if d == 3 {
        "3"
    } else if d == 4 {
        "4"
    } else if d == 5 {
        "5"
    } else if d == 6 {
        "6"
    } else if d == 7 {
        "7"
    } else if d == 8 {
        "8"
    } else {
        "9"
    };
    proof {
        assert(r@ =~= seq![digit_char(d as nat)]);
    }
    r
}

/// Appends the decimal digits of `n` as characters.
fn push_dec_chars(s: &mut String, n: u64)
    ensures
        final(s)@ == old(s)@ + dec_chars(n as nat),
    decreases n,
{
    if n < 10 {
        s.append(digit_str(n as u8));
        assert(s@ =~= old(s)@ + dec_chars(n as nat));
    } else {
        push_dec_chars(s, n / 10);
        s.append(digit_str((n % 10) as u8));
        assert(s@ =~= old(s)@ + dec_chars(n as nat));
    }
}

} // verus!
