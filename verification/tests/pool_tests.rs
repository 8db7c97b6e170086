//! Pool accounting: the capacity law and the settings built from a
//! configuration.

use webdis::config::{Config, RawConfig};
use webdis::pool::{create_pool, PoolState};

#[test]
fn test_pool_cap() {
    let mut p = PoolState::new(2);
    assert!(p.try_lease());
    assert!(p.try_lease());
    // at capacity: the next caller is refused and must wait
    assert!(!p.try_lease());
    assert_eq!(p.in_flight, 2);
    p.release();
    assert!(p.try_lease());
    assert_eq!(p.in_flight, 2);
}

#[test]
fn test_pool_zero_capacity() {
    let mut p = PoolState::new(0);
    assert!(!p.try_lease());
    assert_eq!(p.in_flight, 0);
}

fn raw() -> RawConfig {
    RawConfig {
        redis_host: None,
        redis_port: None,
        http_host: None,
        http_port: None,
        http_threads: None,
        threads: None,
        database: None,
        pool_size_per_thread: None,
        pool_size: None,
        daemonize: None,
        pidfile: None,
        websockets: None,
        ssl: None,
        acl: None,
        redis_auth: None,
        http_max_request_size: None,
        user: None,
        group: None,
        default_root: None,
        verbosity: None,
        logfile: None,
        log_fsync: None,
    }
}

#[test]
fn test_create_pool_defaults() {
    let config = Config::new(raw());
    let settings = create_pool(&config);
    // ten connections per thread, four threads
    assert_eq!(settings.size, 40);
    assert_eq!(settings.url, "redis://127.0.0.1:6379/0");
}

#[test]
fn test_create_pool_configured() {
    let mut r = raw();
    r.pool_size_per_thread = Some(12);
    r.http_threads = Some(6);
    let config = Config::new(r);
    let settings = create_pool(&config);
    assert_eq!(settings.size, 72);
}
