use std::time::Duration;

use tokio_web_demo::blockers::BlockersForm;
use tokio_web_demo::channel::Channel;
use tokio_web_demo::cpu_loadgen::load_step;
use tokio_web_demo::rediskeys::{keys_from_db0, RedisKeys};
use tokio_web_demo::sleeper::Sleeper;
use tokio_web_demo::text::{is_on_flag, is_true_flag, parse_u64};

#[test]
fn blockers_flag_is_case_insensitive() {
    let form = |s: Option<&str>| BlockersForm {
        tasks: 1,
        time: 1,
        spawn_blocking: s.map(|x| x.to_string()),
    };
    assert!(!form(None).spawn_blocking());
    assert!(form(Some("on")).spawn_blocking());
    assert!(form(Some("ON")).spawn_blocking());
    assert!(form(Some("TrUe")).spawn_blocking());
    assert!(form(Some("1")).spawn_blocking());
    assert!(!form(Some("off")).spawn_blocking());
    assert!(!form(Some("0")).spawn_blocking());
}

#[test]
fn flag_words() {
    assert!(is_on_flag("On"));
    assert!(!is_on_flag("yes"));
    assert!(is_true_flag("TRUE"));
    assert!(is_true_flag("1"));
    assert!(!is_true_flag("on"));
    assert!(!is_true_flag("false"));
}

#[test]
fn decimal_parsing() {
    assert_eq!(parse_u64(b"2048"), Some(2048));
    assert_eq!(parse_u64(b"0"), Some(0));
    assert_eq!(parse_u64(b""), None);
    assert_eq!(parse_u64(b"12a"), None);
    assert_eq!(parse_u64(b"+1"), None);
    assert_eq!(parse_u64(b"18446744073709551615"), Some(u64::MAX));
    assert_eq!(parse_u64(b"18446744073709551616"), None);
}

#[test]
fn keyspace_line_parsing() {
    assert_eq!(keys_from_db0(b"keys=123,expires=0,avg_ttl=0"), 123);
    assert_eq!(keys_from_db0(b"keys=123"), 0);
    assert_eq!(keys_from_db0(b"nokeys,x=1"), 0);
    assert_eq!(keys_from_db0(b"keys=abc,x=1"), 0);
    assert_eq!(keys_from_db0(b"keys=18446744073709551616,x"), 0);
    assert_eq!(keys_from_db0(b""), 0);
}

#[test]
fn load_step_values() {
    assert_eq!(load_step(0), 0);
    assert_eq!(load_step(1), 1338);
    assert_eq!(load_step(2), 2678);
    assert_eq!(load_step(u128::MAX), u128::MAX - 1335);
}

#[test]
fn configuration_constructors_keep_their_fields() {
    let c = Channel::new(4, Duration::from_secs(2), 7);
    assert_eq!(c.tasks, 4);
    assert_eq!(c.time, Duration::from_secs(2));
    assert_eq!(c.repeat, 7);

    let s = Sleeper::new(9, Duration::from_secs(3));
    assert_eq!(s.tasks, 9);
    assert_eq!(s.time, Duration::from_secs(3));

    let r = RedisKeys::new(5, 100);
    assert_eq!(r.tasks, 5);
    assert_eq!(r.keys, 100);
}
