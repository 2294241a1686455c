use std::cell::RefCell;

use uqoin_client::failover::{try_all_validators, try_first_validator};

fn nodes() -> Vec<String> {
    vec!["v1".to_string(), "v2".to_string(), "v3".to_string()]
}

#[test]
fn first_success_returns_second_and_skips_third() {
    let called = RefCell::new(Vec::new());
    let r = try_first_validator(&nodes(), |v: &String| {
        called.borrow_mut().push(v.clone());
        if v == "v1" {
            Err("unreachable")
        } else {
            Ok(format!("answer of {}", v))
        }
    });
    assert_eq!(r, Some("answer of v2".to_string()));
    assert_eq!(*called.borrow(), vec!["v1".to_string(), "v2".to_string()]);
}

#[test]
fn first_success_none_when_all_fail() {
    let r: Option<u64> = try_first_validator(&nodes(), |_v: &String| Err::<u64, ()>(()));
    assert_eq!(r, None);
}

#[test]
fn first_success_on_empty_list() {
    let r: Option<u64> = try_first_validator(&vec![], |_v: &String| Ok::<u64, ()>(1));
    assert_eq!(r, None);
}

#[test]
fn broadcast_counts_successes_and_calls_all() {
    let called = RefCell::new(Vec::new());
    let n = try_all_validators(&nodes(), |v: &String| {
        called.borrow_mut().push(v.clone());
        if v == "v1" {
            Err("unreachable")
        } else {
            Ok(())
        }
    });
    assert_eq!(n, 2);
    assert_eq!(called.borrow().len(), 3);
}

#[test]
fn broadcast_zero_when_all_fail() {
    let n = try_all_validators(&nodes(), |_v: &String| Err::<(), ()>(()));
    assert_eq!(n, 0);
}
