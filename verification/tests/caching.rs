//! Tests of the memoizing cache: get-or-compute, stability of stored
//! values, and single computation per key.

use std::cell::Cell;
use pipeconf::cache::Cache;

fn cs(s: &str) -> Vec<char> {
    s.chars().collect()
}

#[test]
fn test_cache_get_computes_once() {
    let calls = Cell::new(0u32);
    let f = |k: &Vec<char>| {
        calls.set(calls.get() + 1);
        k.len()
    };
    let mut c = Cache::new(f);
    let k = cs("pattern");
    let first = *c.get(&k);
    assert_eq!(first, 7);
    assert_eq!(calls.get(), 1);
    for _ in 0..5 {
        assert_eq!(*c.get(&k), first);
    }
    assert_eq!(calls.get(), 1);
}

#[test]
fn test_cache_distinct_keys() {
    let f = |k: &Vec<char>| k.len();
    let mut c = Cache::new(f);
    assert_eq!(*c.get(&cs("a")), 1);
    assert_eq!(*c.get(&cs("abc")), 3);
    assert_eq!(*c.get(&cs("a")), 1);
}

#[test]
fn test_cache_stable_against_changed_function_result() {
    // even if the compute function would now give another value, the first
    // stored value keeps being returned
    let bump = Cell::new(0usize);
    let f = |k: &Vec<char>| k.len() + bump.get();
    let mut c = Cache::new(f);
    let k = cs("xy");
    assert_eq!(*c.get(&k), 2);
    bump.set(100);
    assert_eq!(*c.get(&k), 2);
}
