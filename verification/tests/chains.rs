//! Chains of mappings.
use analyssa::passes::utils::resolve_chain;
use std::collections::BTreeMap;

#[test]
fn follows_mappings() {
    let mut map = BTreeMap::new();
    map.insert(1, 2);
    map.insert(2, 3);
    map.insert(3, 4);

    assert_eq!(resolve_chain(&map, 1), 4);
    assert_eq!(resolve_chain(&map, 2), 4);
    assert_eq!(resolve_chain(&map, 3), 4);
    assert_eq!(resolve_chain(&map, 4), 4);
}

#[test]
fn handles_cycles() {
    let mut map = BTreeMap::new();
    map.insert(1, 2);
    map.insert(2, 1);

    let result = resolve_chain(&map, 1);
    assert!(result == 1 || result == 2);
}

#[test]
fn single_step() {
    let mut map = BTreeMap::new();
    map.insert(5, 10);

    assert_eq!(resolve_chain(&map, 5), 10);
}

#[test]
fn empty_map() {
    let map: BTreeMap<usize, usize> = BTreeMap::new();
    assert_eq!(resolve_chain(&map, 42), 42);
}

#[test]
fn self_loop() {
    let mut map = BTreeMap::new();
    map.insert(1, 1);

    assert_eq!(resolve_chain(&map, 1), 1);
}
