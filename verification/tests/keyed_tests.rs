use disjoint::DisjointHashMap;

fn collect_classes(m: &DisjointHashMap<String, u64>) -> Vec<(usize, u64)> {
    let mut out = Vec::new();
    let mut cursor = m.classes();
    while let Some((i, v)) = cursor.next() {
        out.push((i, *v));
    }
    out
}

fn key(s: &str) -> String {
    String::from(s)
}

#[test]
fn insert_binds_keys_to_sequential_slots() {
    let mut m = DisjointHashMap::new();
    assert!(m.is_empty());
    assert_eq!(m.insert(key("a"), 10u64), 0);
    assert_eq!(m.insert(key("b"), 20), 1);
    assert_eq!(m.len(), 2);
    assert_eq!(m.index_of(&key("a")), Some(0));
    assert_eq!(m.index_of(&key("b")), Some(1));
    assert_eq!(m.index_of(&key("c")), None);
    assert_eq!(m.get(&key("a")), Some(&10));
    assert_eq!(m.class_of(&key("b")), Some(1));
    assert_eq!(m.class_of(&key("c")), None);
}

#[test]
fn keyed_lookup_is_consistent_after_merge() {
    let mut m = DisjointHashMap::new();
    m.insert(key("x"), 5u64);
    m.insert(key("y"), 7);
    m.insert(key("z"), 100);
    let r = m.merge(&key("y"), &key("x"), |a, b| a + b);
    assert_eq!(r, Some(0));
    assert_eq!(m.get_with_class(&key("x")), Some((0, &12)));
    assert_eq!(m.get_with_class(&key("y")), Some((0, &12)));
    assert_eq!(m.get_with_class(&key("z")), Some((2, &100)));
}

#[test]
fn merge_with_absent_key_is_a_no_op() {
    let mut m = DisjointHashMap::new();
    m.insert(key("a"), 1u64);
    let r = m.merge(&key("a"), &key("nope"), |_, _| panic!("combine must not run"));
    assert_eq!(r, None);
    let r = m.merge(&key("nope"), &key("a"), |_, _| panic!("combine must not run"));
    assert_eq!(r, None);
    assert_eq!(m.len(), 1);
    assert_eq!(m.get(&key("a")), Some(&1));
}

#[test]
fn try_merge_gates_on_keys_then_delegates() {
    let mut m = DisjointHashMap::new();
    m.insert(key("a"), 2u64);
    m.insert(key("b"), 3);
    let r: Result<Option<usize>, ()> =
        m.try_merge(&key("a"), &key("missing"), |_, _| panic!("combine must not run"));
    assert_eq!(r, Ok(None));
    let r: Result<Option<usize>, ()> = m.try_merge(&key("a"), &key("b"), |x, y| Ok(x * y));
    assert_eq!(r, Ok(Some(0)));
    assert_eq!(m.get(&key("b")), Some(&6));
}

#[test]
fn failed_keyed_try_merge_clears_the_forest() {
    let mut m = DisjointHashMap::new();
    m.insert(key("a"), 1u64);
    m.insert(key("b"), 2);
    m.insert(key("c"), 3);
    let r = m.try_merge(&key("a"), &key("c"), |_, _| Err("refused"));
    assert_eq!(r, Err("refused"));
    assert!(m.is_empty());
    assert_eq!(m.get(&key("a")), None);
    assert_eq!(m.get(&key("b")), None);
    assert_eq!(m.class_of(&key("c")), None);
    assert_eq!(m.index_of(&key("b")), Some(1));
}

#[test]
fn replace_by_key() {
    let mut m = DisjointHashMap::new();
    m.insert(key("a"), 1u64);
    m.insert(key("b"), 2);
    m.merge(&key("a"), &key("b"), |x, y| x + y);
    assert_eq!(m.replace(&key("b"), 50), Ok(3));
    assert_eq!(m.get(&key("a")), Some(&50));
    assert_eq!(m.replace(&key("missing"), 9), Err(9));
}

#[test]
fn reinserting_a_key_rebinds_it_but_keeps_the_old_slot() {
    let mut m = DisjointHashMap::new();
    m.insert(key("a"), 1u64);
    m.insert(key("a"), 2);
    assert_eq!(m.len(), 2);
    assert_eq!(m.index_of(&key("a")), Some(1));
    assert_eq!(m.get(&key("a")), Some(&2));
    assert_eq!(m.as_vec().get(0), Some(&1));
    assert_eq!(collect_classes(&m), vec![(0, 1), (1, 2)]);
}

#[test]
fn end_to_end_insert_merge_classes() {
    let mut m = DisjointHashMap::new();
    assert_eq!(m.insert(key("a"), 1u64), 0);
    assert_eq!(m.insert(key("b"), 2), 1);
    assert_eq!(m.insert(key("c"), 3), 2);
    let r = m.merge(&key("a"), &key("b"), |x, y| x + y);
    assert_eq!(r, Some(0));
    assert_eq!(m.get(&key("a")), Some(&3));
    assert_eq!(collect_classes(&m).len(), 2);
    let r = m.merge(&key("c"), &key("a"), |x, y| x + y);
    assert_eq!(r, Some(0));
    assert_eq!(m.get(&key("c")), Some(&6));
    assert_eq!(collect_classes(&m), vec![(0, 6)]);
}

#[test]
fn keyed_into_classes_yields_forest_ids() {
    let mut m = DisjointHashMap::new();
    m.insert(key("a"), 1u64);
    m.insert(key("b"), 2);
    m.insert(key("c"), 3);
    m.merge(&key("b"), &key("c"), |x, y| x + y);
    let mut cursor = m.into_classes();
    let mut out = Vec::new();
    while let Some(pair) = cursor.next() {
        out.push(pair);
    }
    assert_eq!(out, vec![(0, 1), (1, 5)]);
}

#[test]
fn default_is_empty() {
    let m = DisjointHashMap::<String, u64>::default();
    assert!(m.is_empty());
    assert_eq!(m.len(), 0);
}

#[test]
fn integer_keys_work_too() {
    let mut m = DisjointHashMap::new();
    m.insert(1u32, 10u64);
    m.insert(2u32, 20);
    assert_eq!(m.merge(&1, &2, |x, y| x + y), Some(0));
    assert_eq!(m.get(&2), Some(&30));
}
