use disjoint::DisjointVec;
use disjoint::Item;

fn collect_classes(f: &DisjointVec<u64>) -> Vec<(usize, u64)> {
    let mut out = Vec::new();
    let mut cursor = f.classes();
    while let Some((i, v)) = cursor.next() {
        out.push((i, *v));
    }
    out
}

#[test]
fn insertion_returns_sequential_stable_ids() {
    let mut f = DisjointVec::new();
    for n in 0u64..5 {
        let id = f.push(n * 10);
        assert_eq!(id, n as usize);
    }
    assert_eq!(f.len(), 5);
    for n in 0usize..5 {
        assert_eq!(f.class_of(n), Some(n));
        assert_eq!(f.get(n), Some(&(n as u64 * 10)));
    }
}

#[test]
fn resolution_is_idempotent() {
    let mut f = DisjointVec::new();
    for n in 0u64..4 {
        f.push(n);
    }
    f.merge(0, 1, |x, y| x + y);
    f.merge(1, 2, |x, y| x + y);
    for n in 0usize..4 {
        let first = f.class_of(n);
        let second = f.class_of(n);
        assert_eq!(first, second);
    }
}

#[test]
fn merge_with_itself_is_identity_and_skips_combine() {
    let mut f = DisjointVec::new();
    f.push(7u64);
    f.push(8u64);
    f.merge(0, 1, |x, y| x + y);
    let before = collect_classes(&f);
    let r = f.merge(0, 1, |_, _| panic!("combine must not run for one class"));
    assert_eq!(r, Some(0));
    assert_eq!(r, f.class_of(1));
    assert_eq!(collect_classes(&f), before);
}

#[test]
fn merge_is_deterministic_in_argument_order() {
    let mut f1 = DisjointVec::new();
    let mut f2 = DisjointVec::new();
    for n in [50u64, 3, 20] {
        f1.push(n);
        f2.push(n);
    }
    let sub = |x: u64, y: u64| x - y;
    let r1 = f1.merge(0, 2, sub);
    let r2 = f2.merge(2, 0, |x, y| sub(y, x));
    assert_eq!(r1, Some(0));
    assert_eq!(r2, Some(0));
    assert_eq!(f1.get(0), Some(&30));
    assert_eq!(f2.get(0), Some(&30));
    assert_eq!(collect_classes(&f1), collect_classes(&f2));
}

#[test]
fn merge_reduces_class_count_by_exactly_one() {
    let mut f = DisjointVec::new();
    for n in 0u64..4 {
        f.push(n);
    }
    assert_eq!(collect_classes(&f).len(), 4);
    f.merge(0, 3, |x, y| x + y);
    assert_eq!(collect_classes(&f).len(), 3);
    f.merge(3, 0, |x, y| x + y);
    assert_eq!(collect_classes(&f).len(), 3);
    f.merge(1, 2, |x, y| x + y);
    assert_eq!(collect_classes(&f).len(), 2);
}

#[test]
fn merge_out_of_bounds_is_a_no_op() {
    let mut f = DisjointVec::new();
    f.push(1u64);
    let r = f.merge(0, 9, |_, _| panic!("combine must not run out of bounds"));
    assert_eq!(r, None);
    let r = f.merge(9, 0, |_, _| panic!("combine must not run out of bounds"));
    assert_eq!(r, None);
    assert_eq!(f.len(), 1);
    assert_eq!(f.get(0), Some(&1));
}

#[test]
fn deterministic_tie_break_keeps_smaller_id() {
    let mut f1 = DisjointVec::new();
    let mut f2 = DisjointVec::new();
    for n in 0u64..6 {
        f1.push(n);
        f2.push(n);
    }
    assert_eq!(f1.merge(5, 2, |x, y| x + y), Some(2));
    assert_eq!(f2.merge(2, 5, |x, y| x + y), Some(2));
    assert_eq!(f1.class_of(5), Some(2));
    assert_eq!(f2.class_of(5), Some(2));
}

#[test]
fn try_merge_success_commits() {
    let mut f = DisjointVec::new();
    f.push(4u64);
    f.push(6u64);
    let r: Result<Option<usize>, ()> = f.try_merge(1, 0, |x, y| Ok(x * y));
    assert_eq!(r, Ok(Some(0)));
    assert_eq!(f.get(1), Some(&24));
    assert_eq!(f.len(), 2);
}

#[test]
fn try_merge_out_of_bounds_is_ok_none() {
    let mut f = DisjointVec::new();
    f.push(4u64);
    let r: Result<Option<usize>, ()> = f.try_merge(0, 7, |_, _| panic!("combine must not run"));
    assert_eq!(r, Ok(None));
    assert_eq!(f.len(), 1);
}

#[test]
fn failed_try_merge_invalidates_every_id() {
    let mut f = DisjointVec::new();
    for n in 0u64..5 {
        f.push(n);
    }
    let r = f.try_merge(1, 3, |_, _| Err("combine refused"));
    assert_eq!(r, Err("combine refused"));
    assert_eq!(f.len(), 0);
    assert!(f.is_empty());
    for n in 0usize..5 {
        assert_eq!(f.class_of(n), None);
        assert_eq!(f.get(n), None);
    }
}

#[test]
fn replace_swaps_value_of_the_class() {
    let mut f = DisjointVec::new();
    f.push(10u64);
    f.push(20u64);
    f.merge(0, 1, |x, y| x + y);
    assert_eq!(f.replace(1, 99), Ok(30));
    assert_eq!(f.get(0), Some(&99));
    assert_eq!(f.get(1), Some(&99));
}

#[test]
fn replace_out_of_bounds_hands_value_back() {
    let mut f = DisjointVec::new();
    f.push(10u64);
    assert_eq!(f.replace(5, 99), Err(99));
    assert_eq!(f.get(0), Some(&10));
}

#[test]
fn get_mut_reaches_the_class_value() {
    let mut f = DisjointVec::new();
    f.push(1u64);
    f.push(2u64);
    f.merge(0, 1, |x, y| x + y);
    if let Some(v) = f.get_mut(1) {
        *v += 100;
    } else {
        panic!("id 1 must resolve");
    }
    assert_eq!(f.get(0), Some(&103));
    assert_eq!(f.get_mut(9), None);
}

#[test]
fn get_mut_with_class_reports_representative() {
    let mut f = DisjointVec::new();
    f.push(5u64);
    f.push(6u64);
    f.push(7u64);
    f.merge(2, 1, |x, y| x + y);
    let (c, v) = f.get_mut_with_class(2).expect("id 2 must resolve");
    assert_eq!(c, 1);
    assert_eq!(*v, 13);
    *v = 1;
    assert_eq!(f.get(2), Some(&1));
}

#[test]
fn get_with_class_resolves_through_indirections() {
    let mut f = DisjointVec::new();
    for n in 0u64..4 {
        f.push(n);
    }
    f.merge(2, 3, |x, y| x + y);
    f.merge(1, 2, |x, y| x + y);
    let (c, v) = f.get_with_class(3).expect("id 3 must resolve");
    assert_eq!(c, 1);
    assert_eq!(*v, 6);
    assert_eq!(f.get_with_class(9), None);
}

#[test]
fn map_preserves_structure_and_transforms_values() {
    let mut f = DisjointVec::new();
    for n in 0u64..4 {
        f.push(n);
    }
    f.merge(0, 2, |x, y| x + y);
    let g = f.map(|v| format!("<{v}>"));
    assert_eq!(g.len(), 4);
    assert_eq!(g.class_of(2), Some(0));
    assert_eq!(g.get(2), Some(&String::from("<2>")));
    assert_eq!(g.get(1), Some(&String::from("<1>")));
    assert_eq!(g.get(3), Some(&String::from("<3>")));
}

#[test]
fn extend_appends_class_holders_in_order() {
    let mut f = DisjointVec::new();
    f.push(1u64);
    f.extend(vec![2, 3, 4]);
    assert_eq!(f.len(), 4);
    for n in 0usize..4 {
        assert_eq!(f.class_of(n), Some(n));
        assert_eq!(f.get(n), Some(&(n as u64 + 1)));
    }
}

#[test]
fn classes_yields_holders_in_increasing_order() {
    let mut f = DisjointVec::new();
    for n in 0u64..5 {
        f.push(n);
    }
    f.merge(1, 3, |x, y| x + y);
    assert_eq!(collect_classes(&f), vec![(0, 0), (1, 4), (2, 2), (4, 4)]);
}

#[test]
fn into_classes_yields_owned_values() {
    let mut f = DisjointVec::new();
    for n in 0u64..4 {
        f.push(n);
    }
    f.merge(2, 0, |x, y| x + y);
    let mut cursor = f.into_classes();
    let mut out = Vec::new();
    while let Some(pair) = cursor.next() {
        out.push(pair);
    }
    assert_eq!(out, vec![(0, 2), (1, 1), (3, 3)]);
}

#[test]
fn with_capacity_and_emptiness() {
    let mut f = DisjointVec::<u64>::with_capacity(16);
    assert!(f.is_empty());
    assert_eq!(f.len(), 0);
    f.push(1);
    assert!(!f.is_empty());
    let d = DisjointVec::<u64>::default();
    assert!(d.is_empty());
}

#[test]
fn item_accessors() {
    let class: Item<u64> = Item::Class(9);
    assert_eq!(class.into_value(), Some(9));
    let hop: Item<u64> = Item::Indirection(3);
    assert_eq!(hop.into_value(), None);

    let mut class: Item<u64> = Item::Class(9);
    if let Some(v) = class.as_value_mut() {
        *v = 11;
    }
    assert_eq!(class.into_value(), Some(11));
    let mut hop: Item<u64> = Item::Indirection(3);
    assert!(hop.as_value_mut().is_none());

    let mapped = Item::Class(4u64).map(|v| v + 1);
    assert_eq!(mapped.into_value(), Some(5));
    let hopped = Item::<u64>::Indirection(2).map(|v| v + 1);
    assert_eq!(hopped.into_value(), None);
}
