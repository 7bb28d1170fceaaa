use rsabsint::map::{AvlMap, MapError};
use rsabsint::symbol::Symbol;
use rsabsint::typing::Type;

fn sym(name: &str) -> Symbol {
    Symbol::new(name, Type::Int)
}

#[test]
fn add_then_remove_is_remove() {
    let mut m: AvlMap<i64> = AvlMap::new();
    for (i, name) in ["d", "b", "a", "c"].iter().enumerate() {
        m.add(&sym(name), &(i as i64)).unwrap();
    }
    let mut with = AvlMap::new();
    let mut without = AvlMap::new();
    for name in ["d", "b", "a", "c"] {
        let v = *m.find(&sym(name)).unwrap();
        with.add(&sym(name), &v).unwrap();
        without.add(&sym(name), &v).unwrap();
    }
    with.add(&sym("e"), &99).unwrap();
    assert_eq!(with.find(&sym("e")), Some(&99));
    with.remove(&sym("e"));
    without.remove(&sym("e"));
    let mut a = Vec::new();
    with.iter(|k, v| a.push((k.get_name().to_string(), *v)));
    let mut b = Vec::new();
    without.iter(|k, v| b.push((k.get_name().to_string(), *v)));
    assert_eq!(a, b);
}

#[test]
fn add_replaces_existing_value() {
    let mut m: AvlMap<i64> = AvlMap::new();
    m.add(&sym("x"), &1).unwrap();
    m.add(&sym("x"), &2).unwrap();
    assert_eq!(m.find(&sym("x")), Some(&2));
    let mut n = 0;
    m.iter(|_, _| n += 1);
    assert_eq!(n, 1);
}

#[test]
fn remove_absent_key_leaves_map() {
    let mut m: AvlMap<i64> = AvlMap::singleton(&sym("x"), &1);
    m.remove(&sym("y"));
    assert_eq!(m.find(&sym("x")), Some(&1));
}

#[test]
fn fold_visits_keys_in_ascending_order() {
    let mut m: AvlMap<i64> = AvlMap::new();
    m.add(&sym("c"), &3).unwrap();
    m.add(&sym("a"), &1).unwrap();
    m.add(&sym("b"), &2).unwrap();
    let r = m.fold(&0, |_, v, acc| acc * 10 + v);
    assert_eq!(r, 123);
}

#[test]
fn many_insertions_stay_ordered_and_findable() {
    let mut m: AvlMap<i64> = AvlMap::new();
    for i in 0..200i64 {
        let k = (i * 37) % 200;
        m.add(&sym(&format!("k{:03}", k)), &k).unwrap();
    }
    for i in 0..200i64 {
        assert_eq!(m.find(&sym(&format!("k{:03}", i))), Some(&i));
    }
    for i in 0..100i64 {
        m.remove(&sym(&format!("k{:03}", i * 2)));
    }
    let mut keys = Vec::new();
    m.iter(|k, _| keys.push(k.get_name().to_string()));
    assert_eq!(keys.len(), 100);
    let mut sorted = keys.clone();
    sorted.sort();
    assert_eq!(keys, sorted);
    assert_eq!(m.min_binding().map(|(k, v)| (k.get_name().to_string(), *v)), Some(("k001".to_string(), 1)));
    assert_eq!(m.max_binding().map(|(k, v)| (k.get_name().to_string(), *v)), Some(("k199".to_string(), 199)));
}

#[test]
fn map2z_rejects_different_key_sets() {
    let mut a: AvlMap<i64> = AvlMap::new();
    a.add(&sym("x"), &1).unwrap();
    let mut b: AvlMap<i64> = AvlMap::new();
    b.add(&sym("y"), &1).unwrap();
    assert_eq!(a.map2z(&b, |u, v| u + v), Err(MapError::KeysetMismatch));
    assert_eq!(a.iter2z(&b, |_, _, _| {}), Err(MapError::KeysetMismatch));
    assert_eq!(a.fold2z(&b, &0, |_, _, _, acc| *acc), Err(MapError::KeysetMismatch));
    assert_eq!(a.for_all2z(&b, |_, _, _| true), Err(MapError::KeysetMismatch));
    assert_eq!(a.find(&sym("x")), Some(&1));
}

#[test]
fn map2z_skips_equal_values() {
    let mut a: AvlMap<i64> = AvlMap::new();
    a.add(&sym("x"), &1).unwrap();
    a.add(&sym("y"), &5).unwrap();
    let mut b: AvlMap<i64> = AvlMap::new();
    b.add(&sym("x"), &1).unwrap();
    b.add(&sym("y"), &7).unwrap();
    let mut calls = 0;
    a.map2z(&b, |u, v| {
        calls += 1;
        u * 100 + v
    })
    .unwrap();
    assert_eq!(calls, 1);
    assert_eq!(a.find(&sym("x")), Some(&1));
    assert_eq!(a.find(&sym("y")), Some(&507));
}

#[test]
fn key_aligned_checks_skip_equal_values() {
    let mut a: AvlMap<i64> = AvlMap::new();
    a.add(&sym("x"), &1).unwrap();
    a.add(&sym("y"), &5).unwrap();
    let mut b: AvlMap<i64> = AvlMap::new();
    b.add(&sym("x"), &1).unwrap();
    b.add(&sym("y"), &7).unwrap();
    let mut seen = Vec::new();
    a.iter2z(&b, |k, u, v| seen.push((k.get_name().to_string(), *u, *v))).unwrap();
    assert_eq!(seen, vec![("y".to_string(), 5, 7)]);
    assert_eq!(a.for_all2z(&b, |k, _, _| k.get_name() != "x"), Ok(true));
    assert_eq!(a.fold2z(&b, &0, |_, u, v, acc| acc + u + v), Ok(12));
}
