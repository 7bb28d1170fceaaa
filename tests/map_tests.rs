use rsabsint::map::AvlMap;
use rsabsint::symbol::Symbol;
use rsabsint::typing::Type;

#[derive(Clone, Copy, Debug, PartialEq, Eq)]
struct TestDomain(i32);

fn sym(name: &str) -> Symbol {
    Symbol::new(name, Type::Int)
}

#[test]
fn test_new() {
    let map: AvlMap<TestDomain> = AvlMap::new();
    assert!(map.is_empty());
}

#[test]
fn test_singleton() {
    let key = sym("key");
    let value = TestDomain(42);
    let map = AvlMap::singleton(&key, &value);
    assert!(!map.is_empty());
    assert!(map.mem(&key));
    assert_eq!(map.find(&key), Some(&value));
}

#[test]
fn test_add() {
    let key1 = sym("key1");
    let value1 = TestDomain(42);
    let key2 = sym("key2");
    let value2 = TestDomain(43);
    let mut map = AvlMap::new();
    map.add(&key1, &value1).unwrap();
    map.add(&key2, &value2).unwrap();
    assert!(map.mem(&key1));
    assert!(map.mem(&key2));
    assert_eq!(map.find(&key1), Some(&value1));
    assert_eq!(map.find(&key2), Some(&value2));
}

#[test]
fn test_remove() {
    let key = sym("key");
    let value = TestDomain(42);
    let mut map = AvlMap::singleton(&key, &value);
    map.remove(&key);
    assert!(map.is_empty());
}

#[test]
fn test_iter() {
    let key1 = sym("key1");
    let key2 = sym("key2");
    let value1 = TestDomain(42);
    let value2 = TestDomain(43);
    let mut map = AvlMap::new();
    map.add(&key1, &value1).unwrap();
    map.add(&key2, &value2).unwrap();
    let mut keys = Vec::new();
    let mut values = Vec::new();
    map.iter(|k, v| {
        keys.push(k.clone());
        values.push(v.clone());
    });
    assert_eq!(keys, vec![key1.clone(), key2.clone()]);
    assert_eq!(values, vec![value1.clone(), value2.clone()]);
}

#[test]
fn test_fold() {
    let key1 = sym("key1");
    let value1 = TestDomain(42);
    let key2 = sym("key2");
    let value2 = TestDomain(43);
    let mut map = AvlMap::new();
    map.add(&key1, &value1).unwrap();
    map.add(&key2, &value2).unwrap();
    let result = map.fold(&TestDomain(0), |_, v, acc| TestDomain(v.0 + acc.0));
    assert_eq!(result, TestDomain(85));
}

#[test]
fn test_filter() {
    let key1 = sym("key1");
    let value1 = TestDomain(42);
    let key2 = sym("key2");
    let value2 = TestDomain(43);
    let mut map = AvlMap::new();
    map.add(&key1, &value1).unwrap();
    map.add(&key2, &value2).unwrap();
    map.filter(|_, v| v.0 > 42);
    assert!(map.mem(&key2));
    assert!(!map.mem(&key1));
}

#[test]
fn test_map() {
    let key1 = sym("key1");
    let value1 = TestDomain(42);
    let key2 = sym("key2");
    let value2 = TestDomain(43);
    let mut map = AvlMap::new();
    map.add(&key1, &value1).unwrap();
    map.add(&key2, &value2).unwrap();
    map.map(|v| TestDomain(v.0 + 1));
    assert_eq!(map.find(&key1), Some(&TestDomain(43)));
    assert_eq!(map.find(&key2), Some(&TestDomain(44)));
}

#[test]
fn test_mapi() {
    let key1 = sym("key1");
    let value1 = TestDomain(42);
    let key2 = sym("key2");
    let value2 = TestDomain(43);
    let mut map = AvlMap::new();
    map.add(&key1, &value1).unwrap();
    map.add(&key2, &value2).unwrap();
    map.mapi(|_, v| TestDomain(v.0 + 1));
    assert_eq!(map.find(&key1), Some(&TestDomain(43)));
    assert_eq!(map.find(&key2), Some(&TestDomain(44)));
}

#[test]
fn test_min_binding() {
    let key1 = sym("key1");
    let value1 = TestDomain(42);
    let key2 = sym("key2");
    let value2 = TestDomain(43);
    let mut map = AvlMap::new();
    map.add(&key1, &value1).unwrap();
    map.add(&key2, &value2).unwrap();
    let (min_key, min_value) = map.min_binding().unwrap();
    assert_eq!(min_key, &key1);
    assert_eq!(min_value, &value1);
}

#[test]
fn test_max_binding() {
    let key1 = sym("key1");
    let value1 = TestDomain(42);
    let key2 = sym("key2");
    let value2 = TestDomain(43);
    let mut map = AvlMap::new();
    map.add(&key1, &value1).unwrap();
    map.add(&key2, &value2).unwrap();
    let (max_key, max_value) = map.max_binding().unwrap();
    assert_eq!(max_key, &key2);
    assert_eq!(max_value, &value2);
}

#[test]
fn test_for_all() {
    let key1 = sym("key1");
    let value1 = TestDomain(42);
    let key2 = sym("key2");
    let value2 = TestDomain(43);
    let mut map = AvlMap::new();
    map.add(&key1, &value1).unwrap();
    map.add(&key2, &value2).unwrap();
    assert!(map.for_all(|_, v| v.0 > 40));
    assert!(!map.for_all(|_, v| v.0 > 42));
}

#[test]
fn test_map2z() {
    let key1 = sym("key1");
    let value1 = TestDomain(42);
    let key2 = sym("key2");
    let value2 = TestDomain(43);
    let mut map1 = AvlMap::new();
    map1.add(&key1, &value1).unwrap();
    map1.add(&key2, &value2).unwrap();
    let mut map2 = AvlMap::new();
    map2.add(&key1, &TestDomain(1)).unwrap();
    map2.add(&key2, &TestDomain(2)).unwrap();
    map1.map2z(&map2, |v1, v2| TestDomain(v1.0 + v2.0)).unwrap();
    assert_eq!(map1.find(&key1), Some(&TestDomain(43)));
    assert_eq!(map1.find(&key2), Some(&TestDomain(45)));
}

#[test]
fn test_iter2z() {
    let key1 = sym("key1");
    let value1 = TestDomain(42);
    let key2 = sym("key2");
    let value2 = TestDomain(43);
    let mut map1 = AvlMap::new();
    map1.add(&key1, &value1).unwrap();
    map1.add(&key2, &value2).unwrap();
    let mut map2 = AvlMap::new();
    map2.add(&key1, &TestDomain(1)).unwrap();
    map2.add(&key2, &TestDomain(2)).unwrap();
    let mut results = Vec::new();
    map1.iter2z(&map2, |k, v1, v2| {
        results.push((k.clone(), v1.clone(), v2.clone()));
    })
    .unwrap();
    assert_eq!(
        results,
        vec![(key1.clone(), value1.clone(), TestDomain(1)), (key2.clone(), value2.clone(), TestDomain(2))]
    );
}

#[test]
fn test_fold2z() {
    let key1 = sym("key1");
    let value1 = TestDomain(42);
    let key2 = sym("key2");
    let value2 = TestDomain(43);
    let mut map1 = AvlMap::new();
    map1.add(&key1, &value1).unwrap();
    map1.add(&key2, &value2).unwrap();
    let mut map2 = AvlMap::new();
    map2.add(&key1, &TestDomain(1)).unwrap();
    map2.add(&key2, &TestDomain(2)).unwrap();
    let result = map1
        .fold2z(&map2, &TestDomain(0), |_, v1, v2, acc| TestDomain(v1.0 + v2.0 + acc.0))
        .unwrap();
    assert_eq!(result, TestDomain(88));
}

#[test]
fn test_for_all2z() {
    let key1 = sym("key1");
    let value1 = TestDomain(42);
    let key2 = sym("key2");
    let value2 = TestDomain(43);
    let mut map1 = AvlMap::new();
    map1.add(&key1, &value1).unwrap();
    map1.add(&key2, &value2).unwrap();
    let mut map2 = AvlMap::new();
    map2.add(&key1, &TestDomain(1)).unwrap();
    map2.add(&key2, &TestDomain(2)).unwrap();
    assert!(map1.for_all2z(&map2, |_, v1, v2| v1.0 > v2.0).unwrap());
    assert!(!map1.for_all2z(&map2, |_, v1, v2| v1.0 < v2.0).unwrap());
}
