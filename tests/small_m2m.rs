use p_m2m::SmallM2M;

#[test]
fn small_insert_keeps_order() {
    let mut m2m: SmallM2M<u8, &str, 5> = SmallM2M::new();
    assert!(m2m.insert(1, "a"));
    assert!(m2m.insert(1, "b"));
    assert!(m2m.insert(2, "a"));
    assert!(m2m.insert(2, "b"));
    assert!(!m2m.insert(1, "a"));
    assert!(m2m.insert(1, "c"));
    let pairs: Vec<(u8, &str)> = m2m.iter().cloned().collect();
    assert_eq!(pairs, vec![(1, "a"), (1, "b"), (1, "c"), (2, "a"), (2, "b")]);
}

#[test]
fn small_len_and_clear() {
    let mut m2m: SmallM2M<u8, &str, 0> = SmallM2M::new();
    assert_eq!(m2m.len(), 0);
    assert!(m2m.is_empty());
    m2m.insert(1, "a");
    assert_eq!(m2m.len(), 1);
    assert!(!m2m.is_empty());
    m2m.clear();
    assert!(m2m.is_empty());
}

#[test]
fn small_from_and_remove() {
    let mut m2m: SmallM2M<u8, &str, 2> = SmallM2M::from(vec![(1, "a"), (1, "b"), (1, "a")]);
    assert_eq!(m2m.len(), 2);
    assert_eq!(m2m.remove(&1), Some(vec!["a", "b"]));
    assert_eq!(m2m.remove(&1), None);
    assert!(m2m.is_empty());
}

#[test]
fn small_contains_and_slice() {
    let mut m2m: SmallM2M<u8, &str, 4> = SmallM2M::from(vec![(2, "b"), (1, "a")]);
    assert!(m2m.contains(&1, &"a"));
    assert!(!m2m.contains(&1, &"b"));
    assert_eq!(m2m.as_slice(), &[(1, "a"), (2, "b")]);
    m2m.iter_mut().for_each(|(l, _)| *l *= 3);
    assert_eq!(m2m.as_slice(), &[(3, "a"), (6, "b")]);
}

#[test]
fn small_into_iter() {
    let m2m: SmallM2M<u8, &str, 4> = SmallM2M::from(vec![(2, "b"), (1, "a"), (2, "a")]);
    let borrowed: Vec<&(u8, &str)> = (&m2m).into_iter().collect();
    assert_eq!(borrowed, vec![&(1, "a"), &(2, "a"), &(2, "b")]);
    let owned: Vec<(u8, &str)> = m2m.into_iter().collect();
    assert_eq!(owned, vec![(1, "a"), (2, "a"), (2, "b")]);
}

#[test]
fn small_default_is_empty() {
    let m2m: SmallM2M<u8, u8, 3> = Default::default();
    assert!(m2m.is_empty());
}
