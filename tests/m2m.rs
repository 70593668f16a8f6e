use p_m2m::M2M;

fn pairs_of<L: Clone, R: Clone>(m: &M2M<L, R>) -> Vec<(L, R)> {
    m.iter().cloned().collect()
}

#[test]
fn build_query() {
    let m2m = M2M::from(vec![(1, "a"), (1, "b"), (2, "a"), (2, "b")]);
    assert_eq!(m2m.len(), 4);
    assert_eq!(m2m.get_rights(&1), Some(vec![&"a", &"b"]));
    assert_eq!(m2m.get_lefts(&"a"), Some(vec![&1, &2]));
    assert_eq!(m2m.lefts(), Some(vec![&1, &2]));
    assert_eq!(m2m.rights(), Some(vec![&"a", &"b"]));
}

#[test]
fn dedup_on_construct() {
    let m2m = M2M::from(vec![(1, "a"), (1, "a"), (2, "b")]);
    assert_eq!(m2m.len(), 2);
}

#[test]
fn insert_duplicate() {
    let mut m2m: M2M<i32, &str> = M2M::new();
    assert!(m2m.insert(1, "a"));
    assert!(!m2m.insert(1, "a"));
    assert_eq!(m2m.len(), 1);
}

#[test]
fn remove_all_with_left() {
    let mut m2m = M2M::from(vec![(1, "a"), (1, "b"), (2, "c")]);
    assert_eq!(m2m.remove(&1), Some(vec!["a", "b"]));
    assert_eq!(m2m.len(), 1);
    assert!(!m2m.contains_left(&1));
}

#[test]
fn retain_even_lefts() {
    let mut m2m = M2M::from(vec![(1, "a"), (1, "b"), (2, "a"), (2, "b")]);
    m2m.retain(|(l, _)| l % 2 == 0);
    assert_eq!(pairs_of(&m2m), vec![(2, "a"), (2, "b")]);
}

#[test]
fn flip_get_rights() {
    let m2m = M2M::from(vec![(1, "a"), (1, "b"), (2, "a")]);
    assert_eq!(m2m.flip().get_rights(&"a"), Some(vec![&1, &2]));
}

#[test]
fn pairs_distinct_and_ascending() {
    let mut m2m = M2M::from(vec![(3, 1), (1, 2), (2, 2), (1, 1), (3, 1), (2, 2)]);
    m2m.insert(0, 9);
    m2m.insert(2, 2);
    m2m.insert(2, 0);
    let pairs = pairs_of(&m2m);
    assert_eq!(pairs, vec![(0, 9), (1, 1), (1, 2), (2, 0), (2, 2), (3, 1)]);
    for w in pairs.windows(2) {
        assert!(w[0] < w[1]);
    }
}

#[test]
fn len_zero_iff_empty() {
    let mut m2m: M2M<u8, u8> = M2M::new();
    assert_eq!(m2m.len(), 0);
    assert!(m2m.is_empty());
    m2m.insert(1, 1);
    assert_eq!(m2m.len(), 1);
    assert!(!m2m.is_empty());
    m2m.clear();
    assert_eq!(m2m.len(), 0);
    assert!(m2m.is_empty());
}

#[test]
fn contains_exact_pair() {
    let m2m = M2M::from(vec![(1, "a"), (2, "b")]);
    assert!(m2m.contains(&1, &"a"));
    assert!(m2m.contains(&2, &"b"));
    assert!(!m2m.contains(&1, &"b"));
    assert!(!m2m.contains(&2, &"a"));
    assert!(!m2m.contains(&3, &"a"));
}

#[test]
fn contains_left_and_right() {
    let m2m = M2M::from(vec![(1, "a"), (1, "b")]);
    assert!(m2m.contains_left(&1));
    assert!(!m2m.contains_left(&3));
    assert!(m2m.contains_right(&"a"));
    assert!(!m2m.contains_right(&"c"));
}

#[test]
fn get_rights_in_pair_order() {
    let m2m = M2M::from(vec![(1, "a"), (1, "b"), (2, "c"), (2, "d")]);
    assert_eq!(m2m.get_rights(&1), Some(vec![&"a", &"b"]));
    assert_eq!(m2m.get_rights(&2), Some(vec![&"c", &"d"]));
    assert_eq!(m2m.get_rights(&3), None);
}

#[test]
fn get_lefts_in_pair_order() {
    let m2m = M2M::from(vec![(1, "a"), (2, "b"), (3, "a"), (4, "b")]);
    assert_eq!(m2m.get_lefts(&"a"), Some(vec![&1, &3]));
    assert_eq!(m2m.get_lefts(&"z"), None);
}

#[test]
fn lefts_ascending_without_repeats() {
    let m2m = M2M::from(vec![(1, "a"), (2, "b"), (3, "a"), (4, "b"), (1, "a")]);
    assert_eq!(m2m.lefts(), Some(vec![&1, &2, &3, &4]));
}

#[test]
fn rights_ascending_without_repeats() {
    let m2m = M2M::from(vec![(1, "a"), (1, "b"), (2, "c"), (2, "d"), (1, "a")]);
    assert_eq!(m2m.rights(), Some(vec![&"a", &"b", &"c", &"d"]));
}

#[test]
fn into_lefts_and_rights() {
    let m2m = M2M::from(vec![(1, "a"), (2, "b"), (3, "a"), (4, "b"), (1, "a")]);
    assert_eq!(m2m.into_lefts(), Some(vec![1, 2, 3, 4]));
    let m2m = M2M::from(vec![(1, "a"), (1, "b"), (2, "c"), (2, "d"), (1, "a")]);
    assert_eq!(m2m.into_rights(), Some(vec!["a", "b", "c", "d"]));
    let empty: M2M<u8, u8> = M2M::new();
    assert_eq!(empty.into_lefts(), None);
    let empty: M2M<u8, u8> = M2M::new();
    assert_eq!(empty.into_rights(), None);
}

#[test]
fn insert_then_contains() {
    let mut m2m = M2M::from(vec![(5, 50), (1, 10)]);
    m2m.insert(3, 30);
    assert!(m2m.contains(&3, &30));
}

#[test]
fn insert_then_remove() {
    let mut m2m = M2M::from(vec![(1, "x"), (2, "y")]);
    m2m.insert(1, "a");
    let removed = m2m.remove(&1).unwrap();
    assert!(removed.contains(&"a"));
    assert_eq!(removed, vec!["a", "x"]);
    assert!(!m2m.contains(&1, &"a"));
    assert_eq!(pairs_of(&m2m), vec![(2, "y")]);
}

#[test]
fn from_twice_same_pairs() {
    let input = vec![(2, 'b'), (1, 'z'), (2, 'a'), (1, 'z')];
    let first = M2M::from(input.clone());
    let second = M2M::from(input);
    assert_eq!(pairs_of(&first), pairs_of(&second));
    assert_eq!(pairs_of(&first), vec![(1, 'z'), (2, 'a'), (2, 'b')]);
}

#[test]
fn flip_twice_gives_back_pairs() {
    let m2m = M2M::from(vec![(1, "a"), (1, "b"), (2, "a"), (2, "b"), (3, "a")]);
    let flipped = m2m.flip();
    assert_eq!(
        pairs_of(&flipped),
        vec![("a", 1), ("a", 2), ("a", 3), ("b", 1), ("b", 2)]
    );
    assert_eq!(flipped.get_rights(&"a"), Some(vec![&1, &2, &3]));
    assert_eq!(pairs_of(&flipped.flip()), pairs_of(&m2m));
    assert_eq!(m2m.len(), 5);
}

#[test]
fn insert_idempotent() {
    let mut m2m = M2M::from(vec![(1, 1), (2, 2)]);
    assert!(m2m.insert(3, 3));
    let len = m2m.len();
    assert!(!m2m.insert(3, 3));
    assert_eq!(m2m.len(), len);
}

#[test]
fn insert_keeps_order() {
    let mut m2m = M2M::new();
    assert!(m2m.insert(1, "a"));
    assert!(m2m.insert(1, "b"));
    assert!(m2m.insert(2, "a"));
    assert!(m2m.insert(2, "b"));
    assert!(!m2m.insert(1, "a"));
    assert!(m2m.insert(1, "c"));
    assert_eq!(
        pairs_of(&m2m),
        vec![(1, "a"), (1, "b"), (1, "c"), (2, "a"), (2, "b")]
    );
}

#[test]
fn retain_twice_same() {
    let mut once = M2M::from(vec![(1, 7), (2, 8), (3, 9), (4, 10)]);
    once.retain(|(l, r)| (l + r) % 3 != 0);
    let kept = pairs_of(&once);
    assert_eq!(kept, vec![(1, 7), (2, 8), (4, 10)]);
    once.retain(|(l, r)| (l + r) % 3 != 0);
    assert_eq!(pairs_of(&once), kept);
}

#[test]
fn retain_equals_reject_of_negation() {
    let input = vec![(1, "a"), (1, "b"), (2, "a"), (2, "b")];
    let mut kept = M2M::from(input.clone());
    kept.retain(|(l, _)| l % 2 == 0);
    let mut rejected = M2M::from(input);
    rejected.reject(|(l, _)| l % 2 != 0);
    assert_eq!(pairs_of(&kept), pairs_of(&rejected));
}

#[test]
fn reject_drops_matching() {
    let mut m2m = M2M::from(vec![(1, "a"), (1, "b"), (2, "a"), (2, "b")]);
    m2m.reject(|(l, _)| l % 2 == 0);
    assert_eq!(pairs_of(&m2m), vec![(1, "a"), (1, "b")]);
}

#[test]
fn remove_on_empty() {
    let mut m2m: M2M<i32, &str> = M2M::new();
    assert_eq!(m2m.remove(&1), None);
    assert!(m2m.is_empty());
}

#[test]
fn remove_twice() {
    let mut m2m = M2M::from(vec![(1, "a"), (1, "b")]);
    assert_eq!(m2m.remove(&1), Some(vec!["a", "b"]));
    assert_eq!(m2m.remove(&1), None);
    assert!(m2m.is_empty());
}

#[test]
fn lefts_rights_on_empty() {
    let m2m: M2M<i32, &str> = M2M::new();
    assert_eq!(m2m.lefts(), None);
    assert_eq!(m2m.rights(), None);
    assert_eq!(m2m.get_rights(&1), None);
    assert_eq!(m2m.get_lefts(&"a"), None);
}

#[test]
fn from_empty_and_repeated() {
    let empty: M2M<i32, &str> = M2M::from(Vec::new());
    assert_eq!(empty.len(), 0);
    let one = M2M::from(vec![(7, "q"), (7, "q")]);
    assert_eq!(one.len(), 1);
    assert_eq!(pairs_of(&one), vec![(7, "q")]);
}

#[test]
fn slices_and_iter_mut() {
    let mut m2m = M2M::from(vec![(1, "a"), (1, "b")]);
    let slice = m2m.as_slice();
    assert_eq!(slice[0], (1, "a"));
    assert_eq!(slice[1], (1, "b"));
    let slice = m2m.as_mut_slice();
    slice[1].0 = 3;
    assert_eq!(slice[1], (3, "b"));
    m2m.iter_mut().for_each(|(l, _)| *l += 2);
    assert_eq!(pairs_of(&m2m), vec![(3, "a"), (5, "b")]);
}

#[test]
fn default_is_empty() {
    let m2m: M2M<u8, u8> = Default::default();
    assert!(m2m.is_empty());
}

#[test]
fn get_rights_mut_writes_back() {
    let mut m2m = M2M::from(vec![(1, 11), (1, 111), (2, 22), (2, 222)]);
    let rights = m2m.get_rights_mut(&1).unwrap();
    rights.into_iter().for_each(|r| *r *= 3);
    assert_eq!(m2m.rights(), Some(vec![&22, &33, &222, &333]));
    assert_eq!(m2m.get_rights_mut(&5), None);
}

#[test]
fn get_lefts_mut_writes_back() {
    let mut m2m = M2M::from(vec![(1, "a"), (1, "b"), (2, "a"), (2, "b")]);
    let lefts = m2m.get_lefts_mut(&"a").unwrap();
    lefts.into_iter().for_each(|l| *l *= 3);
    assert_eq!(m2m.lefts(), Some(vec![&1, &2, &3, &6]));
    assert_eq!(m2m.get_lefts_mut(&"z"), None);
}

#[test]
fn into_iter_by_value_and_reference() {
    let mut m2m = M2M::from(vec![(2, "b"), (1, "a")]);
    let mut seen = Vec::new();
    for p in &m2m {
        seen.push(*p);
    }
    assert_eq!(seen, vec![(1, "a"), (2, "b")]);
    for p in &mut m2m {
        p.0 *= 3;
    }
    let owned: Vec<(i32, &str)> = m2m.into_iter().collect();
    assert_eq!(owned, vec![(3, "a"), (6, "b")]);
}
