use blaise::{compare, Distribution, NgramError, Relation, Slot};

#[test]
fn new_distribution_is_empty() {
    let dist: Distribution<u32> = Distribution::new();
    assert!(dist.is_empty());
    assert_eq!(dist.len(), 0);
    assert_eq!(dist.get(b"a"), None);
    assert!(!dist.contains_key(b""));
    assert_eq!(dist.gram_at(0), None);
    assert_eq!(dist.weight_at(0), None);
    assert_eq!(dist.search(b"a"), Slot::Vacant(0));
}

#[test]
fn with_keeps_grams_in_order() {
    let dist = Distribution::new()
        .with(b"m".to_vec(), 1u32)
        .with(b"a".to_vec(), 2)
        .with(b"z".to_vec(), 3)
        .with(b"mm".to_vec(), 4);
    assert_eq!(dist.len(), 4);
    assert_eq!(dist.gram_at(0), Some(&b"a"[..]));
    assert_eq!(dist.gram_at(1), Some(&b"m"[..]));
    assert_eq!(dist.gram_at(2), Some(&b"mm"[..]));
    assert_eq!(dist.gram_at(3), Some(&b"z"[..]));
    assert_eq!(dist.weight_at(0), Some(&2));
    assert_eq!(dist.weight_at(1), Some(&1));
    assert_eq!(dist.weight_at(2), Some(&4));
    assert_eq!(dist.weight_at(3), Some(&3));
    assert_eq!(dist.get(b"mm"), Some(&4));
    assert_eq!(dist.get(b"mz"), None);
}

#[test]
fn with_replaces_the_weight_of_a_known_gram() {
    let dist = Distribution::new().with(b"ab".to_vec(), 1u32).with(b"ab".to_vec(), 9);
    assert_eq!(dist.len(), 1);
    assert_eq!(dist.get(b"ab"), Some(&9));
}

#[test]
fn search_finds_the_index_or_the_gap() {
    let dist = Distribution::from_weights(vec![
        (b"b".to_vec(), 0u8),
        (b"d".to_vec(), 0),
        (b"f".to_vec(), 0),
    ]);
    assert_eq!(dist.search(b"b"), Slot::Found(0));
    assert_eq!(dist.search(b"d"), Slot::Found(1));
    assert_eq!(dist.search(b"f"), Slot::Found(2));
    assert_eq!(dist.search(b"a"), Slot::Vacant(0));
    assert_eq!(dist.search(b"c"), Slot::Vacant(1));
    assert_eq!(dist.search(b"e"), Slot::Vacant(2));
    assert_eq!(dist.search(b"g"), Slot::Vacant(3));
    assert_eq!(dist.search(b""), Slot::Vacant(0));
    assert_eq!(dist.search(b"bb"), Slot::Vacant(1));
}

#[test]
fn from_weights_takes_weights_as_they_are() {
    let dist = Distribution::from_weights(vec![
        (b"ba".to_vec(), 0.5f64),
        (b"ab".to_vec(), 0.75),
        (b"zz".to_vec(), 3.0),
    ]);
    assert_eq!(dist.len(), 3);
    assert_eq!(dist.get(b"ab"), Some(&0.75));
    assert_eq!(dist.get(b"ba"), Some(&0.5));
    assert_eq!(dist.get(b"zz"), Some(&3.0));
    assert!(dist.contains_key(b"ab"));
    assert!(!dist.contains_key(b"a"));
}

#[test]
fn from_weights_last_weight_stands() {
    let dist = Distribution::from_weights(vec![
        (b"ab".to_vec(), 5u64),
        (b"ba".to_vec(), 7),
        (b"ab".to_vec(), 9),
    ]);
    assert_eq!(dist.len(), 2);
    assert_eq!(dist.get(b"ab"), Some(&9));
    assert_eq!(dist.get(b"ba"), Some(&7));
}

#[test]
fn from_weights_of_nothing_is_empty() {
    let dist: Distribution<f64> = Distribution::from_weights(Vec::new());
    assert!(dist.is_empty());
}

#[test]
fn from_weights_does_not_depend_on_the_order_of_distinct_pairs() {
    let one = Distribution::from_weights(vec![(b"x".to_vec(), 1u8), (b"y".to_vec(), 2)]);
    let two = Distribution::from_weights(vec![(b"y".to_vec(), 2u8), (b"x".to_vec(), 1)]);
    assert_eq!(one, two);
}

#[test]
fn compare_orders_bytes_lexicographically() {
    assert_eq!(compare(b"", b""), Relation::Same);
    assert_eq!(compare(b"", b"a"), Relation::Before);
    assert_eq!(compare(b"a", b""), Relation::After);
    assert_eq!(compare(b"ab", b"ab"), Relation::Same);
    assert_eq!(compare(b"ab", b"abc"), Relation::Before);
    assert_eq!(compare(b"abc", b"ab"), Relation::After);
    assert_eq!(compare(b"ab", b"b"), Relation::Before);
    assert_eq!(compare(b"b", b"ab"), Relation::After);
    assert_eq!(compare(&[0, 255], &[1, 0]), Relation::Before);
    assert_eq!(compare(&[128], &[127, 255]), Relation::After);
}

#[test]
fn compare_agrees_with_the_order_of_slices() {
    let samples: [&[u8]; 7] = [b"", b"a", b"aa", b"ab", b"b", &[0], &[255, 0]];
    for x in samples {
        for y in samples {
            let expected = if x < y {
                Relation::Before
            } else if x == y {
                Relation::Same
            } else {
                Relation::After
            };
            assert_eq!(compare(x, y), expected);
        }
    }
}

#[test]
fn invalid_argument_says_what_is_wrong() {
    assert_eq!(NgramError::InvalidArgument.message(), "n must be >= 1");
}
