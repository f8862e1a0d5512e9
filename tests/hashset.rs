use spell_checker::hashset::HashSet;

#[test]
fn test_basics() {
    let mut table = HashSet::new().with_capacity(500);

    assert!(table.is_empty());

    table.insert("a");

    assert!(!table.is_empty());
    assert!(table.contains("a"));
    assert!(!table.contains("b"));
    assert!(!table.contains("c"));
    assert_eq!(table.len(), 1);

    table.remove("a");

    assert!(table.is_empty());
    assert!(!table.contains("a"));
    assert_eq!(table.len(), 0);

    table.insert("a");

    assert!(!table.is_empty());
    assert!(table.contains("a"));
    assert_eq!(table.len(), 1);

    table.insert("b");

    assert!(!table.is_empty());
    assert!(table.contains("a"));
    assert!(table.contains("b"));
    assert_eq!(table.len(), 2);

    table.insert("c");

    assert!(!table.is_empty());
    assert!(table.contains("a"));
    assert!(table.contains("b"));
    assert!(table.contains("c"));
    assert_eq!(table.len(), 3);

    table.remove("a");

    assert!(!table.is_empty());
    assert!(!table.contains("a"));
    assert!(table.contains("b"));
    assert!(table.contains("c"));
    assert_eq!(table.len(), 2);

    table.remove("b");

    assert!(!table.is_empty());
    assert!(!table.contains("a"));
    assert!(!table.contains("b"));
    assert!(table.contains("c"));
    assert_eq!(table.len(), 1);

    table.insert("c");

    assert!(!table.is_empty());
    assert!(!table.contains("a"));
    assert!(!table.contains("b"));
    assert!(table.contains("c"));
    assert_eq!(table.len(), 1);

    table.remove("c");

    assert!(table.is_empty());
    assert!(!table.contains("a"));
    assert!(!table.contains("b"));
    assert!(!table.contains("c"));

    table.remove("c");

    assert!(table.is_empty());
    assert!(!table.contains("a"));
    assert!(!table.contains("b"));
    assert!(!table.contains("c"));
}

#[test]
fn inserted_word_stays_through_other_changes() {
    let mut table = HashSet::new().with_capacity(7);
    table.insert("kept");
    table.insert("other");
    table.remove("other");
    table.insert("third");
    table.remove("missing");
    assert!(table.contains("kept"));
    table.remove("kept");
    assert!(!table.contains("kept"));
}

#[test]
fn insert_twice_keeps_length() {
    let mut table = HashSet::new().with_capacity(3);
    table.insert("word");
    let once = table.len();
    table.insert("word");
    assert_eq!(table.len(), once);
    assert_eq!(table.len(), 1);
}

#[test]
fn never_inserted_is_absent() {
    let mut table = HashSet::new().with_capacity(11);
    table.insert("alpha");
    table.insert("beta");
    assert!(!table.contains("gamma"));
    assert!(!table.contains(""));
}

#[test]
fn length_after_inserts_and_removals() {
    let mut table = HashSet::new().with_capacity(5);
    let words = ["one", "two", "three", "four", "five", "six", "seven"];
    for w in words.iter() {
        table.insert(w);
    }
    assert_eq!(table.len(), 7);
    table.remove("two");
    table.remove("six");
    table.remove("one");
    assert_eq!(table.len(), 4);
}

#[test]
fn single_bucket_chains_every_word() {
    let mut table = HashSet::new().with_capacity(1);
    table.insert("x");
    table.insert("y");
    table.insert("z");
    assert_eq!(table.capacity(), 1);
    assert_eq!(table.len(), 3);
    table.remove("y");
    assert!(table.contains("x"));
    assert!(!table.contains("y"));
    assert!(table.contains("z"));
}

#[test]
fn items_lists_every_word_once() {
    let mut table = HashSet::new().with_capacity(13);
    table.insert("pear");
    table.insert("apple");
    table.insert("fig");
    table.insert("apple");
    let mut items = table.items();
    items.sort();
    assert_eq!(items, vec!["apple", "fig", "pear"]);
}

#[test]
fn with_radix_keeps_the_words() {
    let mut table = HashSet::new().with_capacity(17);
    table.insert("left");
    table.insert("right");
    let table = table.with_radix(31);
    assert_eq!(table.len(), 2);
    assert_eq!(table.capacity(), 17);
    assert!(table.contains("left"));
    assert!(table.contains("right"));
    assert!(!table.contains("up"));
}

#[test]
fn new_set_has_no_buckets() {
    let table = HashSet::new();
    assert_eq!(table.capacity(), 0);
    assert!(table.is_empty());
    assert_eq!(table.items(), Vec::<String>::new());
}

#[test]
fn repeated_insert_and_absent_remove_change_nothing() {
    let mut table = HashSet::new().with_capacity(3);
    table.insert("b");
    table.insert("a");
    table.insert("c");
    let before = table.items();
    table.insert("a");
    assert_eq!(table.items(), before);
    table.remove("zzz");
    assert_eq!(table.items(), before);
    assert_eq!(table.len(), 3);
}
