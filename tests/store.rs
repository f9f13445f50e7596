use sneedov::database::{ChainError, MemoryDB, Query};

#[test]
fn add_word_is_idempotent() {
    let mut db = MemoryDB::new();
    let a = db.add_word(("first", "the")).unwrap();
    for _ in 0..5 {
        assert_eq!(db.add_word(("first", "the")), Ok(a));
    }
    assert_eq!(db.word_count(), 1);
}

#[test]
fn identities_are_assigned_in_order() {
    let mut db = MemoryDB::new();
    assert_eq!(db.add_word(("end", "")), Ok(1));
    assert_eq!(db.add_word(("start", "")), Ok(2));
    assert_eq!(db.add_word(("first", "the")), Ok(3));
    assert_eq!(db.add_word(("middle", "the")), Ok(4));
    assert_eq!(db.add_word(("first", "the")), Ok(3));
    assert_eq!(db.entry(3), ("middle".to_string(), "the".to_string()));
}

#[test]
fn get_word_of_unknown_identity_fails() {
    let mut db = MemoryDB::new();
    db.add_word(("first", "cat")).unwrap();
    assert_eq!(db.get_word(1), Ok("cat".to_string()));
    assert_eq!(db.get_word(0), Err(ChainError::NotFound(0)));
    assert_eq!(db.get_word(2), Err(ChainError::NotFound(2)));
}

#[test]
fn increment_counts_each_observation() {
    let mut db = MemoryDB::new();
    for w in ["a", "b", "c"] {
        db.add_word(("middle", w)).unwrap();
    }
    assert_eq!(db.increment(1, 2, 3), Ok(()));
    assert_eq!(db.row(0), (1, 2, 3, 1));
    assert_eq!(db.increment(1, 2, 3), Ok(()));
    assert_eq!(db.increment(1, 2, 3), Ok(()));
    assert_eq!(db.row_count(), 1);
    assert_eq!(db.row(0), (1, 2, 3, 3));
    assert_eq!(db.increment(1, 2, 9), Err(ChainError::NotFound(9)));
    assert_eq!(db.row_count(), 1);
}

#[test]
fn the_four_query_shapes() {
    let mut db = MemoryDB::new();
    for w in ["a", "b", "c", "d"] {
        db.add_word(("middle", w)).unwrap();
    }
    db.increment(1, 2, 3).unwrap();
    db.increment(1, 2, 3).unwrap();
    db.increment(4, 2, 1).unwrap();
    db.increment(2, 3, 4).unwrap();
    assert_eq!(db.get_single_occurrences(2), vec![(3, 2), (1, 1)]);
    assert_eq!(db.get_double_occurrences(1, 2), vec![(3, 2)]);
    assert_eq!(db.get_double_occurrences(3, 2), Vec::<(u64, u64)>::new());
    assert_eq!(db.get_prev_single_occurrences(2), vec![(1, 2), (4, 1)]);
    assert_eq!(db.get_prev_double_occurrences(2, 1), vec![(4, 1)]);
    assert_eq!(db.occurrences(Query::Next(3)), vec![(4, 1)]);
    assert_eq!(db.get_single_occurrences(4), Vec::<(u64, u64)>::new());
}

#[test]
fn case_insensitive_lookup_folds_both_sides() {
    let mut db = MemoryDB::new();
    db.add_word(("first", "The")).unwrap();
    db.add_word(("middle", "the")).unwrap();
    db.add_word(("last", "cat")).unwrap();
    assert_eq!(
        db.get_case_insensitive("THE"),
        vec![(1, "first".to_string()), (2, "middle".to_string())]
    );
    assert_eq!(db.get_case_insensitive("Cat"), vec![(3, "last".to_string())]);
    assert_eq!(db.get_case_insensitive("dog"), Vec::<(u64, String)>::new());
}

#[test]
fn identity_survives_interleaved_calls() {
    let mut db = MemoryDB::new();
    let a = db.add_word(("middle", "a")).unwrap();
    let b = db.add_word(("middle", "b")).unwrap();
    db.increment(a, b, a).unwrap();
    assert_eq!(db.add_word(("last", "c")), Ok(3));
    assert_eq!(db.add_word(("middle", "a")), Ok(a));
    db.increment(b, a, b).unwrap();
    assert_eq!(db.add_word(("middle", "a")), Ok(a));
    assert_eq!(db.add_word(("middle", "b")), Ok(b));
    assert_eq!(db.word_count(), 3);
}
