use sneedov::database::{ChainError, MemoryDB};
use sneedov::markov::{choose_next, join_halves, Markov, MarkovType, ReplyMode};

fn model(markov_type: MarkovType, reply_mode: ReplyMode) -> Markov {
    Markov::builder(MemoryDB::new())
        .markov_type(markov_type)
        .reply_mode(reply_mode)
        .build()
        .unwrap()
}

fn entries(m: &Markov) -> Vec<(String, String)> {
    let db = m.get_database();
    (0..db.word_count()).map(|i| db.entry(i)).collect()
}

fn e(role: &str, text: &str) -> (String, String) {
    (role.to_string(), text.to_string())
}

#[test]
fn sentinels_take_identities_one_and_two() {
    for t in [MarkovType::Single(0), MarkovType::Double(0), MarkovType::Hybrid(10)] {
        let m = model(t, ReplyMode::Reply);
        assert_eq!(entries(&m), vec![e("end", ""), e("start", "")]);
    }
    let m = Markov::new(MemoryDB::new()).unwrap();
    assert_eq!(m.get_database().get_word(1), Ok(String::new()));
    assert_eq!(m.get_markov_type(), MarkovType::Hybrid(10));
    assert_eq!(m.get_markov_chance(), 10);
    assert_eq!(m.get_reply_mode(), ReplyMode::Reply);
}

#[test]
fn store_without_sentinels_first_is_corrupt() {
    let mut db = MemoryDB::new();
    db.add_word(("first", "hello")).unwrap();
    assert!(matches!(Markov::new(db), Err(ChainError::Corrupt)));
}

#[test]
fn reopening_a_model_keeps_its_sentinels() {
    let mut m = model(MarkovType::Double(0), ReplyMode::Reply);
    m.append_line("hi there").unwrap();
    let db = m.into_database();
    let again = Markov::new(db).unwrap();
    assert_eq!(entries(&again).len(), 4);
}

#[test]
fn round_trip_of_one_line() {
    let mut m = model(MarkovType::Double(0), ReplyMode::Reply);
    m.append_line("the cat sat .").unwrap();
    assert_eq!(
        entries(&m),
        vec![
            e("end", ""),
            e("start", ""),
            e("first", "the"),
            e("middle", "cat"),
            e("middle", "sat"),
            e("last", "."),
        ]
    );
    let db = m.get_database();
    let rows: Vec<_> = (0..db.row_count()).map(|i| db.row(i)).collect();
    assert_eq!(rows, vec![(2, 2, 3, 1), (2, 3, 4, 1), (3, 4, 5, 1), (4, 5, 6, 1), (5, 6, 1, 1)]);
    for _ in 0..20 {
        assert_eq!(m.generate().unwrap(), "the cat sat.");
    }
}

#[test]
fn repeated_lines_add_up() {
    let mut m = model(MarkovType::Double(0), ReplyMode::Reply);
    for _ in 0..3 {
        m.append_line("a b").unwrap();
    }
    let db = m.get_database();
    let rows: Vec<_> = (0..db.row_count()).map(|i| db.row(i)).collect();
    assert_eq!(rows, vec![(2, 2, 3, 3), (2, 3, 4, 3), (3, 4, 1, 3)]);
}

#[test]
fn one_token_line_is_last() {
    let mut m = model(MarkovType::Single(0), ReplyMode::Reply);
    m.append_line("hey").unwrap();
    assert_eq!(entries(&m)[2], e("last", "hey"));
    assert_eq!(m.generate().unwrap(), "hey");
}

#[test]
fn generation_on_an_empty_model_is_empty() {
    for t in [MarkovType::Single(0), MarkovType::Double(0), MarkovType::Hybrid(10)] {
        let m = model(t, ReplyMode::Reply);
        assert_eq!(m.generate().unwrap(), "");
    }
}

#[test]
fn generation_terminates_on_a_cycle() {
    let mut m = model(MarkovType::Single(0), ReplyMode::Reply);
    m.append_line("a a a a a").unwrap();
    for _ in 0..20 {
        let s = m.generate().unwrap();
        assert!(s.starts_with('a'));
        assert!(s.split(' ').all(|w| w == "a"));
    }
}

#[test]
fn hybrid_step_backs_off_below_threshold() {
    assert_eq!(choose_next(MarkovType::Hybrid(10), Some((5, 3)), Some((7, 1))), Some(7));
    assert_eq!(choose_next(MarkovType::Hybrid(10), Some((5, 10)), Some((7, 1))), Some(5));
    assert_eq!(choose_next(MarkovType::Hybrid(10), Some((5, 3)), None), None);
    assert_eq!(choose_next(MarkovType::Hybrid(10), None, Some((7, 1))), None);
    assert_eq!(choose_next(MarkovType::Double(10), Some((5, 3)), Some((7, 1))), Some(5));
    assert_eq!(choose_next(MarkovType::Single(10), Some((5, 3)), Some((7, 1))), Some(7));
    assert_eq!(choose_next(MarkovType::Single(10), Some((5, 3)), None), None);
}

#[test]
fn hybrid_sampling_follows_order_one_below_threshold() {
    // After "a x" the pair records hold only "y", seen once (below the threshold); the
    // single records of "x", over every predecessor, also hold "z".
    let lines = ["a x y", "b x z"];
    let mut hybrid = model(MarkovType::Hybrid(5), ReplyMode::Reply);
    let mut double = model(MarkovType::Double(0), ReplyMode::Reply);
    for l in lines {
        hybrid.append_line(l).unwrap();
        double.append_line(l).unwrap();
    }
    let mut crossed = false;
    for _ in 0..300 {
        let s = hybrid.generate().unwrap();
        assert!(["a x y", "a x z", "b x y", "b x z"].contains(&s.as_str()), "{}", s);
        if s == "a x z" || s == "b x y" {
            crossed = true;
        }
        let d = double.generate().unwrap();
        assert!(d == "a x y" || d == "b x z", "{}", d);
    }
    assert!(crossed);
}

#[test]
fn reply_anchored_on_first_walks_forward() {
    let mut m = model(MarkovType::Double(0), ReplyMode::Reply);
    m.append_line("the cat sat .").unwrap();
    assert_eq!(m.generate_reply("THE").unwrap(), "the cat sat.");
}

#[test]
fn reply_anchored_on_last_walks_backward() {
    let mut m = model(MarkovType::Double(0), ReplyMode::Reply);
    m.append_line("the cat sat .").unwrap();
    assert_eq!(m.generate_reply(".").unwrap(), "the cat sat.");
}

#[test]
fn reply_anchored_in_the_middle_walks_both_ways() {
    let mut m = model(MarkovType::Double(0), ReplyMode::Reply);
    m.append_line("the cat sat .").unwrap();
    assert_eq!(m.generate_reply("cat").unwrap(), "the cat sat.");
    assert_eq!(m.generate_reply("sat").unwrap(), "the cat sat.");
}

#[test]
fn reply_without_match_fails() {
    let mut m = model(MarkovType::Double(0), ReplyMode::Reply);
    m.append_line("the cat sat .").unwrap();
    assert_eq!(m.generate_reply("dog"), Err(ChainError::NoAnchorMatch));
}

#[test]
fn reply_modes() {
    let mut off = model(MarkovType::Double(0), ReplyMode::Off);
    off.append_line("the cat sat .").unwrap();
    assert_eq!(off.generate_reply("cat").unwrap(), "");
    let mut random = model(MarkovType::Double(0), ReplyMode::Random);
    random.append_line("the cat sat .").unwrap();
    assert_eq!(random.generate_reply("dog").unwrap(), "the cat sat.");
    let mut unique = model(MarkovType::Double(0), ReplyMode::ReplyUnique);
    unique.append_line("the cat sat .").unwrap();
    assert_eq!(unique.generate_reply("the cat sat.").unwrap(), "the cat sat.");
}

#[test]
fn halves_join_with_one_space() {
    assert_eq!(join_halves("a b".to_string(), "c".to_string()), "a b c");
    assert_eq!(join_halves("a b".to_string(), ". c".to_string()), "a b. c");
    assert_eq!(join_halves("a,".to_string(), "c".to_string()), "a,c");
    assert_eq!(join_halves(String::new(), "c".to_string()), "c");
    assert_eq!(join_halves("a".to_string(), String::new()), "a");
}

#[test]
fn chance_gate() {
    let never = Markov::builder(MemoryDB::new()).markov_chance(0).build().unwrap();
    let always = Markov::builder(MemoryDB::new()).markov_chance(1).build().unwrap();
    for _ in 0..20 {
        assert!(!never.chance());
        assert!(always.chance());
    }
}

#[test]
fn batch_ingestion_skips_blank_lines() {
    let mut m = model(MarkovType::Double(0), ReplyMode::Reply);
    m.append_line_batch("the cat sat .\n\n   \n").unwrap();
    assert_eq!(entries(&m).len(), 6);
    assert_eq!(m.generate().unwrap(), "the cat sat.");
}

#[test]
fn reply_on_an_anchor_without_successor_fails() {
    let mut db = MemoryDB::new();
    db.add_word(("end", "")).unwrap();
    db.add_word(("start", "")).unwrap();
    db.add_word(("middle", "zed")).unwrap();
    let m = Markov::new(db).unwrap();
    assert_eq!(m.generate_reply("Zed"), Err(ChainError::DeadEnd));
}

#[test]
fn a_triple_repeated_within_a_line_counts_twice() {
    let mut m = model(MarkovType::Double(0), ReplyMode::Reply);
    m.append_line("a b a b a b a").unwrap();
    assert_eq!(
        entries(&m)[2..],
        [e("first", "a"), e("middle", "b"), e("middle", "a"), e("last", "a")]
    );
    let db = m.get_database();
    let rows: Vec<_> = (0..db.row_count()).map(|i| db.row(i)).collect();
    assert!(rows.contains(&(4, 5, 4, 2)));
    assert!(rows.contains(&(5, 4, 5, 1)));
    assert!(rows.contains(&(5, 4, 6, 1)));
}
