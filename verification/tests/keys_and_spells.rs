use type_animals::key_counts::{
    count_keys, finishing_spell, get_keycount, initialize_key_count, pop_and_refill,
    reset_key_count, KeyCounts,
};
use type_animals::keys::check_key;
use type_animals::spell_book::{default_spell_book, ConfigError, SpellBook};

fn book_of(pairs: &[(&str, &str)]) -> SpellBook {
    SpellBook::from_pairs(pairs.iter().map(|(a, b)| (a.to_string(), b.to_string())).collect())
}

fn letters(counts: &KeyCounts, spell: &str) -> Option<String> {
    counts.remaining(&spell.to_string()).map(|v| v.into_iter().collect())
}

#[test]
fn check_key_decodes_letter_keys() {
    assert_eq!(check_key("KeyA".to_string()), Some('a'));
    assert_eq!(check_key("KeyZ".to_string()), Some('z'));
    assert_eq!(check_key("Keyb".to_string()), Some('b'));
    assert_eq!(check_key("KeyAB".to_string()), Some('a'));
}

#[test]
fn check_key_ignores_other_keys() {
    assert_eq!(check_key("Space".to_string()), None);
    assert_eq!(check_key("Num1".to_string()), None);
    assert_eq!(check_key("ShiftLeft".to_string()), None);
    assert_eq!(check_key("key".to_string()), None);
}

#[test]
fn spell_book_reads_json() {
    let book = SpellBook::from_json(r#"{"cat": "/data/cat.jpeg"}"#).unwrap();
    assert_eq!(book.len(), 1);
    assert_eq!(book.get(&"cat".to_string()), Some("/data/cat.jpeg".to_string()));
    assert_eq!(book.get(&"dog".to_string()), None);
}

#[test]
fn spell_book_rejects_bad_json() {
    assert_eq!(SpellBook::from_json("not json").err(), Some(ConfigError::InvalidJson));
    assert_eq!(SpellBook::from_json(r#"{"cat": 3}"#).err(), Some(ConfigError::InvalidJson));
    assert_eq!(SpellBook::from_json(r#"["cat"]"#).err(), Some(ConfigError::InvalidJson));
}

#[test]
fn spell_book_later_pair_wins() {
    let book = book_of(&[("cat", "a.png"), ("dog", "d.png"), ("cat", "b.png")]);
    assert_eq!(book.len(), 2);
    assert_eq!(book.get(&"cat".to_string()), Some("b.png".to_string()));
    assert_eq!(book.entry(0), ("cat".to_string(), "b.png".to_string()));
    assert_eq!(book.entry(1), ("dog".to_string(), "d.png".to_string()));
}

#[test]
fn spell_book_insert_then_get() {
    let mut book = SpellBook::new();
    book.insert("owl".to_string(), "owl.png".to_string());
    book.insert("owl".to_string(), "owl2.png".to_string());
    assert_eq!(book.len(), 1);
    assert_eq!(book.get(&"owl".to_string()), Some("owl2.png".to_string()));
}

#[test]
fn spell_book_replace_existing_only() {
    let mut book = book_of(&[("cat", "a.png")]);
    assert!(book.replace_existing("cat".to_string(), "c.png".to_string()));
    assert!(!book.replace_existing("dog".to_string(), "d.png".to_string()));
    assert_eq!(book.len(), 1);
    assert_eq!(book.get(&"cat".to_string()), Some("c.png".to_string()));
}

#[test]
fn spell_book_json_round_trip() {
    let book = book_of(&[("cat", "/x/cat.jpeg"), ("dog", "/x/\"dog\".png")]);
    let text = book.to_json_pretty().unwrap();
    let back = SpellBook::from_json(&text).unwrap();
    assert_eq!(back.len(), 2);
    assert_eq!(back.get(&"cat".to_string()), Some("/x/cat.jpeg".to_string()));
    assert_eq!(back.get(&"dog".to_string()), Some("/x/\"dog\".png".to_string()));
}

#[test]
fn default_spell_book_points_cat_at_image() {
    let book = default_spell_book(r#"{"cat": "cat_1.jpeg", "dog": "dog.png"}"#, "/d/images/cat_1.jpeg".to_string()).unwrap();
    assert_eq!(book.get(&"cat".to_string()), Some("/d/images/cat_1.jpeg".to_string()));
    assert_eq!(book.get(&"dog".to_string()), Some("dog.png".to_string()));
    let no_cat = default_spell_book(r#"{"dog": "dog.png"}"#, "/d/c.jpeg".to_string()).unwrap();
    assert_eq!(no_cat.len(), 1);
    assert_eq!(no_cat.get(&"cat".to_string()), None);
    assert_eq!(default_spell_book("{", "/d/c.jpeg".to_string()).err(), Some(ConfigError::InvalidJson));
}

#[test]
fn initialize_starts_every_spell() {
    let book = book_of(&[("cat", "c.png"), ("dog", "d.png")]);
    let mut counts = KeyCounts::new();
    initialize_key_count(&mut counts, &book);
    assert_eq!(counts.len(), 2);
    assert_eq!(letters(&counts, "cat"), Some("cat".to_string()));
    assert_eq!(letters(&counts, "dog"), Some("dog".to_string()));
}

#[test]
fn initialize_keeps_spells_outside_the_book() {
    let mut counts = KeyCounts::new();
    assert!(pop_and_refill(&mut counts, "owl"));
    let book = book_of(&[("cat", "c.png")]);
    initialize_key_count(&mut counts, &book);
    assert_eq!(counts.len(), 2);
    assert_eq!(letters(&counts, "owl"), Some("owl".to_string()));
    assert_eq!(letters(&counts, "cat"), Some("cat".to_string()));
}

#[test]
fn reset_forgets_progress() {
    let book = book_of(&[("cat", "c.png")]);
    let mut counts = KeyCounts::new();
    initialize_key_count(&mut counts, &book);
    reset_key_count(&mut counts);
    assert_eq!(counts.len(), 0);
    assert_eq!(letters(&counts, "cat"), None);
}

#[test]
fn get_keycount_copies() {
    let book = book_of(&[("cat", "c.png"), ("dog", "d.png")]);
    let mut counts = KeyCounts::new();
    initialize_key_count(&mut counts, &book);
    pop_and_refill(&mut counts, "dog");
    let copy = get_keycount(&counts);
    assert_eq!(copy.len(), 2);
    assert_eq!(letters(&copy, "cat"), Some("cat".to_string()));
    assert_eq!(letters(&copy, "dog"), Some("og".to_string()));
}

#[test]
fn pop_and_refill_cycles_through_a_spell() {
    let book = book_of(&[("cat", "c.png")]);
    let mut counts = KeyCounts::new();
    initialize_key_count(&mut counts, &book);
    assert!(!pop_and_refill(&mut counts, "cat"));
    assert_eq!(letters(&counts, "cat"), Some("at".to_string()));
    assert!(!pop_and_refill(&mut counts, "cat"));
    assert_eq!(letters(&counts, "cat"), Some("t".to_string()));
    assert!(pop_and_refill(&mut counts, "cat"));
    assert_eq!(letters(&counts, "cat"), Some("cat".to_string()));
}

#[test]
fn pop_and_refill_new_spell_starts_full() {
    let mut counts = KeyCounts::new();
    assert!(pop_and_refill(&mut counts, "fox"));
    assert_eq!(letters(&counts, "fox"), Some("fox".to_string()));
    assert!(pop_and_refill(&mut counts, ""));
    assert_eq!(letters(&counts, ""), Some(String::new()));
}

#[test]
fn typing_a_spell_brings_up_its_image() {
    let book = book_of(&[("cat", "/img/cat.jpeg")]);
    let mut counts = KeyCounts::new();
    initialize_key_count(&mut counts, &book);
    assert_eq!(count_keys(&mut counts, &book, 'c'), None);
    assert_eq!(count_keys(&mut counts, &book, 'a'), None);
    assert_eq!(finishing_spell(&counts, 't'), Some("cat".to_string()));
    assert_eq!(count_keys(&mut counts, &book, 't'), Some("/img/cat.jpeg".to_string()));
    assert_eq!(letters(&counts, "cat"), Some("cat".to_string()));
    // and again
    for c in ['c', 'a'] {
        assert_eq!(count_keys(&mut counts, &book, c), None);
    }
    assert_eq!(count_keys(&mut counts, &book, 't'), Some("/img/cat.jpeg".to_string()));
}

#[test]
fn a_wrong_letter_changes_nothing() {
    let book = book_of(&[("cat", "c.png")]);
    let mut counts = KeyCounts::new();
    initialize_key_count(&mut counts, &book);
    assert_eq!(count_keys(&mut counts, &book, 'c'), None);
    assert_eq!(count_keys(&mut counts, &book, 'x'), None);
    // the wrong letter does not reset the spell
    assert_eq!(letters(&counts, "cat"), Some("at".to_string()));
}

#[test]
fn any_registered_spell_brings_up_its_image() {
    // a spell walked before the typed one whose next letter differs is passed over
    let book = book_of(&[("dog", "/img/dog.png"), ("cat", "/img/cat.jpeg")]);
    let mut counts = KeyCounts::new();
    initialize_key_count(&mut counts, &book);
    assert_eq!(count_keys(&mut counts, &book, 'c'), None);
    assert_eq!(count_keys(&mut counts, &book, 'a'), None);
    assert_eq!(count_keys(&mut counts, &book, 't'), Some("/img/cat.jpeg".to_string()));
    assert_eq!(letters(&counts, "cat"), Some("cat".to_string()));
    assert_eq!(letters(&counts, "dog"), Some("dog".to_string()));
    for c in ['d', 'o'] {
        assert_eq!(count_keys(&mut counts, &book, c), None);
    }
    assert_eq!(count_keys(&mut counts, &book, 'g'), Some("/img/dog.png".to_string()));
}

#[test]
fn typing_a_spell_over_and_over() {
    let book = book_of(&[("owl", "/img/owl.png")]);
    let mut counts = KeyCounts::new();
    initialize_key_count(&mut counts, &book);
    let mut i = 0;
    for _ in 0..4 {
        for c in "owl".chars() {
            i += 1;
            let expected = if i % 3 == 0 { Some("/img/owl.png".to_string()) } else { None };
            assert_eq!(count_keys(&mut counts, &book, c), expected);
        }
    }
    assert_eq!(letters(&counts, "owl"), Some("owl".to_string()));
}

#[test]
fn a_matching_earlier_spell_lets_the_walk_go_on() {
    let book = book_of(&[("cow", "w.png"), ("cat", "c.png")]);
    let mut counts = KeyCounts::new();
    initialize_key_count(&mut counts, &book);
    assert_eq!(count_keys(&mut counts, &book, 'c'), None);
    assert_eq!(letters(&counts, "cow"), Some("ow".to_string()));
    assert_eq!(letters(&counts, "cat"), Some("at".to_string()));
    assert_eq!(finishing_spell(&counts, 'a'), None);
}

#[test]
fn finishing_spell_changes_nothing() {
    let book = book_of(&[("ox", "o.png")]);
    let mut counts = KeyCounts::new();
    initialize_key_count(&mut counts, &book);
    assert_eq!(finishing_spell(&counts, 'o'), None);
    assert_eq!(count_keys(&mut counts, &book, 'o'), None);
    assert_eq!(finishing_spell(&counts, 'x'), Some("ox".to_string()));
    assert_eq!(letters(&counts, "ox"), Some("x".to_string()));
}
