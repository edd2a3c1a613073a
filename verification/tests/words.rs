use hyperloglog::HyperLogLog;
use hyperloglog::text::words;

fn fresh(precision: u8) -> HyperLogLog {
    match HyperLogLog::new(precision) {
        Ok(hll) => hll,
        Err(e) => panic!("precision {} refused: {:?}", precision, e),
    }
}

#[test]
fn words_are_runs_of_word_characters_in_lower_case() {
    assert_eq!(
        words("Hello, World! hello_world 42"),
        vec!["hello", "world", "hello_world", "42"]
    );
}

#[test]
fn words_of_a_text_without_word_characters_are_none() {
    assert!(words("").is_empty());
    assert!(words("  ,;:!? -- ...").is_empty());
}

#[test]
fn words_keep_duplicates_and_order() {
    assert_eq!(words("The the THE a the"), vec!["the", "the", "the", "a", "the"]);
}

#[test]
fn words_take_letters_of_any_script() {
    assert_eq!(words("Élan ÜBER naïve"), vec!["élan", "über", "naïve"]);
}

#[test]
fn add_all_adds_each_item() {
    let items: Vec<String> = vec!["one".to_string(), "two".to_string(), "three".to_string()];
    let mut bulk = fresh(10);
    bulk.add_all(&items);
    let mut single = fresh(10);
    for item in items.iter() {
        single.add(item);
    }
    assert_eq!(bulk.registers(), single.registers());
    assert!(bulk.registers().iter().any(|&r| r != 0));
}

#[test]
fn add_all_of_nothing_changes_nothing() {
    let mut hll = fresh(4);
    hll.add_all(&Vec::new());
    assert!(hll.registers().iter().all(|&r| r == 0));
}

#[test]
fn add_text_adds_each_word_in_lower_case() {
    let mut by_text = fresh(10);
    by_text.add_text("Red green, BLUE; red?");
    let mut by_word = fresh(10);
    for word in ["red", "green", "blue"] {
        by_word.add(word);
    }
    assert_eq!(by_text.registers(), by_word.registers());
}

#[test]
fn add_text_without_words_changes_nothing() {
    let mut hll = fresh(10);
    hll.add_text("... !!! ???");
    assert!(hll.registers().iter().all(|&r| r == 0));
}
