use std::collections::HashMap;

use symcount::{count_symbol_bigrams, BigramTable};

fn as_map(table: Option<BigramTable>) -> Option<HashMap<String, u32>> {
    table.map(|t| t.entries().into_iter().collect())
}

#[test]
fn empty_string_contains_no_bigrams() {
    let input = String::from("");
    assert_eq!(None, as_map(count_symbol_bigrams(&input)));
}

#[test]
fn two_symbols_in_sequence_are_bigram() {
    let input = String::from(";/");
    let mut expected_map: HashMap<String, u32> = HashMap::new();
    expected_map.insert(input.to_owned(), 1);
    let expected = Some(expected_map);
    assert_eq!(expected, as_map(count_symbol_bigrams(&input)));
}

#[test]
fn multiple_bigrams_in_one_string() {
    let input = String::from(";/;/");
    let mut expected_map: HashMap<String, u32> = HashMap::new();
    expected_map.insert(input[0..2].to_string(), 2);
    let expected = Some(expected_map);
    assert_eq!(expected, as_map(count_symbol_bigrams(&input)));
}

#[test]
fn repeating_single_symbol_is_no_bigram() {
    let input = String::from(";;");
    assert_eq!(None, as_map(count_symbol_bigrams(&input)));
}

#[test]
fn symbols_that_are_separated_by_non_symbol_are_no_bigram() {
    let input = String::from(";a;");
    assert_eq!(None, as_map(count_symbol_bigrams(&input)));
}

#[test]
fn text_without_symbols_has_no_bigrams() {
    assert_eq!(None, as_map(count_symbol_bigrams("hello world")));
}

#[test]
fn pair_across_chunk_boundary_is_not_found() {
    assert_eq!(None, as_map(count_symbol_bigrams("a;/")));
}

#[test]
fn odd_trailing_character_is_discarded() {
    let mut expected: HashMap<String, u32> = HashMap::new();
    expected.insert(String::from(";/"), 1);
    assert_eq!(Some(expected), as_map(count_symbol_bigrams(";/;")));
}

#[test]
fn repeat_after_a_found_pair_discards_everything() {
    assert_eq!(None, as_map(count_symbol_bigrams(";/;;")));
}

#[test]
fn non_symbol_second_character_discards_the_chunk() {
    let mut expected: HashMap<String, u32> = HashMap::new();
    expected.insert(String::from("()"), 1);
    assert_eq!(Some(expected), as_map(count_symbol_bigrams(";a()")));
}

#[test]
fn counts_add_up_to_the_pair_chunks() {
    let table = count_symbol_bigrams(";/,.;/ab{}").unwrap();
    assert_eq!(3, table.len());
    assert_eq!(2, table.get(';', '/'));
    assert_eq!(1, table.get(',', '.'));
    assert_eq!(1, table.get('{', '}'));
    assert_eq!(0, table.get('/', ';'));
    let total: u32 = table.entries().iter().map(|e| e.1).sum();
    assert_eq!(4, total);
}

#[test]
fn pair_order_matters() {
    let table = count_symbol_bigrams(";//;").unwrap();
    assert_eq!(1, table.get(';', '/'));
    assert_eq!(1, table.get('/', ';'));
    assert_eq!(2, table.len());
}
