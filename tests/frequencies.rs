use std::collections::HashMap;

use symcount::{count_symbols, FrequencyTable};

fn as_map(table: &FrequencyTable) -> HashMap<char, usize> {
    table.entries().into_iter().collect()
}

#[test]
fn counts_each_symbol_occurrence() {
    let mut table = FrequencyTable::new();
    count_symbols(String::from("a;b;c/"), &mut table);
    let mut expected = HashMap::new();
    expected.insert(';', 2);
    expected.insert('/', 1);
    assert_eq!(expected, as_map(&table));
    assert_eq!(2, table.get(';'));
    assert_eq!(0, table.get('a'));
}

#[test]
fn text_without_symbols_leaves_table_unchanged() {
    let mut table = FrequencyTable::new();
    count_symbols(String::from("{x}"), &mut table);
    let before = as_map(&table);
    count_symbols(String::from("plain words 42"), &mut table);
    assert_eq!(before, as_map(&table));
}

#[test]
fn counting_accumulates_across_texts() {
    let mut table = FrequencyTable::new();
    count_symbols(String::from("(a)"), &mut table);
    count_symbols(String::from("(b)\\"), &mut table);
    assert_eq!(2, table.get('('));
    assert_eq!(2, table.get(')'));
    assert_eq!(1, table.get('\\'));
}

#[test]
fn order_of_texts_does_not_matter() {
    let texts = ["fn main() { x.y(); }", "a, b; <c> == \"d\"", "#[derive] 'q' ~!@$%^&*-+|?"];
    let mut forward = FrequencyTable::new();
    for t in texts.iter() {
        count_symbols(t.to_string(), &mut forward);
    }
    let mut backward = FrequencyTable::new();
    for t in texts.iter().rev() {
        count_symbols(t.to_string(), &mut backward);
    }
    assert_eq!(as_map(&forward), as_map(&backward));
}

#[test]
fn every_alphabet_symbol_is_counted() {
    let alphabet = ".,<>?/!\"@$%'()|{}^&*~-[]#=+:\\;";
    let mut table = FrequencyTable::new();
    count_symbols(String::from(alphabet), &mut table);
    assert_eq!(30, table.entries().len());
    count_symbols(String::from("`_"), &mut table);
    assert_eq!(30, table.entries().len());
}
