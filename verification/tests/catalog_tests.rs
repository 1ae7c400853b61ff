use dmoji::catalog::Catalog;
use dmoji::datadir::DataDir;
use dmoji::scanner::Scanner;

fn build(primary: &str, zwj: &str) -> Catalog {
    let scanner = Scanner::new();
    Catalog::from_texts(&scanner, primary, zwj)
}

#[test]
fn range_line_expands_to_indexed_entries() {
    let catalog = build("1F466..1F469;fully-qualified # boy", "");
    assert_eq!(catalog.len(), 4);
    assert_eq!(catalog.lookup("boy-0"), Some(String::from("\u{1F466}")));
    assert_eq!(catalog.lookup("boy-1"), Some(String::from("\u{1F467}")));
    assert_eq!(catalog.lookup("boy-2"), Some(String::from("\u{1F468}")));
    assert_eq!(catalog.lookup("boy-3"), Some(String::from("\u{1F469}")));
    assert_eq!(catalog.lookup("boy-4"), None);
    assert_eq!(catalog.lookup("boy"), None);
    // insertion order follows the range upward
    assert_eq!(catalog.key_at(0), "boy-0");
    assert_eq!(catalog.key_at(3), "boy-3");
    assert_eq!(catalog.text_at(0), "\u{1F466}");
}

#[test]
fn rescanning_and_merging_twice_changes_nothing() {
    let text = "1F600;x # GRINNING FACE\n1F466..1F468;x # boy\nbad line\n";
    let scanner = Scanner::new();

    let mut once = Catalog::new();
    once.extend(&scanner.emoji(text));

    let mut twice = Catalog::new();
    twice.extend(&scanner.emoji(text));
    twice.extend(&scanner.emoji(text));

    assert_eq!(once.len(), twice.len());
    for i in 0..once.len() {
        assert_eq!(once.key_at(i), twice.key_at(i));
        assert_eq!(once.text_at(i), twice.text_at(i));
    }
}

#[test]
fn later_file_wins_on_key_collision() {
    let catalog = build("1F642;x # X", "1F641;x # X");
    assert_eq!(catalog.len(), 1);
    assert_eq!(catalog.lookup("X"), Some(String::from("\u{1F641}")));
}

#[test]
fn later_line_wins_within_one_file() {
    let catalog = build("1F642;x # X\n1F641;x # X", "");
    assert_eq!(catalog.len(), 1);
    assert_eq!(catalog.lookup("X"), Some(String::from("\u{1F641}")));
}

#[test]
fn selection_is_trimmed_before_lookup() {
    let catalog = build("1F600;fully-qualified # GRINNING FACE", "");
    assert_eq!(catalog.select("GRINNING FACE\n"), Some(String::from("\u{1F600}")));
    assert_eq!(catalog.select("  GRINNING FACE  "), Some(String::from("\u{1F600}")));
    assert_eq!(catalog.select("GRINNING FACE"), Some(String::from("\u{1F600}")));
    assert_eq!(catalog.select("GRINNING\n"), None);
}

#[test]
fn invalid_specs_insert_nothing() {
    assert_eq!(build("1F46G;x # bad", "").len(), 0);
    assert_eq!(build("D800;x # surrogate", "").len(), 0);
    assert_eq!(build("110000;x # too big", "").len(), 0);
}

#[test]
fn reversed_range_inserts_nothing() {
    let catalog = build("1F469..1F466;x # r", "");
    assert_eq!(catalog.len(), 0);
}

#[test]
fn range_crossing_the_surrogate_block_skips_it() {
    let catalog = build("D7FF..E000;x # s", "");
    assert_eq!(catalog.len(), 2);
    assert_eq!(catalog.lookup("s-0"), Some(String::from("\u{D7FF}")));
    assert_eq!(catalog.lookup("s-1"), Some(String::from("\u{E000}")));
}

#[test]
fn range_indices_reach_two_digits() {
    let catalog = build("0041..004C;x # L", "");
    assert_eq!(catalog.len(), 12);
    assert_eq!(catalog.lookup("L-9"), Some(String::from("J")));
    assert_eq!(catalog.lookup("L-10"), Some(String::from("K")));
    assert_eq!(catalog.lookup("L-11"), Some(String::from("L")));
}

#[test]
fn range_indices_reach_three_digits() {
    let catalog = build("0041..00AA;x # G", "");
    assert_eq!(catalog.len(), 106);
    assert_eq!(catalog.lookup("G-100"), Some(String::from("\u{A5}")));
    assert_eq!(catalog.lookup("G-105"), Some(String::from("\u{AA}")));
    assert_eq!(catalog.lookup("G-106"), None);
}

#[test]
fn insert_overwrites_in_place() {
    let mut catalog = Catalog::new();
    catalog.insert(String::from("a"), String::from("1"));
    catalog.insert(String::from("b"), String::from("2"));
    catalog.insert(String::from("a"), String::from("3"));
    assert_eq!(catalog.len(), 2);
    assert_eq!(catalog.lookup("a"), Some(String::from("3")));
    assert_eq!(catalog.lookup("b"), Some(String::from("2")));
    assert_eq!(catalog.key_at(0), "a");
    assert_eq!(catalog.key_at(1), "b");
}

#[test]
fn empty_inputs_build_an_empty_catalog() {
    let catalog = build("", "");
    assert_eq!(catalog.len(), 0);
    assert_eq!(catalog.lookup(""), None);
    assert_eq!(catalog.lookup("anything"), None);
}

#[test]
fn both_files_contribute_in_order() {
    let catalog = build("1F600;x # A", "1F601;x # B");
    assert_eq!(catalog.len(), 2);
    assert_eq!(catalog.key_at(0), "A");
    assert_eq!(catalog.key_at(1), "B");
    assert_eq!(catalog.lookup("A"), Some(String::from("\u{1F600}")));
    assert_eq!(catalog.lookup("B"), Some(String::from("\u{1F601}")));
}

#[test]
fn data_dir_carries_the_path() {
    let dir = DataDir::new(String::from("/usr/share/emoji"));
    assert_eq!(dir.path, "/usr/share/emoji");
}
