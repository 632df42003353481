use typos_vars::category::{Category, Tag, Type};
use typos_vars::compile::run;
use typos_vars::corpus::{Entry, Variant};
use typos_vars::dictionary::CorrectionTable;
use typos_vars::render::{
    all_categories_source, binary_string, correction_line, header_source, name_of, slot_source,
    table_source, value_source, variations_source,
};

fn t(category: Category) -> Type {
    Type { category, tag: None }
}

fn color() -> Entry {
    Entry {
        variants: vec![
            Variant {
                types: vec![
                    t(Category::American),
                    Type { category: Category::Canadian, tag: Some(Tag::Variant) },
                ],
                word: "color".to_string(),
            },
            Variant {
                types: vec![
                    t(Category::BritishIse),
                    t(Category::BritishIze),
                    t(Category::Canadian),
                    t(Category::Australian),
                ],
                word: "colour".to_string(),
            },
        ],
    }
}

const HEADER: &str = "// This file is code-genned by the-package
#![allow(clippy::unreadable_literal)]

use unicase::UniCase;

pub type Variants = &'static [&'static str];
pub type VariantsMap = [Variants; 4];

pub fn all_categories() -> crate::CategorySet {
    crate::Category::American | crate::Category::BritishIse | crate::Category::Canadian | crate::Category::Australian
}

pub fn corrections(category: crate::Category, options: VariantsMap) -> &'static [&'static str] {
  match category {
    crate::Category::American => options[0],
    crate::Category::BritishIse => options[1],
    crate::Category::Canadian => options[2],
    crate::Category::Australian => options[3],
    crate::Category::BritishIze | crate::Category::Other => unreachable!(\"{:?} is unused\", category),
  }
}

pub static VARS_DICTIONARY: phf::Map<unicase::UniCase<&'static str>, &'static [(u8, &VariantsMap)]> = 
";

const TABLE: &str = "pub(crate) static ENTRY_COLOR_6944812764760091909: VariantsMap = [
  &[
    \"color\",
  ],
  &[
    \"colour\",
  ],
  &[
    \"colour\",
  ],
  &[
    \"colour\",
  ],
];

";

#[test]
fn categories_are_joined_by_bars() {
    assert_eq!(
        all_categories_source(),
        "crate::Category::American | crate::Category::BritishIse | crate::Category::Canadian | crate::Category::Australian"
    );
}

#[test]
fn categories_have_their_names() {
    assert_eq!(name_of(Category::American), "American");
    assert_eq!(name_of(Category::BritishIse), "BritishIse");
    assert_eq!(name_of(Category::BritishIze), "BritishIze");
    assert_eq!(name_of(Category::Canadian), "Canadian");
    assert_eq!(name_of(Category::Australian), "Australian");
    assert_eq!(name_of(Category::Other), "Other");
}

#[test]
fn header_declares_types_and_functions() {
    assert_eq!(header_source("the-package"), HEADER);
}

#[test]
fn bits_are_written_in_five_binary_digits() {
    assert_eq!(binary_string(0), "00000");
    assert_eq!(binary_string(1), "00001");
    assert_eq!(binary_string(9), "01001");
    assert_eq!(binary_string(26), "11010");
    assert_eq!(binary_string(27), "11011");
    assert_eq!(binary_string(31), "11111");
    assert_eq!(binary_string(32), "100000");
    assert_eq!(binary_string(77), "1001101");
    assert_eq!(binary_string(128), "10000000");
    assert_eq!(binary_string(255), "11111111");
}

#[test]
fn value_of_a_word_lists_its_pairs() {
    let d = run(&vec![color()]);
    assert_eq!(d.word(0), "color");
    assert_eq!(value_source(&d, 0), "&[(0b01001, &ENTRY_COLOR_6944812764760091909), ]");
    assert_eq!(value_source(&d, 1), "&[(0b11010, &ENTRY_COLOR_6944812764760091909), ]");
}

#[test]
fn value_of_a_word_of_two_entries_lists_both() {
    let other = Entry {
        variants: vec![
            Variant { types: vec![t(Category::Australian)], word: "color".to_string() },
            Variant { types: vec![t(Category::American)], word: "hue".to_string() },
        ],
    };
    let d = run(&vec![other, color()]);
    let first = d.table(0).symbol().clone();
    let second = d.table(1).symbol().clone();
    assert!(first < second);
    let bits = |symbol: &String| {
        if symbol.starts_with("ENTRY_COLOR_6944812764760091909") {
            "01001"
        } else {
            "10000"
        }
    };
    assert_eq!(
        value_source(&d, 0),
        format!("&[(0b{}, &{}), (0b{}, &{}), ]", bits(&first), first, bits(&second), second)
    );
}

#[test]
fn corrections_are_quoted_one_in_a_line() {
    assert_eq!(correction_line("\"colour\""), "    \"colour\",\n");
    assert_eq!(
        slot_source(&vec!["colour".to_string(), "na\u{ef}ve".to_string()]),
        "  &[\n    \"colour\",\n    \"na\u{ef}ve\",\n  ],\n"
    );
    assert_eq!(slot_source(&vec!["a\"b\\c".to_string()]), "  &[\n    \"a\\\"b\\\\c\",\n  ],\n");
    assert_eq!(slot_source(&Vec::new()), "  &[\n  ],\n");
}

#[test]
fn table_is_a_static_array_of_four_slices() {
    let d = run(&vec![color()]);
    assert_eq!(table_source(d.table(0)), TABLE);
    let bare = CorrectionTable::new(
        "NAME".to_string(),
        vec![vec!["b".to_string(), "a".to_string()], vec![], vec![], vec![]],
    );
    assert_eq!(
        table_source(&bare),
        "pub(crate) static NAME: VariantsMap = [\n  &[\n    \"b\",\n    \"a\",\n  ],\n  &[\n  ],\n  &[\n  ],\n  &[\n  ],\n];\n\n"
    );
}

#[test]
fn file_holds_header_map_bounds_and_tables() {
    let d = run(&vec![color()]);
    let expected = format!(
        "{}MAP\n;\n\npub const WORD_MIN: usize = 5;\npub const WORD_MAX: usize = 6;\n{}",
        HEADER, TABLE
    );
    assert_eq!(variations_source(&d, "the-package", "MAP"), expected);
}

#[test]
fn file_of_an_empty_dictionary() {
    let d = run(&Vec::new());
    let expected = format!(
        "{}\n;\n\npub const WORD_MIN: usize = {};\npub const WORD_MAX: usize = 0;\n",
        HEADER,
        usize::MAX
    );
    assert_eq!(variations_source(&d, "the-package", ""), expected);
}

#[test]
fn static_map_holds_every_word_with_its_value() {
    let d = run(&vec![color()]);
    let map = typos_vars::staticmap::map_source(&d).unwrap();
    assert!(map.starts_with("::phf::Map {"));
    assert!(map.contains(
        "\n        (UniCase::ascii(\"color\"), &[(0b01001, &ENTRY_COLOR_6944812764760091909), ]),"
    ));
    assert!(map.contains(
        "\n        (UniCase::ascii(\"colour\"), &[(0b11010, &ENTRY_COLOR_6944812764760091909), ]),"
    ));
    assert_eq!(map.matches("UniCase::ascii(").count(), 2);
    let text = typos_vars::staticmap::source(&d, "the-package").unwrap();
    assert_eq!(text, variations_source(&d, "the-package", &map));
}

#[test]
fn static_map_of_an_empty_dictionary() {
    let d = run(&Vec::new());
    let map = typos_vars::staticmap::map_source(&d).unwrap();
    assert!(map.starts_with("::phf::Map {"));
    assert_eq!(map.matches("UniCase::").count(), 0);
}

#[test]
fn plain_words_are_ascii_without_capitals() {
    assert!(typos_vars::staticmap::is_plain("colour"));
    assert!(typos_vars::staticmap::is_plain(""));
    assert!(typos_vars::staticmap::is_plain("b2b"));
    assert!(!typos_vars::staticmap::is_plain("Colour"));
    assert!(!typos_vars::staticmap::is_plain("na\u{ef}ve"));
}

#[test]
fn static_map_holds_words_beyond_ascii_as_unicode_keys() {
    let d = run(&vec![Entry {
        variants: vec![
            Variant { types: vec![t(Category::American)], word: "na\u{ef}ve".to_string() },
            Variant { types: vec![t(Category::BritishIse)], word: "naive".to_string() },
        ],
    }]);
    let symbol = d.table(0).symbol().clone();
    let map = typos_vars::staticmap::map_source(&d).unwrap();
    assert!(map.contains(&format!(
        "\n        (UniCase::unicode(\"na\u{ef}ve\"), &[(0b00001, &{}), ]),",
        symbol
    )));
    assert!(map.contains(&format!(
        "\n        (UniCase::ascii(\"naive\"), &[(0b00010, &{}), ]),",
        symbol
    )));
    let text = typos_vars::staticmap::source(&d, "the-package").unwrap();
    assert_eq!(text, variations_source(&d, "the-package", &map));
}

#[test]
fn no_static_map_for_words_that_are_one_key() {
    let d = run(&vec![Entry {
        variants: vec![
            Variant { types: vec![t(Category::American)], word: "\u{c9}cole".to_string() },
            Variant { types: vec![t(Category::BritishIse)], word: "\u{e9}cole".to_string() },
        ],
    }]);
    assert_eq!(d.word_count(), 2);
    assert_eq!(typos_vars::staticmap::map_source(&d), None);
    assert_eq!(typos_vars::staticmap::source(&d, "the-package"), None);
}
