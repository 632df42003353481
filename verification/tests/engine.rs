use typos_vars::category::{Category, CategorySet, Tag, Type};
use typos_vars::compile::run;
use typos_vars::corpus::{Entry, Variant};
use typos_vars::dictionary::{apply_case, word_case, Case, Dictionary};

fn t(category: Category) -> Type {
    Type { category, tag: None }
}

fn tagged(category: Category, tag: Tag) -> Type {
    Type { category, tag: Some(tag) }
}

fn variant(word: &str, types: Vec<Type>) -> Variant {
    Variant { types, word: word.to_string() }
}

fn color() -> Entry {
    Entry {
        variants: vec![
            variant(
                "color",
                vec![t(Category::American), tagged(Category::Canadian, Tag::Variant)],
            ),
            variant(
                "colour",
                vec![
                    t(Category::BritishIse),
                    t(Category::BritishIze),
                    t(Category::Canadian),
                    t(Category::Australian),
                ],
            ),
        ],
    }
}

fn corpus() -> Vec<Entry> {
    vec![
        color(),
        Entry { variants: vec![variant("the", vec![t(Category::Other)])] },
        Entry {
            variants: vec![
                variant("analyze", vec![t(Category::American), t(Category::Canadian)]),
                variant("analyse", vec![t(Category::BritishIse), t(Category::Australian)]),
            ],
        },
    ]
}

fn dictionary() -> Dictionary {
    run(&corpus())
}

fn strings(words: &[&str]) -> Option<Vec<String>> {
    Some(words.iter().map(|w| w.to_string()).collect())
}

#[test]
fn color_in_british_is_colour() {
    assert_eq!(dictionary().correct_word("color", Category::BritishIse), strings(&["colour"]));
}

#[test]
fn colour_in_american_is_color() {
    assert_eq!(dictionary().correct_word("colour", Category::American), strings(&["color"]));
}

#[test]
fn color_in_american_needs_no_correction() {
    assert_eq!(dictionary().correct_word("color", Category::American), None);
}

#[test]
fn color_in_canadian_needs_no_correction() {
    assert_eq!(dictionary().correct_word("color", Category::Canadian), None);
    assert_eq!(dictionary().correct_word("colour", Category::Canadian), None);
}

#[test]
fn color_in_australian_is_colour() {
    assert_eq!(dictionary().correct_word("color", Category::Australian), strings(&["colour"]));
}

#[test]
fn unknown_word_is_not_corrected() {
    let d = dictionary();
    for category in [
        Category::American,
        Category::BritishIse,
        Category::Canadian,
        Category::Australian,
    ] {
        assert_eq!(d.correct_word("xk3f9", category), None);
    }
}

#[test]
fn title_case_is_kept() {
    assert_eq!(dictionary().correct_word("Color", Category::BritishIse), strings(&["Colour"]));
}

#[test]
fn upper_case_is_kept() {
    assert_eq!(dictionary().correct_word("COLOR", Category::BritishIse), strings(&["COLOUR"]));
}

#[test]
fn lookup_ignores_case() {
    let d = dictionary();
    assert_eq!(d.correct_word("Color", Category::American), None);
    assert_eq!(d.correct_word("COLOR", Category::American), None);
    assert_eq!(d.correct_word("cOlOuR", Category::American), strings(&["color"]));
    assert_eq!(d.correct_word("COLOUR", Category::American), strings(&["COLOR"]));
    assert_eq!(d.correct_word("Colour", Category::American), strings(&["Color"]));
}

#[test]
fn always_valid_word_is_pruned() {
    let d = dictionary();
    for category in [
        Category::American,
        Category::BritishIse,
        Category::Canadian,
        Category::Australian,
    ] {
        assert_eq!(d.correct_word("the", category), None);
        assert_eq!(d.correct_word("The", category), None);
    }
    let words: Vec<String> = (0..d.word_count()).map(|i| d.word(i).clone()).collect();
    assert_eq!(words, vec!["analyse", "analyze", "color", "colour"]);
}

#[test]
fn word_valid_everywhere_by_one_entry_is_pruned_despite_another() {
    let mut entries = corpus();
    entries.push(Entry {
        variants: vec![
            variant("color", vec![t(Category::Other)]),
            variant("colur", vec![tagged(Category::American, Tag::Improper)]),
        ],
    });
    let d = run(&entries);
    assert_eq!(d.correct_word("color", Category::BritishIse), None);
    assert_eq!(d.correct_word("colour", Category::American), strings(&["color"]));
}

#[test]
fn word_valid_everywhere_only_by_entries_together_is_kept() {
    let entries = vec![
        Entry {
            variants: vec![
                variant("story", vec![t(Category::American)]),
                variant("storey", vec![t(Category::BritishIse)]),
            ],
        },
        Entry {
            variants: vec![
                variant(
                    "story",
                    vec![t(Category::BritishIse), t(Category::Canadian), t(Category::Australian)],
                ),
                variant("tale", vec![t(Category::American)]),
            ],
        },
    ];
    let d = run(&entries);
    assert_eq!(d.correct_word("story", Category::BritishIse), strings(&["storey"]));
    assert_eq!(d.correct_word("story", Category::American), strings(&["tale"]));
}

#[test]
fn bounds_are_least_and_greatest_length() {
    let d = dictionary();
    assert_eq!(d.word_min(), 5);
    assert_eq!(d.word_max(), 7);
}

#[test]
fn bounds_of_an_empty_dictionary() {
    let d = run(&Vec::new());
    assert_eq!(d.word_min(), usize::MAX);
    assert_eq!(d.word_max(), 0);
    assert_eq!(d.word_count(), 0);
    assert_eq!(d.table_count(), 0);
    assert_eq!(d.correct_word("color", Category::BritishIse), None);
    assert_eq!(d.correct_word("", Category::BritishIse), None);
}

#[test]
fn words_outside_the_bounds_are_not_corrected() {
    let d = dictionary();
    assert_eq!(d.correct_word("colo", Category::BritishIse), None);
    assert_eq!(d.correct_word("colourful", Category::American), None);
    assert_eq!(d.correct_word("", Category::American), None);
}

#[test]
fn length_counts_bytes() {
    let entries = vec![Entry {
        variants: vec![
            variant("na\u{ef}ve", vec![t(Category::American)]),
            variant("naive", vec![t(Category::BritishIse)]),
        ],
    }];
    let d = run(&entries);
    assert_eq!(d.word_min(), 5);
    assert_eq!(d.word_max(), 6);
    assert_eq!(d.correct_word("na\u{ef}ve", Category::BritishIse), strings(&["naive"]));
    assert_eq!(d.correct_word("naive", Category::American), strings(&["na\u{ef}ve"]));
}

#[test]
fn correct_ident_matches_the_whole_token() {
    let d = dictionary();
    assert_eq!(d.correct_ident("colour", Category::American), strings(&["color"]));
    assert_eq!(d.correct_ident("colourColour", Category::American), None);
}

#[test]
fn tables_are_those_of_referenced_entries() {
    let d = dictionary();
    assert_eq!(d.table_count(), 2);
    let mut symbols: Vec<String> = (0..d.table_count()).map(|i| d.table(i).symbol().clone()).collect();
    symbols.sort();
    assert!(symbols[0].starts_with("ENTRY_ANALYZE_"));
    assert!(symbols[1].starts_with("ENTRY_COLOR_"));
    for i in 0..d.word_count() {
        for link in d.links(i) {
            assert!(link.table < d.table_count());
        }
    }
}

#[test]
fn links_carry_the_bits_of_their_categories() {
    let d = dictionary();
    // "analyse", "analyze", "color", "colour"
    assert_eq!(d.links(0).len(), 1);
    assert_eq!(d.links(0)[0].categories.bits(), 2 | 16);
    assert_eq!(d.links(1)[0].categories.bits(), 1 | 8);
    assert_eq!(d.links(2)[0].categories.bits(), 1 | 8);
    assert_eq!(d.links(3)[0].categories.bits(), 2 | 8 | 16);
    assert_eq!(d.links(2)[0].table, d.links(3)[0].table);
    let table = d.table(d.links(2)[0].table);
    assert_eq!(table.corrections(Category::American), &vec!["color".to_string()]);
    assert_eq!(table.corrections(Category::BritishIse), &vec!["colour".to_string()]);
    assert_eq!(table.corrections(Category::Canadian), &vec!["colour".to_string()]);
    assert_eq!(table.corrections(Category::Australian), &vec!["colour".to_string()]);
}

#[test]
fn corrections_of_several_entries_are_merged_in_order_without_repeats() {
    let entries = vec![
        Entry {
            variants: vec![
                variant("draft", vec![t(Category::American)]),
                variant("draught", vec![t(Category::BritishIse)]),
            ],
        },
        Entry {
            variants: vec![
                variant("draft", vec![t(Category::American)]),
                variant("draught", vec![tagged(Category::BritishIse, Tag::Variant)]),
                variant("checker", vec![tagged(Category::BritishIse, Tag::Variant)]),
            ],
        },
    ];
    let d = run(&entries);
    assert_eq!(d.links(d.word_count() - 2).len(), 2);
    assert_eq!(
        d.correct_word("Draft", Category::BritishIse),
        strings(&["Checker", "Draught"])
    );
}

#[test]
fn all_categories_are_the_four_tracked() {
    let d = dictionary();
    let all = d.all_categories();
    assert_eq!(all, CategorySet::all());
    assert_eq!(all.bits(), 27);
    assert!(all.contains(Category::American));
    assert!(all.contains(Category::BritishIse));
    assert!(all.contains(Category::Canadian));
    assert!(all.contains(Category::Australian));
    assert!(!all.contains(Category::BritishIze));
    assert!(!all.contains(Category::Other));
}

#[test]
fn case_is_told_by_first_and_last_letter() {
    assert_eq!(word_case("color"), Case::Lower);
    assert_eq!(word_case("Color"), Case::Title);
    assert_eq!(word_case("COLOR"), Case::Upper);
    assert_eq!(word_case("C"), Case::Upper);
    assert_eq!(word_case("cOLOR"), Case::Lower);
    assert_eq!(word_case(""), Case::Lower);
}

#[test]
fn apply_case_recases_ascii_letters() {
    assert_eq!(apply_case("colour", Case::Lower), "colour");
    assert_eq!(apply_case("colour", Case::Title), "Colour");
    assert_eq!(apply_case("colour", Case::Upper), "COLOUR");
    assert_eq!(apply_case("\u{e9}t\u{e9}", Case::Upper), "\u{e9}T\u{e9}");
    assert_eq!(apply_case("", Case::Title), "");
}
