use typos_vars::category::{Category, CategorySet, Tag, Type};
use typos_vars::compile::{generate_entry, generate_link, generate_variations};
use typos_vars::corpus::{Entry, Variant};
use typos_vars::corrections::{collect_correct, ignore_variant, rank};
use typos_vars::intake::{
    decimal_string, entries, entry_hash, entry_symbol, is_accepted, is_single_word, letter,
    normalize,
};
use typos_vars::sets::{categories_of, entry_set, entry_sets, is_always_valid, valid_categories};

fn t(category: Category) -> Type {
    Type { category, tag: None }
}

fn tagged(category: Category, tag: Tag) -> Type {
    Type { category, tag: Some(tag) }
}

fn variant(word: &str, types: Vec<Type>) -> Variant {
    Variant { types, word: word.to_string() }
}

fn color() -> Entry {
    Entry {
        variants: vec![
            variant(
                "color",
                vec![t(Category::American), tagged(Category::Canadian, Tag::Variant)],
            ),
            variant(
                "colour",
                vec![
                    t(Category::BritishIse),
                    t(Category::BritishIze),
                    t(Category::Canadian),
                    t(Category::Australian),
                ],
            ),
        ],
    }
}

fn words(list: &[&str]) -> Vec<String> {
    list.iter().map(|w| w.to_string()).collect()
}

#[test]
fn one_standard_spelling_is_the_correction() {
    let entry = color();
    assert_eq!(collect_correct(&entry, Category::American), words(&["color"]));
    assert_eq!(collect_correct(&entry, Category::BritishIse), words(&["colour"]));
    assert_eq!(collect_correct(&entry, Category::Canadian), words(&["colour"]));
    assert_eq!(collect_correct(&entry, Category::Australian), words(&["colour"]));
}

#[test]
fn no_standard_spelling_gives_all_acceptable_ones() {
    let entry = Entry {
        variants: vec![
            variant("gaol", vec![tagged(Category::BritishIse, Tag::Variant)]),
            variant("jail", vec![tagged(Category::BritishIse, Tag::Seldom)]),
            variant("jayl", vec![tagged(Category::BritishIse, Tag::Improper)]),
            variant("cell", vec![tagged(Category::BritishIse, Tag::Possible)]),
        ],
    };
    assert_eq!(collect_correct(&entry, Category::BritishIse), words(&["cell", "gaol", "jail"]));
    assert_eq!(collect_correct(&entry, Category::American), Vec::<String>::new());
}

#[test]
fn two_standard_spellings_give_all_acceptable_ones() {
    let entry = Entry {
        variants: vec![
            variant("gray", vec![t(Category::American)]),
            variant("grey", vec![tagged(Category::American, Tag::Eq)]),
            variant("graye", vec![tagged(Category::American, Tag::Variant)]),
            variant("grai", vec![tagged(Category::American, Tag::Improper)]),
        ],
    };
    assert_eq!(collect_correct(&entry, Category::American), words(&["gray", "graye", "grey"]));
}

#[test]
fn one_spelling_listed_twice_as_standard_counts_once() {
    let entry = Entry {
        variants: vec![
            variant("gray", vec![t(Category::American)]),
            variant("gray", vec![t(Category::Other)]),
            variant("grey", vec![tagged(Category::American, Tag::Variant)]),
        ],
    };
    assert_eq!(collect_correct(&entry, Category::American), words(&["gray"]));
}

#[test]
fn other_applies_to_every_category() {
    let entry = Entry {
        variants: vec![
            variant("center", vec![t(Category::Other)]),
            variant("centre", vec![tagged(Category::BritishIse, Tag::Variant)]),
        ],
    };
    assert_eq!(collect_correct(&entry, Category::American), words(&["center"]));
    assert_eq!(collect_correct(&entry, Category::BritishIse), words(&["center"]));
}

#[test]
fn improper_spelling_is_never_a_correction() {
    let entry = Entry {
        variants: vec![
            variant("alright", vec![tagged(Category::American, Tag::Improper)]),
            variant("allright", vec![tagged(Category::American, Tag::Improper)]),
        ],
    };
    assert_eq!(collect_correct(&entry, Category::American), Vec::<String>::new());
    let entry = Entry {
        variants: vec![
            variant("alright", vec![tagged(Category::American, Tag::Improper)]),
            variant("fine", vec![tagged(Category::American, Tag::Variant)]),
            variant("okay", vec![tagged(Category::American, Tag::Seldom)]),
        ],
    };
    assert_eq!(collect_correct(&entry, Category::American), words(&["fine", "okay"]));
}

#[test]
fn improper_in_one_category_is_acceptable_in_another() {
    let entry = Entry {
        variants: vec![variant(
            "alright",
            vec![tagged(Category::American, Tag::Improper), t(Category::BritishIse)],
        )],
    };
    assert_eq!(collect_correct(&entry, Category::American), Vec::<String>::new());
    assert_eq!(collect_correct(&entry, Category::BritishIse), words(&["alright"]));
}

#[test]
fn rank_tells_standard_and_acceptable() {
    let v = variant(
        "gaol",
        vec![tagged(Category::BritishIse, Tag::Variant), tagged(Category::American, Tag::Improper)],
    );
    assert_eq!(rank(&v, Category::BritishIse), (false, true));
    assert_eq!(rank(&v, Category::American), (false, false));
    assert_eq!(rank(&v, Category::Canadian), (false, false));
    let v = variant("jail", vec![t(Category::Other)]);
    assert_eq!(rank(&v, Category::Canadian), (true, true));
    let v = variant("anesthetisation", vec![tagged(Category::Australian, Tag::Seldom)]);
    assert_eq!(rank(&v, Category::Australian), (false, false));
}

#[test]
fn the_named_exception_is_ignored() {
    let seldom = variant("anesthetisation", vec![tagged(Category::Australian, Tag::Seldom)]);
    let plain = variant("anesthetisation", vec![tagged(Category::Australian, Tag::Variant)]);
    assert!(ignore_variant(&seldom));
    assert!(ignore_variant(&plain));
    assert!(!ignore_variant(&variant("anesthetisation", vec![t(Category::Australian)])));
    assert!(!ignore_variant(&variant(
        "anesthetisation",
        vec![tagged(Category::Australian, Tag::Possible)]
    )));
    assert!(!ignore_variant(&variant(
        "anesthetisation",
        vec![tagged(Category::BritishIse, Tag::Variant)]
    )));
    assert!(!ignore_variant(&variant(
        "anesthetisation",
        vec![tagged(Category::Australian, Tag::Variant), t(Category::BritishIse)]
    )));
    assert!(!ignore_variant(&variant(
        "anaesthetisation",
        vec![tagged(Category::Australian, Tag::Variant)]
    )));
    assert!(!ignore_variant(&variant("anesthetisation", vec![])));
    let entry = Entry {
        variants: vec![
            variant("anesthetization", vec![tagged(Category::Australian, Tag::Variant)]),
            plain,
        ],
    };
    assert_eq!(collect_correct(&entry, Category::Australian), words(&["anesthetization"]));
}

#[test]
fn valid_categories_are_all_four() {
    assert_eq!(valid_categories(), CategorySet::all());
    assert!(valid_categories().is_all());
    assert!(!valid_categories().is_empty());
    assert!(CategorySet::empty().is_empty());
}

#[test]
fn category_sets_have_one_bit_for_each_category() {
    assert_eq!(CategorySet::of(Category::American).bits(), 1);
    assert_eq!(CategorySet::of(Category::BritishIse).bits(), 2);
    assert_eq!(CategorySet::of(Category::Canadian).bits(), 8);
    assert_eq!(CategorySet::of(Category::Australian).bits(), 16);
    assert_eq!(CategorySet::of(Category::BritishIze).bits(), 0);
    assert_eq!(CategorySet::of(Category::Other).bits(), 0);
    let mut set = CategorySet::empty();
    set.insert(Category::Canadian);
    set.insert(Category::BritishIze);
    set.insert(Category::American);
    assert_eq!(set.bits(), 9);
    assert!(set.contains(Category::Canadian));
    assert!(!set.contains(Category::Australian));
    assert_eq!(set.union(CategorySet::of(Category::Australian)).bits(), 25);
    assert!(!set.is_all());
}

#[test]
fn categories_of_a_spelling() {
    assert_eq!(categories_of(&vec![t(Category::Other)]), CategorySet::all());
    assert_eq!(categories_of(&vec![t(Category::BritishIze)]), CategorySet::empty());
    assert_eq!(
        categories_of(&vec![
            tagged(Category::American, Tag::Improper),
            t(Category::BritishIze),
            t(Category::Australian)
        ])
        .bits(),
        17
    );
    assert_eq!(categories_of(&vec![]), CategorySet::empty());
}

#[test]
fn entry_set_unites_the_variants_of_one_spelling() {
    let entry = Entry {
        variants: vec![
            variant("grey", vec![t(Category::BritishIse)]),
            variant("gray", vec![t(Category::American)]),
            variant("grey", vec![t(Category::Canadian), t(Category::BritishIze)]),
        ],
    };
    let sets = entry_set(&entry);
    assert_eq!(sets.len(), 2);
    assert_eq!(sets.key(0), "gray");
    assert_eq!(sets.value(0).bits(), 1);
    assert_eq!(sets.key(1), "grey");
    assert_eq!(sets.value(1).bits(), 10);
    assert_eq!(sets.find("grey"), Some(1));
    assert_eq!(sets.find("groy"), None);
}

#[test]
fn entry_sets_group_the_entries_of_each_spelling() {
    let corpus = vec![
        color(),
        Entry {
            variants: vec![
                variant("color", vec![t(Category::Other)]),
                variant("hue", vec![t(Category::American)]),
            ],
        },
    ];
    let kept = entries(&corpus);
    assert_eq!(kept.len(), 2);
    let sets = entry_sets(&kept);
    assert_eq!(sets.len(), 3);
    assert_eq!(sets.key(0), "color");
    assert_eq!(sets.key(1), "colour");
    assert_eq!(sets.key(2), "hue");
    let color_holders = sets.value(0);
    assert_eq!(color_holders.len(), 2);
    assert!(color_holders[0].0 < color_holders[1].0);
    let bits: Vec<u8> = color_holders.iter().map(|h| h.1.bits()).collect();
    assert!(bits == vec![9, 27] || bits == vec![27, 9]);
    assert!(is_always_valid(color_holders));
    assert!(!is_always_valid(sets.value(1)));
    assert!(!is_always_valid(sets.value(2)));
    assert!(!is_always_valid(&Vec::new()));
    let d = generate_variations(&kept);
    assert_eq!(d.word_count(), 2);
    assert_eq!(d.word(0), "colour");
    assert_eq!(d.word(1), "hue");
    assert_eq!(d.table_count(), 2);
    assert_eq!(d.word_min(), 3);
    assert_eq!(d.word_max(), 6);
}

#[test]
fn generate_link_pairs_categories_with_table_places() {
    let data = vec![(2usize, CategorySet::of(Category::American)), (0usize, CategorySet::all())];
    let links = generate_link(&data, &vec![7, 8, 9]);
    assert_eq!(links.len(), 2);
    assert_eq!(links[0].table, 9);
    assert_eq!(links[0].categories.bits(), 1);
    assert_eq!(links[1].table, 7);
    assert_eq!(links[1].categories.bits(), 27);
}

#[test]
fn generate_entry_fills_a_slot_for_each_category() {
    let table = generate_entry("ENTRY_COLOR_1", &color());
    assert_eq!(table.symbol(), "ENTRY_COLOR_1");
    assert_eq!(table.corrections(Category::American), &words(&["color"]));
    assert_eq!(table.corrections(Category::BritishIse), &words(&["colour"]));
    assert_eq!(table.corrections(Category::Canadian), &words(&["colour"]));
    assert_eq!(table.corrections(Category::Australian), &words(&["colour"]));
}

#[test]
fn single_words_are_letters_in_one_case() {
    assert!(is_single_word("color"));
    assert!(is_single_word("Color"));
    assert!(is_single_word("COLOR"));
    assert!(is_single_word("a"));
    assert!(is_single_word("A"));
    assert!(is_single_word("na\u{ef}ve"));
    assert!(!is_single_word(""));
    assert!(!is_single_word("per cent"));
    assert!(!is_single_word("e-mail"));
    assert!(!is_single_word("cat's"));
    assert!(!is_single_word("b2b"));
    assert!(!is_single_word("co_op"));
    assert!(!is_single_word("McAdam"));
    assert!(!is_single_word("cOLOR"));
    assert!(!is_single_word("COLOr"));
}

#[test]
fn marks_and_spaces_beyond_ascii_are_no_letters() {
    assert!(is_single_word("\u{e9}migr\u{e9}"));
    assert!(is_single_word("\u{c9}cole"));
    assert!(!is_single_word("a\u{2019}b"));
    assert!(!is_single_word("per\u{a0}cent"));
    assert!(!is_single_word("e\u{2010}mail"));
    assert!(!is_single_word("caf\u{e9}\u{2026}"));
    assert!(!is_single_word("\u{2019}"));
    assert!(!is_single_word("x\u{b2}"));
}

#[test]
fn a_letter_is_ascii_or_alphabetic_beyond() {
    assert!(letter('a', false));
    assert!(letter('Z', false));
    assert!(letter('\u{e9}', true));
    assert!(!letter('\u{2019}', false));
    assert!(!letter('1', false));
    assert!(!letter('1', true));
    assert!(!letter(' ', true));
    assert!(!letter('_', true));
}

#[test]
fn an_entry_with_a_mark_beyond_ascii_is_dropped_whole() {
    let corpus = vec![
        Entry {
            variants: vec![
                variant("ok", vec![t(Category::American)]),
                variant("a\u{2019}b", vec![t(Category::BritishIse)]),
            ],
        },
        Entry {
            variants: vec![
                variant("fine", vec![t(Category::American)]),
                variant("f\u{a0}ine", vec![t(Category::BritishIse)]),
            ],
        },
        color(),
    ];
    assert!(!is_accepted(&corpus[0]));
    assert!(!is_accepted(&corpus[1]));
    let kept = entries(&corpus);
    assert_eq!(kept.len(), 1);
    assert_eq!(kept.value(0), &color());
}

#[test]
fn entries_with_a_malformed_spelling_are_dropped() {
    let corpus = vec![
        Entry {
            variants: vec![
                variant("percent", vec![t(Category::American)]),
                variant("per cent", vec![t(Category::BritishIse)]),
            ],
        },
        Entry { variants: vec![] },
        color(),
    ];
    assert!(!is_accepted(&corpus[0]));
    assert!(!is_accepted(&corpus[1]));
    assert!(is_accepted(&corpus[2]));
    let kept = entries(&corpus);
    assert_eq!(kept.len(), 1);
    assert_eq!(kept.value(0), &color());
}

#[test]
fn spellings_are_lowered() {
    let entry = Entry {
        variants: vec![
            variant("Americanize", vec![t(Category::American)]),
            variant("AMERICANISE", vec![t(Category::BritishIse)]),
        ],
    };
    let clean = normalize(&entry);
    assert_eq!(clean.variants[0].word, "americanize");
    assert_eq!(clean.variants[1].word, "americanise");
    assert_eq!(clean.variants[0].types, entry.variants[0].types);
    let kept = entries(&vec![entry]);
    assert_eq!(kept.len(), 1);
    assert_eq!(kept.value(0), &clean);
    assert!(kept.key(0).starts_with("ENTRY_AMERICANIZE_"));
}

#[test]
fn an_entry_listed_twice_is_kept_once() {
    let kept = entries(&vec![color(), color()]);
    assert_eq!(kept.len(), 1);
}

#[test]
fn entries_are_kept_in_the_order_of_their_names() {
    let zebra = Entry { variants: vec![variant("zebra", vec![t(Category::American)])] };
    let apple = Entry { variants: vec![variant("apple", vec![t(Category::American)])] };
    let kept = entries(&vec![zebra.clone(), apple.clone()]);
    assert_eq!(kept.len(), 2);
    assert_eq!(kept.value(0), &apple);
    assert_eq!(kept.value(1), &zebra);
    assert!(kept.key(0) < kept.key(1));
}

#[test]
fn content_hash_of_known_entries() {
    assert_eq!(entry_hash(&Entry { variants: vec![] }), 14695981039346656037);
    assert_eq!(entry_hash(&Entry { variants: vec![variant("a", vec![])] }), 16536706666236683669);
    assert_eq!(entry_hash(&color()), 6944812764760091909);
}

#[test]
fn symbol_is_made_of_first_spelling_and_hash() {
    assert_eq!(entry_symbol(&color()), "ENTRY_COLOR_6944812764760091909");
    assert_eq!(
        entry_symbol(&Entry { variants: vec![variant("a", vec![])] }),
        "ENTRY_A_16536706666236683669"
    );
}

#[test]
fn numbers_in_decimal_digits() {
    assert_eq!(decimal_string(0), "0");
    assert_eq!(decimal_string(7), "7");
    assert_eq!(decimal_string(10), "10");
    assert_eq!(decimal_string(1203), "1203");
    assert_eq!(decimal_string(u64::MAX), "18446744073709551615");
}
