use typos_vars::category::{Category, Type};
use typos_vars::compile::run;
use typos_vars::corpus::{Entry, Variant};
use typos_vars::dictionary::Dictionary;
use typos_vars::scan::{is_binary, is_hex, process_file, Identifier, Message, Word};

fn dictionary() -> Dictionary {
    let t = |category| Type { category, tag: None };
    run(&vec![Entry {
        variants: vec![
            Variant { types: vec![t(Category::American)], word: "color".to_string() },
            Variant { types: vec![t(Category::BritishIse)], word: "colour".to_string() },
        ],
    }])
}

fn word(token: &str, offset: usize) -> Word {
    Word { token: token.to_string(), offset }
}

fn simple(token: &str, offset: usize) -> Identifier {
    Identifier { token: token.to_string(), offset, words: vec![word(token, offset)] }
}

#[test]
fn a_zero_byte_tells_a_binary_file() {
    assert!(is_binary(b"\0"));
    assert!(is_binary(b"colour\0"));
    assert!(is_binary(b"\0colour"));
    assert!(!is_binary(b"colour"));
    assert!(!is_binary(b""));
    assert!(!is_binary(b"0"));
}

#[test]
fn hexadecimal_literals() {
    assert!(is_hex("0x0"));
    assert!(is_hex("0XdeadBEEF"));
    assert!(is_hex("0xff_ff"));
    assert!(is_hex("0x1'000"));
    assert!(is_hex("0x_"));
    assert!(!is_hex("0x"));
    assert!(!is_hex("0"));
    assert!(!is_hex(""));
    assert!(!is_hex("x0f"));
    assert!(!is_hex("1x0f"));
    assert!(!is_hex("0xg"));
    assert!(!is_hex("0x1g"));
    assert!(!is_hex("00x1"));
    assert!(!is_hex("0x1 "));
    assert!(!is_hex("0x1\n"));
    assert!(!is_hex("0x\u{e9}"));
}

#[test]
fn a_word_in_a_line_is_reported_with_line_and_column() {
    let lines = vec![vec![], vec![simple("fine", 0), simple("Colour", 5)]];
    let messages = process_file(
        &Vec::new(),
        b"\nfine Colour",
        &lines,
        &dictionary(),
        Category::American,
        false,
        true,
        false,
        false,
    );
    let expected = Message::Correction {
        line_num: 2,
        col_num: 5,
        typo: "Colour".to_string(),
        correction: vec!["Color".to_string()],
    };
    assert_eq!(messages, vec![expected.clone(), expected]);
}

#[test]
fn an_identifier_is_checked_whole_and_then_word_by_word() {
    let identifier = Identifier {
        token: "colour_of_colour".to_string(),
        offset: 4,
        words: vec![word("colour", 4), word("of", 11), word("colour", 14)],
    };
    let lines = vec![vec![identifier]];
    let messages = process_file(
        &Vec::new(),
        b"let colour_of_colour",
        &lines,
        &dictionary(),
        Category::American,
        true,
        true,
        false,
        false,
    );
    assert_eq!(
        messages,
        vec![
            Message::Correction {
                line_num: 1,
                col_num: 4,
                typo: "colour".to_string(),
                correction: vec!["color".to_string()],
            },
            Message::Correction {
                line_num: 1,
                col_num: 14,
                typo: "colour".to_string(),
                correction: vec!["color".to_string()],
            },
        ]
    );
}

#[test]
fn names_are_checked_where_asked() {
    let names = vec![simple("src", 0), simple("colour", 0)];
    let d = dictionary();
    let none = Vec::new();
    let found = process_file(&names, b"", &none, &d, Category::American, true, false, false, false);
    let expected = Message::FilenameCorrection {
        typo: "colour".to_string(),
        correction: vec!["color".to_string()],
    };
    assert_eq!(found, vec![expected.clone(), expected]);
    let unnamed =
        process_file(&names, b"", &none, &d, Category::American, false, true, false, false);
    assert_eq!(unnamed, Vec::new());
    let valid =
        process_file(&names, b"", &none, &d, Category::BritishIse, true, true, false, false);
    assert_eq!(valid, Vec::new());
}

#[test]
fn a_file_with_a_zero_byte_is_binary() {
    let buffer = b"colour\0";
    let lines = vec![vec![simple("colour", 0)]];
    let d = dictionary();
    let names = vec![simple("colour", 0)];
    let american = Category::American;
    let found = process_file(&names, buffer, &lines, &d, american, true, true, false, false);
    assert_eq!(found.len(), 3);
    assert_eq!(found[2], Message::BinaryFile);
    let only = process_file(&names, buffer, &lines, &d, american, false, true, false, false);
    assert_eq!(only, vec![Message::BinaryFile]);
    let read = process_file(&names, buffer, &lines, &d, american, false, true, false, true);
    assert_eq!(read.len(), 2);
    let skipped = process_file(&names, buffer, &lines, &d, american, false, false, false, false);
    assert_eq!(skipped, Vec::new());
}

#[test]
fn hexadecimal_literals_are_passed_over_unless_told_otherwise() {
    let literal = Identifier {
        token: "0xc0ffee".to_string(),
        offset: 0,
        words: vec![word("colour", 0)],
    };
    let lines = vec![vec![literal]];
    let buffer = b"0xc0ffee";
    let d = dictionary();
    let american = Category::American;
    let passed =
        process_file(&Vec::new(), buffer, &lines, &d, american, false, true, false, false);
    assert_eq!(passed, Vec::new());
    let looked = process_file(&Vec::new(), buffer, &lines, &d, american, false, true, true, false);
    assert_eq!(looked.len(), 1);
}
