use typos_vars::text::{
    lower_char, str_eq, str_order, to_capitalized, to_lower, to_upper, upper_char, Order,
};
use typos_vars::wordmap::WordMap;
use typos_vars::words::{insert_word, search};

#[test]
fn ascii_letters_change_case() {
    assert_eq!(lower_char('A'), 'a');
    assert_eq!(lower_char('Z'), 'z');
    assert_eq!(lower_char('a'), 'a');
    assert_eq!(lower_char('@'), '@');
    assert_eq!(lower_char('['), '[');
    assert_eq!(lower_char('\u{c9}'), '\u{c9}');
    assert_eq!(upper_char('a'), 'A');
    assert_eq!(upper_char('z'), 'Z');
    assert_eq!(upper_char('`'), '`');
    assert_eq!(upper_char('{'), '{');
    assert_eq!(upper_char('\u{e9}'), '\u{e9}');
}

#[test]
fn strings_change_case() {
    assert_eq!(to_lower("Hello, WORLD"), "hello, world");
    assert_eq!(to_upper("Hello, world"), "HELLO, WORLD");
    assert_eq!(to_capitalized("hello world"), "Hello world");
    assert_eq!(to_capitalized("Hello"), "Hello");
    assert_eq!(to_lower(""), "");
    assert_eq!(to_upper("\u{e9}t\u{e9}"), "\u{e9}T\u{e9}");
}

#[test]
fn strings_are_ordered_by_code_point() {
    assert_eq!(str_order("a", "b"), Order::Before);
    assert_eq!(str_order("b", "a"), Order::After);
    assert_eq!(str_order("abc", "abc"), Order::Same);
    assert_eq!(str_order("ab", "abc"), Order::Before);
    assert_eq!(str_order("abc", "ab"), Order::After);
    assert_eq!(str_order("", ""), Order::Same);
    assert_eq!(str_order("", "a"), Order::Before);
    assert_eq!(str_order("Z", "a"), Order::Before);
    assert_eq!(str_order("z", "\u{e9}"), Order::Before);
    assert_eq!(str_order("\u{ffff}", "\u{10000}"), Order::Before);
    assert!(str_eq("colour", "colour"));
    assert!(!str_eq("colour", "color"));
}

#[test]
fn order_agrees_with_the_order_of_strings() {
    let samples = ["", "a", "A", "ab", "abc", "b", "ba", "\u{e9}", "z\u{e9}", "\u{10000}"];
    for a in samples {
        for b in samples {
            let expected = if a < b {
                Order::Before
            } else if a == b {
                Order::Same
            } else {
                Order::After
            };
            assert_eq!(str_order(a, b), expected);
        }
    }
}

#[test]
fn search_finds_the_place_of_a_word() {
    let list: Vec<String> = vec!["b".to_string(), "d".to_string(), "f".to_string()];
    assert_eq!(search(&list, "a"), (0, false));
    assert_eq!(search(&list, "b"), (0, true));
    assert_eq!(search(&list, "c"), (1, false));
    assert_eq!(search(&list, "d"), (1, true));
    assert_eq!(search(&list, "f"), (2, true));
    assert_eq!(search(&list, "g"), (3, false));
    assert_eq!(search(&Vec::new(), "g"), (0, false));
}

#[test]
fn insert_word_keeps_the_list_ascending() {
    let mut list: Vec<String> = Vec::new();
    for w in ["pear", "apple", "fig", "apple", "zest", "fig"] {
        insert_word(&mut list, w.to_string());
    }
    assert_eq!(list, vec!["apple", "fig", "pear", "zest"]);
}

#[test]
fn word_map_keeps_its_keys_ascending() {
    let mut map: WordMap<u32> = WordMap::new();
    assert_eq!(map.len(), 0);
    map = map.insert("pear".to_string(), 1);
    map = map.insert("apple".to_string(), 2);
    map = map.insert("fig".to_string(), 3);
    assert_eq!(map.len(), 3);
    assert_eq!(map.key(0), "apple");
    assert_eq!(map.key(1), "fig");
    assert_eq!(map.key(2), "pear");
    assert_eq!(*map.value(0), 2);
    assert_eq!(*map.value(1), 3);
    assert_eq!(*map.value(2), 1);
    assert_eq!(map.find("fig"), Some(1));
    assert_eq!(map.find("figs"), None);
    let (map, was) = map.replace(1, 30);
    assert_eq!(was, 3);
    assert_eq!(*map.value(1), 30);
    assert_eq!(map.key(1), "fig");
    assert_eq!(map.len(), 3);
}
