//! The compiled dictionary written out as source text: the declarations, the
//! value of each word for the static map, the bounds and the correction
//! tables.

use crate::category::{category_at, set_bits, slot_category, Category, SLOTS};
use crate::dictionary::{
    links_view, CorrectionTable, DictModel, Dictionary, Link, LinkModel, TableModel,
};
use crate::intake::{decimal, decimal_string};
use crate::text::is_ascii_lower;
use crate::words::{sorted_list, words_of};
use vstd::prelude::*;

verus! {

/// What `{:?}` prints for a string: the string between double quotes, with
/// the characters that Rust escapes in a literal escaped.
pub uninterp spec fn debug_text(s: Seq<char>) -> Seq<char>;

/// The `Debug` form of a string, as the standard library's `format!` writes
/// it. The text is a function of the string alone; it is named here and not
/// spelled out, but for a string of the small letters `a` to `z`, which
/// stands between the double quotes as it is.
#[verifier::external_body]
fn debug_string(s: &str) -> (r: String)
    ensures
        r@ == debug_text(s@),
        small_letters(s@) ==> r@ == seq!['"'] + s@ + seq!['"'],
{
    format!("{:?}", s)
}

/// A word of nothing but the small letters `a` to `z`.
pub open spec fn small_letters(w: Seq<char>) -> bool {
    forall|i: int| 0 <= i < w.len() ==> is_ascii_lower(#[trigger] w[i])
}

/// The items with the separator between each two of them.
pub open spec fn joined(items: Seq<Seq<char>>, sep: Seq<char>) -> Seq<char>
    decreases items.len(),
{
    if items.len() == 0 {
        Seq::empty()
    } else if items.len() == 1 {
        items[0]
    } else {
        joined(items.drop_last(), sep) + sep + items.last()
    }
}

/// `itertools::join` writes the first item, and then for every further item
/// the separator and the item; for no items it gives the empty string. The
/// bound keeps the capacity it asks for first, the separator's length in bytes
/// times the number of items, within what a string may hold.
#[verifier::external_body]
fn join(items: &Vec<String>, sep: &str) -> (r: String)
    requires
        4 * sep@.len() * items@.len() <= isize::MAX,
    ensures
        r@ == joined(words_of(items@), sep@),
{
    itertools::join(items.iter(), sep)
}

/// The name of a category as it is written in source text.
pub open spec fn category_name(c: Category) -> Seq<char> {
    match c {
        Category::American => "American"@,
        Category::BritishIse => "BritishIse"@,
        Category::BritishIze => "BritishIze"@,
        Category::Canadian => "Canadian"@,
        Category::Australian => "Australian"@,
        Category::Other => "Other"@,
    }
}

/// The name of a category.
pub fn name_of(c: Category) -> (name: &'static str)
    ensures
        name@ == category_name(c),
{
    match c {
        Category::American => "American",
        Category::BritishIse => "BritishIse",
        Category::BritishIze => "BritishIze",
        Category::Canadian => "Canadian",
        Category::Australian => "Australian",
        Category::Other => "Other",
    }
}

/// The path of the tracked category of a slot.
pub open spec fn category_path(i: int) -> Seq<char> {
    "crate::Category::"@ + category_name(slot_category(i))
}

/// The paths of the tracked categories, in slot order.
pub open spec fn category_paths() -> Seq<Seq<char>> {
    Seq::new(SLOTS as nat, |i: int| category_path(i))
}

/// The path of the tracked category of a slot.
fn path_source(i: usize) -> (r: String)
    requires
        i < SLOTS,
    ensures
        r@ == category_path(i as int),
{
    let mut out = String::from_str("crate::Category::");
    out.append(name_of(category_at(i)));
    out
}

/// The set of all tracked categories as an expression: their paths joined by
/// ` | `.
pub fn all_categories_source() -> (r: String)
    ensures
        r@ == joined(category_paths(), " | "@),
{
    let mut paths: Vec<String> = Vec::new();
    let mut i: usize = 0;
    while i < SLOTS
        invariant
            i <= SLOTS,
            paths.len() == i,
            forall|j: int| 0 <= j < i ==> (#[trigger] paths@[j])@ == category_path(j),
        decreases SLOTS - i,
    {
        paths.push(path_source(i));
        i = i + 1;
    }
    proof {
        reveal_strlit(" | ");
        assert(words_of(paths@) =~= category_paths());
    }
    join(&paths, " | ")
}

/// The arm of `corrections` for the tracked category of a slot.
pub open spec fn arm_text(i: int) -> Seq<char> {
    "    "@ + category_path(i) + " => options["@ + decimal(i as nat) + "],\n"@
}

/// The arms of the first `n` slots.
pub open spec fn arms_text(n: nat) -> Seq<char>
    decreases n,
{
    if n == 0 {
        Seq::empty()
    } else {
        arms_text((n - 1) as nat) + arm_text(n - 1)
    }
}

/// The arm of `corrections` for the tracked category of a slot.
fn arm_source(i: usize) -> (r: String)
    requires
        i < SLOTS,
    ensures
        r@ == arm_text(i as int),
{
    let mut out = String::from_str("    ");
    out.append(path_source(i).as_str());
    out.append(" => options[");
    out.append(decimal_string(i as u64).as_str());
    out.append("],\n");
    out
}

/// The text before the static map: the declarations of the types, of
/// `all_categories` and of `corrections`, and the head of the map's
/// declaration.
pub open spec fn header_text(package: Seq<char>) -> Seq<char> {
    "// This file is code-genned by "@ + package
        + "\n#![allow(clippy::unreadable_literal)]\n\nuse unicase::UniCase;\n\npub type Variants = &'static [&'static str];\npub type VariantsMap = [Variants; "@
        + decimal(SLOTS as nat)
        + "];\n\npub fn all_categories() -> crate::CategorySet {\n    "@ + joined(
        category_paths(),
        " | "@,
    )
        + "\n}\n\npub fn corrections(category: crate::Category, options: VariantsMap) -> &'static [&'static str] {\n  match category {\n"@
        + arms_text(SLOTS as nat)
        + "    crate::Category::BritishIze | crate::Category::Other => unreachable!(\"{:?} is unused\", category),\n  }\n}\n\npub static VARS_DICTIONARY: phf::Map<unicase::UniCase<&'static str>, &'static [(u8, &VariantsMap)]> = \n"@
}

/// The text before the static map, for the package that writes the file.
pub fn header_source(package: &str) -> (r: String)
    ensures
        r@ == header_text(package@),
{
    let mut arms = String::new();
    let mut i: usize = 0;
    proof {
        assert(arms@ =~= arms_text(0));
    }
    while i < SLOTS
        invariant
            i <= SLOTS,
            arms@ == arms_text(i as nat),
        decreases SLOTS - i,
    {
        arms.append(arm_source(i).as_str());
        i = i + 1;
    }
    let mut out = String::from_str("// This file is code-genned by ");
    out.append(package);
    out.append(
        "\n#![allow(clippy::unreadable_literal)]\n\nuse unicase::UniCase;\n\npub type Variants = &'static [&'static str];\npub type VariantsMap = [Variants; ",
    );
    out.append(decimal_string(SLOTS as u64).as_str());
    out.append("];\n\npub fn all_categories() -> crate::CategorySet {\n    ");
    out.append(all_categories_source().as_str());
    out.append(
        "\n}\n\npub fn corrections(category: crate::Category, options: VariantsMap) -> &'static [&'static str] {\n  match category {\n",
    );
    out.append(arms.as_str());
    out.append(
        "    crate::Category::BritishIze | crate::Category::Other => unreachable!(\"{:?} is unused\", category),\n  }\n}\n\npub static VARS_DICTIONARY: phf::Map<unicase::UniCase<&'static str>, &'static [(u8, &VariantsMap)]> = \n",
    );
    out
}

/// Two to the power of a place below eight.
pub open spec fn pow2(i: int) -> int {
    if i <= 0 {
        1
    } else if i == 1 {
        2
    } else if i == 2 {
        4
    } else if i == 3 {
        8
    } else if i == 4 {
        16
    } else if i == 5 {
        32
    } else if i == 6 {
        64
    } else {
        128
    }
}

/// The binary digit of `b` at place `i`.
pub open spec fn bit_char(b: int, i: int) -> char {
    if (b / pow2(i)) % 2 == 1 {
        '1'
    } else {
        '0'
    }
}

/// The number of binary digits that a byte is written in: five, or as many
/// as it needs beyond that.
pub open spec fn binary_width(b: int) -> int {
    if b >= 128 {
        8
    } else if b >= 64 {
        7
    } else if b >= 32 {
        6
    } else {
        5
    }
}

/// A byte in binary digits, filled with zeros in front to five digits.
pub open spec fn binary5(b: int) -> Seq<char> {
    Seq::new(binary_width(b) as nat, |i: int| bit_char(b, binary_width(b) - 1 - i))
}

/// A byte written in binary digits, five at the least.
pub fn binary_string(bits: u8) -> (r: String)
    ensures
        r@ == binary5(bits as int),
{
    let mut out = String::new();
    if bits >= 128 {
        out.push('1');
    }
    if bits >= 64 {
        out.push(if (bits / 64) % 2 == 1 { '1' } else { '0' });
    }
    if bits >= 32 {
        out.push(if (bits / 32) % 2 == 1 { '1' } else { '0' });
    }
    out.push(if (bits / 16) % 2 == 1 { '1' } else { '0' });
    out.push(if (bits / 8) % 2 == 1 { '1' } else { '0' });
    out.push(if (bits / 4) % 2 == 1 { '1' } else { '0' });
    out.push(if (bits / 2) % 2 == 1 { '1' } else { '0' });
    out.push(if bits % 2 == 1 { '1' } else { '0' });
    proof {
        assert(out@ =~= binary5(bits as int));
    }
    out
}

/// One pair as source text: its bits and a reference to its table.
pub open spec fn link_text(d: DictModel, link: LinkModel) -> Seq<char> {
    "(0b"@ + binary5(set_bits(link.categories)) + ", &"@ + d.tables[link.table].symbol + "), "@
}

/// The first `n` pairs of a word as source text.
pub open spec fn links_text(d: DictModel, links: Seq<LinkModel>, n: nat) -> Seq<char>
    decreases n,
{
    if n == 0 {
        Seq::empty()
    } else {
        links_text(d, links, (n - 1) as nat) + link_text(d, links[n - 1])
    }
}

/// The value of a word in the static map, as source text: a slice of its
/// pairs.
pub open spec fn value_text(d: DictModel, w: Seq<char>) -> Seq<char> {
    "&["@ + links_text(d, d.words[w], d.words[w].len()) + "]"@
}

/// One pair as source text.
fn link_source(dictionary: &Dictionary, link: &Link) -> (r: String)
    requires
        link.table < dictionary@.tables.len(),
    ensures
        r@ == link_text(dictionary@, link@),
{
    let mut out = String::from_str("(0b");
    out.append(binary_string(link.categories.bits()).as_str());
    out.append(", &");
    out.append(dictionary.table(link.table).symbol().as_str());
    out.append("), ");
    out
}

/// The value, in the static map, of the word at place `i` of the words in
/// ascending order.
pub fn value_source(dictionary: &Dictionary, i: usize) -> (r: String)
    requires
        i < sorted_list(dictionary@.words.dom()).len(),
    ensures
        r@ == value_text(dictionary@, sorted_list(dictionary@.words.dom())[i as int]),
{
    let links = dictionary.links(i);
    let ghost d = dictionary@;
    let ghost models = links_view(links@);
    let mut pairs = String::new();
    let mut k: usize = 0;
    proof {
        assert(pairs@ =~= links_text(d, models, 0));
    }
    while k < links.len()
        invariant
            k <= links.len(),
            d == dictionary@,
            models == links_view(links@),
            forall|j: int| 0 <= j < links.len() ==> (#[trigger] links@[j]).table < d.tables.len(),
            pairs@ == links_text(d, models, k as nat),
        decreases links.len() - k,
    {
        let link = &links[k];
        proof {
            assert(links@[k as int].table < d.tables.len());
            assert(models[k as int] == link@);
        }
        pairs.append(link_source(dictionary, link).as_str());
        k = k + 1;
    }
    let mut out = String::from_str("&[");
    out.append(pairs.as_str());
    out.append("]");
    out
}

/// One correction as a line of a table, from its quoted form.
pub open spec fn correction_text(quoted: Seq<char>) -> Seq<char> {
    "    "@ + quoted + ",\n"@
}

/// The line of a table for a correction that is quoted already.
pub fn correction_line(quoted: &str) -> (r: String)
    ensures
        r@ == correction_text(quoted@),
{
    let mut out = String::from_str("    ");
    out.append(quoted);
    out.append(",\n");
    out
}

/// The lines of the first `n` corrections of a slot.
pub open spec fn corrections_text(list: Seq<Seq<char>>, n: nat) -> Seq<char>
    decreases n,
{
    if n == 0 {
        Seq::empty()
    } else {
        corrections_text(list, (n - 1) as nat) + correction_text(debug_text(list[n - 1]))
    }
}

/// One slot of a table as source text: a slice of its corrections.
pub open spec fn slot_text(list: Seq<Seq<char>>) -> Seq<char> {
    "  &[\n"@ + corrections_text(list, list.len()) + "  ],\n"@
}

/// The first `n` slots of a table as source text.
pub open spec fn slots_text(slots: Seq<Seq<Seq<char>>>, n: nat) -> Seq<char>
    decreases n,
{
    if n == 0 {
        Seq::empty()
    } else {
        slots_text(slots, (n - 1) as nat) + slot_text(slots[n - 1])
    }
}

/// A correction table as source text: a static array under the name of its
/// entry, with one slice for each tracked category.
pub open spec fn table_text(table: TableModel) -> Seq<char> {
    "pub(crate) static "@ + table.symbol + ": VariantsMap = [\n"@ + slots_text(
        table.slots,
        SLOTS as nat,
    ) + "];\n\n"@
}

/// A word between double quotes.
pub open spec fn quoted(w: Seq<char>) -> Seq<char> {
    seq!['"'] + w + seq!['"']
}

/// One slot of a table as source text. Each correction of small letters
/// alone stands in it between double quotes as it is.
pub fn slot_source(list: &Vec<String>) -> (r: String)
    ensures
        r@ == slot_text(words_of(list@)),
        forall|j: int|
            0 <= j < list.len() && small_letters(#[trigger] words_of(list@)[j]) ==> debug_text(
                words_of(list@)[j],
            ) == quoted(words_of(list@)[j]),
{
    let ghost words = words_of(list@);
    let mut lines = String::new();
    let mut j: usize = 0;
    proof {
        assert(lines@ =~= corrections_text(words, 0));
    }
    while j < list.len()
        invariant
            j <= list.len(),
            words == words_of(list@),
            lines@ == corrections_text(words, j as nat),
            forall|k: int|
                0 <= k < j && small_letters(#[trigger] words[k]) ==> debug_text(words[k])
                    == quoted(words[k]),
        decreases list.len() - j,
    {
        let quoted = debug_string(list[j].as_str());
        proof {
            assert(words[j as int] == list@[j as int]@);
        }
        lines.append(correction_line(quoted.as_str()).as_str());
        j = j + 1;
    }
    let mut out = String::from_str("  &[\n");
    out.append(lines.as_str());
    out.append("  ],\n");
    out
}

/// A correction table as source text. Each correction of small letters alone
/// stands in it between double quotes as it is.
pub fn table_source(table: &CorrectionTable) -> (r: String)
    ensures
        r@ == table_text(table@),
        forall|i: int, j: int|
            0 <= i < SLOTS && 0 <= j < table@.slots[i].len() && small_letters(
                #[trigger] table@.slots[i][j],
            ) ==> debug_text(table@.slots[i][j]) == quoted(table@.slots[i][j]),
{
    let mut slots = String::new();
    let mut i: usize = 0;
    proof {
        assert(slots@ =~= slots_text(table@.slots, 0));
    }
    while i < SLOTS
        invariant
            i <= SLOTS,
            slots@ == slots_text(table@.slots, i as nat),
            forall|a: int, b: int|
                0 <= a < i && 0 <= b < table@.slots[a].len() && small_letters(
                    #[trigger] table@.slots[a][b],
                ) ==> debug_text(table@.slots[a][b]) == quoted(table@.slots[a][b]),
        decreases SLOTS - i,
    {
        let list = table.corrections(category_at(i));
        slots.append(slot_source(list).as_str());
        i = i + 1;
    }
    let mut out = String::from_str("pub(crate) static ");
    out.append(table.symbol().as_str());
    out.append(": VariantsMap = [\n");
    out.append(slots.as_str());
    out.append("];\n\n");
    out
}

/// The first `n` tables as source text.
pub open spec fn tables_text(tables: Seq<TableModel>, n: nat) -> Seq<char>
    decreases n,
{
    if n == 0 {
        Seq::empty()
    } else {
        tables_text(tables, (n - 1) as nat) + table_text(tables[n - 1])
    }
}

/// The whole file: the header for the package that writes it, the source of
/// the static map, the bounds, and the tables.
pub open spec fn variations_text(d: DictModel, package: Seq<char>, map: Seq<char>) -> Seq<char> {
    header_text(package) + map + "\n;\n\npub const WORD_MIN: usize = "@ + decimal(
        d.word_min as nat,
    ) + ";\npub const WORD_MAX: usize = "@ + decimal(d.word_max as nat) + ";\n"@ + tables_text(
        d.tables,
        d.tables.len(),
    )
}

/// The dictionary as source text, around the source of the static map, which
/// is built from the words and their values.
pub fn variations_source(dictionary: &Dictionary, package: &str, map: &str) -> (r: String)
    ensures
        r@ == variations_text(dictionary@, package@, map@),
{
    let ghost d = dictionary@;
    let mut tables = String::new();
    let count = dictionary.table_count();
    let mut i: usize = 0;
    proof {
        assert(tables@ =~= tables_text(d.tables, 0));
    }
    while i < count
        invariant
            i <= count,
            count == d.tables.len(),
            d == dictionary@,
            tables@ == tables_text(d.tables, i as nat),
        decreases count - i,
    {
        tables.append(table_source(dictionary.table(i)).as_str());
        i = i + 1;
    }
    let mut out = header_source(package);
    out.append(map);
    out.append("\n;\n\npub const WORD_MIN: usize = ");
    out.append(decimal_string(dictionary.word_min() as u64).as_str());
    out.append(";\npub const WORD_MAX: usize = ");
    out.append(decimal_string(dictionary.word_max() as u64).as_str());
    out.append(";\n");
    out.append(tables.as_str());
    out
}

} // verus!
