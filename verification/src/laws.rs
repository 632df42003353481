//! What holds of the compiler and the engine for every corpus, every word and
//! every category.

use crate::category::{all_supported, slot_of, supported, Category, Tag};
use crate::compile::{
    compiled, is_longest, is_shortest, kept, kept_words, lemma_table_place, longest, referenced,
    shortest, table_place,
};
use crate::corpus::{has_word, VariantModel};
use crate::corrections::{
    acceptable_in, applies, backup, corrections, lemma_table_slot, primary, single, standard_in,
    table_of, tag_of,
};
use crate::dictionary::{byte_len, candidates, case_of, correct, recase, Case, DictModel};
use crate::scan::{
    content_messages, finding, hex, identifier_messages, identifiers_messages, lines_messages,
    token_messages, word_messages, IdentifierModel, MessageModel, Place, WordModel,
};
use crate::sets::{always_valid, holders, lemma_holders, listed, word_categories};
use crate::text::{ascii_lower, code, is_ascii_lower, is_ascii_upper, lower};
use crate::words::{lemma_sorted_unique, sorted, sorted_list};
use vstd::prelude::*;
use vstd::utf8::encode_scalar;

verus! {

/// A word that some entry makes valid in every tracked category is no word of
/// the compiled dictionary, and the engine corrects it in no category,
/// whatever its case.
pub proof fn law_always_valid_never_corrected(
    symbols: Seq<Seq<char>>,
    entries: Seq<Seq<VariantModel>>,
    word: Seq<char>,
    category: Category,
)
    requires
        exists|i: int|
            0 <= i < entries.len() && has_word(#[trigger] entries[i], lower(word))
                && word_categories(entries[i], lower(word)) == all_supported(),
    ensures
        !compiled(symbols, entries).words.contains_key(lower(word)),
        correct(compiled(symbols, entries), word, category) is None,
{
    let d = compiled(symbols, entries);
    let i = choose|i: int|
        0 <= i < entries.len() && has_word(#[trigger] entries[i], lower(word)) && word_categories(
            entries[i],
            lower(word),
        ) == all_supported();
    assert(always_valid(entries, lower(word)));
    assert(!kept(entries, lower(word)));
    assert(candidates(d, lower(word), category) =~= Set::<Seq<char>>::empty());
}

/// A word shorter than the least length or longer than the greatest is not
/// corrected, whatever the dictionary holds.
pub proof fn law_length_gate(d: DictModel, word: Seq<char>, category: Category)
    requires
        byte_len(word) < d.word_min || byte_len(word) > d.word_max,
    ensures
        correct(d, word, category) is None,
{
}

/// Lowering the ASCII capitals of a word keeps its length in bytes.
pub proof fn lemma_lower_keeps_length(w: Seq<char>)
    ensures
        byte_len(lower(w)) == byte_len(w),
    decreases w.len(),
{
    if w.len() > 0 {
        let rest = w.drop_first();
        lemma_lower_keeps_length(rest);
        assert(lower(w).drop_first() =~= lower(rest));
        let c = w[0];
        assert(lower(w)[0] == ascii_lower(c));
        assert(encode_scalar(ascii_lower(c) as u32).len() == encode_scalar(c as u32).len()) by {
            if is_ascii_upper(c) {
                assert(code(ascii_lower(c)) == code(c) + 32);
            }
        }
    } else {
        assert(lower(w) =~= w);
    }
}

/// The lookup does not tell the cases of a word apart, and the answer comes in
/// the case of the word asked for: two words that differ in the case of their
/// ASCII letters alone are both corrected or both not, from the same lowercase
/// spellings in the same order, each recased to its own word.
pub proof fn law_case_insensitive(d: DictModel, a: Seq<char>, b: Seq<char>, category: Category)
    requires
        lower(a) == lower(b),
    ensures
        correct(d, a, category) is Some <==> correct(d, b, category) is Some,
        correct(d, a, category) matches Some(fixed) ==> {
            let base = sorted_list(candidates(d, lower(a), category));
            &&& fixed.len() == base.len()
            &&& correct(d, b, category)->0.len() == base.len()
            &&& forall|i: int|
                0 <= i < base.len() ==> #[trigger] fixed[i] == recase(base[i], case_of(a))
                    && correct(d, b, category)->0[i] == recase(base[i], case_of(b))
        },
{
    lemma_lower_keeps_length(a);
    lemma_lower_keeps_length(b);
}

/// A spelling of two or more characters that starts and ends with an ASCII
/// small letter has, once recased, the case it was recased to.
pub proof fn law_case_is_kept(spelling: Seq<char>, case: Case)
    requires
        spelling.len() >= 2,
        is_ascii_lower(spelling[0]),
        is_ascii_lower(spelling[spelling.len() - 1]),
    ensures
        case_of(recase(spelling, case)) == case,
{
}

/// Where exactly one spelling of an entry is the standard one of a category,
/// the corrections of the entry in that category are that spelling alone.
pub proof fn law_one_standard_spelling(
    entry: Seq<VariantModel>,
    category: Category,
    w: Seq<char>,
)
    requires
        primary(entry, category).contains(w),
        forall|x: Seq<char>| primary(entry, category).contains(x) ==> x == w,
    ensures
        corrections(entry, category) == set![w],
        supported(category) ==> table_of(entry)[slot_of(category)] == seq![w],
{
    assert(single(primary(entry, category)));
    assert(corrections(entry, category) =~= set![w]);
    if supported(category) {
        lemma_table_slot(entry, category);
        let one = seq![w];
        assert(sorted(one));
        assert(one.to_set() =~= set![w]) by {
            assert(one[0] == w);
            assert forall|x: Seq<char>| one.to_set().contains(x) <==> set![w].contains(x) by {
                if x == w {
                    assert(one.contains(x));
                }
            }
        }
        lemma_sorted_unique(table_of(entry)[slot_of(category)], one);
    }
}

/// Where no spelling of an entry or more than one is a standard one of a
/// category, the corrections of the entry in that category are all its
/// acceptable spellings.
pub proof fn law_ambiguous_standard(entry: Seq<VariantModel>, category: Category)
    requires
        !single(primary(entry, category)),
    ensures
        corrections(entry, category) == backup(entry, category),
        supported(category) ==> table_of(entry)[slot_of(category)].to_set() == backup(
            entry,
            category,
        ),
{
    if supported(category) {
        lemma_table_slot(entry, category);
    }
}

/// A spelling that an entry tags `Improper` wherever it speaks of a category
/// is no correction of the entry in that category.
pub proof fn law_improper_excluded(entry: Seq<VariantModel>, category: Category, w: Seq<char>)
    requires
        forall|j: int, k: int|
            0 <= j < entry.len() && (#[trigger] entry[j]).word == w && 0 <= k
                < entry[j].types.len() && applies(#[trigger] entry[j].types[k], category)
                ==> tag_of(entry[j].types[k]) == Tag::Improper,
    ensures
        !primary(entry, category).contains(w),
        !backup(entry, category).contains(w),
        !corrections(entry, category).contains(w),
        supported(category) ==> !table_of(entry)[slot_of(category)].contains(w),
{
    if primary(entry, category).contains(w) {
        let j = choose|j: int|
            0 <= j < entry.len() && (#[trigger] entry[j]).word == w && standard_in(
                entry[j],
                category,
            );
        let k = choose|k: int|
            0 <= k < entry[j].types.len() && applies(#[trigger] entry[j].types[k], category)
                && tag_of(entry[j].types[k]) == Tag::Eq;
        assert(tag_of(entry[j].types[k]) == Tag::Improper);
    }
    if backup(entry, category).contains(w) {
        let j = choose|j: int|
            0 <= j < entry.len() && (#[trigger] entry[j]).word == w && acceptable_in(
                entry[j],
                category,
            );
        let k = choose|k: int|
            0 <= k < entry[j].types.len() && applies(#[trigger] entry[j].types[k], category)
                && tag_of(entry[j].types[k]) != Tag::Improper;
        assert(tag_of(entry[j].types[k]) == Tag::Improper);
    }
    if supported(category) {
        lemma_table_slot(entry, category);
        if table_of(entry)[slot_of(category)].contains(w) {
            assert(table_of(entry)[slot_of(category)].to_set().contains(w));
        }
    }
}

/// A set with a word has a least length.
proof fn lemma_shortest_exists(words: Set<Seq<char>>, w: Seq<char>)
    requires
        words.contains(w),
    ensures
        exists|m: int| is_shortest(words, m),
    decreases byte_len(w),
{
    if forall|x: Seq<char>| #[trigger] words.contains(x) ==> byte_len(w) <= byte_len(x) {
        assert(is_shortest(words, byte_len(w)));
    } else {
        let x = choose|x: Seq<char>| #[trigger] words.contains(x) && byte_len(x) < byte_len(w);
        lemma_shortest_exists(words, x);
    }
}

/// A set with a word, whose words are of bounded length, has a greatest
/// length.
proof fn lemma_longest_exists(words: Set<Seq<char>>, w: Seq<char>, bound: int)
    requires
        words.contains(w),
        forall|x: Seq<char>| #[trigger] words.contains(x) ==> byte_len(x) <= bound,
    ensures
        exists|m: int| is_longest(words, m),
    decreases bound - byte_len(w),
{
    if forall|x: Seq<char>| #[trigger] words.contains(x) ==> byte_len(x) <= byte_len(w) {
        assert(is_longest(words, byte_len(w)));
    } else {
        let x = choose|x: Seq<char>| #[trigger] words.contains(x) && byte_len(x) > byte_len(w);
        lemma_longest_exists(words, x, bound);
    }
}

/// A length that no spelling of an entry exceeds.
proof fn lemma_entry_bound(entry: Seq<VariantModel>) -> (bound: int)
    ensures
        forall|j: int| 0 <= j < entry.len() ==> byte_len((#[trigger] entry[j]).word) <= bound,
    decreases entry.len(),
{
    if entry.len() == 0 {
        0
    } else {
        let before = lemma_entry_bound(entry.drop_last());
        let last = byte_len(entry.last().word);
        let bound = if before < last {
            last
        } else {
            before
        };
        assert forall|j: int| 0 <= j < entry.len() implies byte_len((#[trigger] entry[j]).word)
            <= bound by {
            if j < entry.len() - 1 {
                assert(entry.drop_last()[j] == entry[j]);
            }
        }
        bound
    }
}

/// A length that no spelling of the corpus exceeds.
proof fn lemma_corpus_bound(entries: Seq<Seq<VariantModel>>) -> (bound: int)
    ensures
        forall|w: Seq<char>| listed(entries, w) ==> byte_len(w) <= bound,
    decreases entries.len(),
{
    if entries.len() == 0 {
        0
    } else {
        let front = entries.drop_last();
        let before = lemma_corpus_bound(front);
        let last = lemma_entry_bound(entries.last());
        let bound = if before < last {
            last
        } else {
            before
        };
        assert forall|w: Seq<char>| listed(entries, w) implies byte_len(w) <= bound by {
            let i = choose|i: int| 0 <= i < entries.len() && has_word(#[trigger] entries[i], w);
            if i < entries.len() - 1 {
                assert(front[i] == entries[i]);
                assert(has_word(front[i], w));
                assert(listed(front, w));
            } else {
                let j = choose|j: int|
                    0 <= j < entries[i].len() && (#[trigger] entries[i][j]).word == w;
                assert(byte_len(entries.last()[j].word) <= last);
            }
        }
        bound
    }
}

/// The bounds of a compiled dictionary hold of each of its words, in whatever
/// case the word is asked for: the test of the length turns no word of the
/// dictionary away.
pub proof fn law_bounds_hold(
    symbols: Seq<Seq<char>>,
    entries: Seq<Seq<VariantModel>>,
    word: Seq<char>,
)
    requires
        compiled(symbols, entries).words.contains_key(lower(word)),
    ensures
        compiled(symbols, entries).word_min <= byte_len(word) <= compiled(
            symbols,
            entries,
        ).word_max,
{
    let words = kept_words(entries);
    let key = lower(word);
    lemma_lower_keeps_length(word);
    assert(words.contains(key));
    assert(words != Set::<Seq<char>>::empty());
    let bound = lemma_corpus_bound(entries);
    lemma_shortest_exists(words, key);
    lemma_longest_exists(words, key, bound);
    assert(is_shortest(words, shortest(words)));
    assert(is_longest(words, longest(words)));
}

/// Each pair of a word of a compiled dictionary lacks some tracked category:
/// the dictionary holds a word only where every one of its entries leaves a
/// category in which the word needs correcting. And each pair points to the
/// table of its entry.
pub proof fn law_compiled_words_need_correcting(
    symbols: Seq<Seq<char>>,
    entries: Seq<Seq<VariantModel>>,
    word: Seq<char>,
    k: int,
)
    requires
        compiled(symbols, entries).words.contains_key(word),
        0 <= k < compiled(symbols, entries).words[word].len(),
    ensures
        compiled(symbols, entries).words[word][k].categories != all_supported(),
        0 <= compiled(symbols, entries).words[word][k].table < compiled(
            symbols,
            entries,
        ).tables.len(),
        compiled(symbols, entries).tables[compiled(symbols, entries).words[word][k].table].slots
            == table_of(entries[holders(entries, word)[k].entry]),
{
    lemma_holders(entries, word);
    let h = holders(entries, word)[k];
    assert(has_word(entries[h.entry], word) && !always_valid(entries, word));
    assert(referenced(entries, h.entry));
    lemma_table_place(symbols, entries, h.entry, entries.len());
}

/// One of the first `n` entries is referenced and has its table at place `t`.
proof fn lemma_table_owner(entries: Seq<Seq<VariantModel>>, n: nat, t: int) -> (e: int)
    requires
        0 <= t < table_place(entries, n),
    ensures
        0 <= e < n,
        referenced(entries, e),
        table_place(entries, e as nat) == t,
    decreases n,
{
    if t < table_place(entries, (n - 1) as nat) {
        lemma_table_owner(entries, (n - 1) as nat, t)
    } else {
        n - 1
    }
}

/// A compiled dictionary holds no table in vain: to each of its tables some
/// pair of some word points.
pub proof fn law_every_table_is_referenced(
    symbols: Seq<Seq<char>>,
    entries: Seq<Seq<VariantModel>>,
    t: int,
)
    requires
        0 <= t < compiled(symbols, entries).tables.len(),
    ensures
        exists|w: Seq<char>, k: int|
            compiled(symbols, entries).words.contains_key(w) && 0 <= k < compiled(
                symbols,
                entries,
            ).words[w].len() && (#[trigger] compiled(symbols, entries).words[w][k]).table == t,
{
    let d = compiled(symbols, entries);
    lemma_table_place(symbols, entries, 0, entries.len());
    let e = lemma_table_owner(entries, entries.len(), t);
    let w = choose|w: Seq<char>| #[trigger] has_word(entries[e], w) && !always_valid(entries, w);
    lemma_holders(entries, w);
    let k = choose|k: int|
        0 <= k < holders(entries, w).len() && (#[trigger] holders(entries, w)[k]).entry == e;
    assert(listed(entries, w));
    assert(kept(entries, w));
    assert(d.words.contains_key(w));
    assert(d.words[w][k].table == t);
}

/// What two lists hold together is what either holds.
proof fn lemma_joined_holds(a: Seq<MessageModel>, b: Seq<MessageModel>, m: MessageModel)
    ensures
        (a + b).contains(m) <==> (a.contains(m) || b.contains(m)),
{
    let whole = a + b;
    if a.contains(m) {
        let i = choose|i: int| 0 <= i < a.len() && a[i] == m;
        assert(whole[i] == m);
    }
    if b.contains(m) {
        let i = choose|i: int| 0 <= i < b.len() && b[i] == m;
        assert(whole[a.len() + i] == m);
    }
    if whole.contains(m) {
        let i = choose|i: int| 0 <= i < whole.len() && whole[i] == m;
        if i < a.len() {
            assert(a[i] == m);
        } else {
            assert(b[i - a.len()] == m);
        }
    }
}

/// The messages of the first `n` words hold the finding of each corrected
/// word among them.
proof fn lemma_word_reported(
    d: DictModel,
    category: Category,
    place: Place,
    words: Seq<WordModel>,
    n: nat,
    k: int,
)
    requires
        0 <= k < n <= words.len(),
        correct(d, words[k].token, category) is Some,
    ensures
        word_messages(d, category, place, words, n).contains(
            finding(
                place,
                words[k].offset,
                words[k].token,
                correct(d, words[k].token, category)->0,
            ),
        ),
    decreases n,
{
    let m = finding(
        place,
        words[k].offset,
        words[k].token,
        correct(d, words[k].token, category)->0,
    );
    let before = word_messages(d, category, place, words, (n - 1) as nat);
    let last = token_messages(d, category, place, words[n - 1].token, words[n - 1].offset);
    lemma_joined_holds(before, last, m);
    if k < n - 1 {
        lemma_word_reported(d, category, place, words, (n - 1) as nat, k);
    } else {
        assert(last[0] == m);
    }
}

/// The messages of the first `n` identifiers hold the finding of each
/// corrected word of each identifier among them that is not passed over.
proof fn lemma_identifier_reported(
    d: DictModel,
    category: Category,
    place: Place,
    identifiers: Seq<IdentifierModel>,
    ignore_hex: bool,
    n: nat,
    j: int,
    k: int,
)
    requires
        0 <= j < n <= identifiers.len(),
        ignore_hex || !hex(identifiers[j].token),
        0 <= k < identifiers[j].words.len(),
        correct(d, identifiers[j].words[k].token, category) is Some,
    ensures
        identifiers_messages(d, category, place, identifiers, ignore_hex, n).contains(
            finding(
                place,
                identifiers[j].words[k].offset,
                identifiers[j].words[k].token,
                correct(d, identifiers[j].words[k].token, category)->0,
            ),
        ),
    decreases n,
{
    let word = identifiers[j].words[k];
    let m = finding(place, word.offset, word.token, correct(d, word.token, category)->0);
    let before = identifiers_messages(d, category, place, identifiers, ignore_hex, (n - 1) as nat);
    let last = identifier_messages(d, category, place, identifiers[n - 1], ignore_hex);
    lemma_joined_holds(before, last, m);
    if j < n - 1 {
        lemma_identifier_reported(
            d,
            category,
            place,
            identifiers,
            ignore_hex,
            (n - 1) as nat,
            j,
            k,
        );
    } else {
        let whole = token_messages(
            d,
            category,
            place,
            identifiers[j].token,
            identifiers[j].offset,
        );
        let parts = word_messages(
            d,
            category,
            place,
            identifiers[j].words,
            identifiers[j].words.len(),
        );
        lemma_word_reported(
            d,
            category,
            place,
            identifiers[j].words,
            identifiers[j].words.len(),
            k,
        );
        lemma_joined_holds(whole, parts, m);
    }
}

/// The messages of the first `n` lines hold the finding of each corrected
/// word among them, under the number of its line.
proof fn lemma_line_reported(
    d: DictModel,
    category: Category,
    lines: Seq<Seq<IdentifierModel>>,
    ignore_hex: bool,
    n: nat,
    i: int,
    j: int,
    k: int,
)
    requires
        0 <= i < n <= lines.len(),
        0 <= j < lines[i].len(),
        ignore_hex || !hex(lines[i][j].token),
        0 <= k < lines[i][j].words.len(),
        correct(d, lines[i][j].words[k].token, category) is Some,
    ensures
        lines_messages(d, category, lines, ignore_hex, n).contains(
            finding(
                Place::Line(i + 1),
                lines[i][j].words[k].offset,
                lines[i][j].words[k].token,
                correct(d, lines[i][j].words[k].token, category)->0,
            ),
        ),
    decreases n,
{
    let word = lines[i][j].words[k];
    let m = finding(
        Place::Line(i + 1),
        word.offset,
        word.token,
        correct(d, word.token, category)->0,
    );
    let before = lines_messages(d, category, lines, ignore_hex, (n - 1) as nat);
    let last = identifiers_messages(
        d,
        category,
        Place::Line(n as int),
        lines[n - 1],
        ignore_hex,
        lines[n - 1].len(),
    );
    lemma_joined_holds(before, last, m);
    if i < n - 1 {
        lemma_line_reported(d, category, lines, ignore_hex, (n - 1) as nat, i, j, k);
    } else {
        lemma_identifier_reported(
            d,
            category,
            Place::Line(i + 1),
            lines[i],
            ignore_hex,
            lines[i].len(),
            j,
            k,
        );
    }
}

/// Each corrected word of a file is reported, and as it is: where files are
/// checked and the file is read as text, a word that the engine corrects, in
/// an identifier that is not passed over, has one message of its own, and the
/// messages of the file hold it. The message carries the number of the line,
/// the offset of the word, the word as it is written, and the corrections as
/// the engine gave them.
pub proof fn law_corrected_word_is_reported(
    d: DictModel,
    category: Category,
    has_nul: bool,
    lines: Seq<Seq<IdentifierModel>>,
    ignore_hex: bool,
    binary: bool,
    i: int,
    j: int,
    k: int,
)
    requires
        binary || !has_nul,
        0 <= i < lines.len(),
        0 <= j < lines[i].len(),
        ignore_hex || !hex(lines[i][j].token),
        0 <= k < lines[i][j].words.len(),
        correct(d, lines[i][j].words[k].token, category) is Some,
    ensures
        token_messages(
            d,
            category,
            Place::Line(i + 1),
            lines[i][j].words[k].token,
            lines[i][j].words[k].offset,
        ) == seq![
            MessageModel::Correction {
                line_num: i + 1,
                col_num: lines[i][j].words[k].offset,
                typo: lines[i][j].words[k].token,
                correction: correct(d, lines[i][j].words[k].token, category)->0,
            },
        ],
        content_messages(d, category, has_nul, lines, true, ignore_hex, binary).contains(
            MessageModel::Correction {
                line_num: i + 1,
                col_num: lines[i][j].words[k].offset,
                typo: lines[i][j].words[k].token,
                correction: correct(d, lines[i][j].words[k].token, category)->0,
            },
        ),
{
    lemma_line_reported(d, category, lines, ignore_hex, lines.len(), i, j, k);
}

} // verus!
