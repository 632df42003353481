//! The dictionary compiler: from the entries of a corpus to the compiled
//! dictionary.

use crate::category::{category_at, CategorySet, SLOTS};
use crate::corpus::{entry_models, has_word, Entry, VariantModel};
use crate::corrections::{collect_correct, table_of};
use crate::dictionary::{
    byte_len, links_view, tables_view, CorrectionTable, DictModel, Dictionary, Link, LinkModel,
    TableModel,
};
use crate::intake::{collected, entries};
use crate::sets::{
    always_valid, among, entry_sets, holders, holders_view, is_always_valid, lemma_holders, listed,
};
use crate::wordmap::WordMap;
use crate::words::{lemma_sorted_list, lemma_sorted_no_duplicates, sorted_list, words_of};
use vstd::prelude::*;

verus! {

/// A spelling that the compiled dictionary keeps: some entry holds it, and
/// none makes it valid in every tracked category.
pub open spec fn kept(entries: Seq<Seq<VariantModel>>, w: Seq<char>) -> bool {
    listed(entries, w) && !always_valid(entries, w)
}

/// The spellings that the compiled dictionary keeps.
pub open spec fn kept_words(entries: Seq<Seq<VariantModel>>) -> Set<Seq<char>> {
    Set::new(|w: Seq<char>| kept(entries, w))
}

/// An entry whose table the compiled dictionary holds: it has a spelling that
/// is kept.
pub open spec fn referenced(entries: Seq<Seq<VariantModel>>, e: int) -> bool {
    exists|w: Seq<char>| #[trigger] has_word(entries[e], w) && !always_valid(entries, w)
}

/// The number of referenced entries among the first `n`, which is the place
/// of the table of entry `n` where that entry is referenced.
pub open spec fn table_place(entries: Seq<Seq<VariantModel>>, n: nat) -> nat
    decreases n,
{
    if n == 0 {
        0
    } else {
        table_place(entries, (n - 1) as nat) + if referenced(entries, n - 1) {
            1nat
        } else {
            0nat
        }
    }
}

/// The tables of the referenced entries among the first `n`, in the order of
/// the entries, each under the name of its entry.
pub open spec fn tables_upto(
    symbols: Seq<Seq<char>>,
    entries: Seq<Seq<VariantModel>>,
    n: nat,
) -> Seq<TableModel>
    decreases n,
{
    if n == 0 {
        Seq::empty()
    } else {
        let before = tables_upto(symbols, entries, (n - 1) as nat);
        if referenced(entries, n - 1) {
            before.push(TableModel { symbol: symbols[n - 1], slots: table_of(entries[n - 1]) })
        } else {
            before
        }
    }
}

/// The pairs of a spelling: one for each entry that holds it, in the order of
/// the entries.
pub open spec fn links_of(entries: Seq<Seq<VariantModel>>, w: Seq<char>) -> Seq<LinkModel> {
    Seq::new(
        holders(entries, w).len(),
        |k: int|
            LinkModel {
                categories: holders(entries, w)[k].categories,
                table: table_place(entries, holders(entries, w)[k].entry as nat) as int,
            },
    )
}

/// `m` is the least length of a word of the set.
pub open spec fn is_shortest(words: Set<Seq<char>>, m: int) -> bool {
    &&& exists|w: Seq<char>| #[trigger] words.contains(w) && byte_len(w) == m
    &&& forall|w: Seq<char>| #[trigger] words.contains(w) ==> m <= byte_len(w)
}

/// `m` is the greatest length of a word of the set.
pub open spec fn is_longest(words: Set<Seq<char>>, m: int) -> bool {
    &&& exists|w: Seq<char>| #[trigger] words.contains(w) && byte_len(w) == m
    &&& forall|w: Seq<char>| #[trigger] words.contains(w) ==> byte_len(w) <= m
}

/// The least length of a word of the set; the greatest `usize` for the empty
/// set.
pub open spec fn shortest(words: Set<Seq<char>>) -> int {
    if words == Set::<Seq<char>>::empty() {
        usize::MAX as int
    } else {
        choose|m: int| is_shortest(words, m)
    }
}

/// The greatest length of a word of the set; zero for the empty set.
pub open spec fn longest(words: Set<Seq<char>>) -> int {
    if words == Set::<Seq<char>>::empty() {
        0
    } else {
        choose|m: int| is_longest(words, m)
    }
}

/// The dictionary compiled from a sequence of entries and their names.
///
/// Its words are the spellings that are kept, each with one pair for every
/// entry that holds it; its tables are those of the referenced entries; its
/// bounds are the least and the greatest length of its words.
pub open spec fn compiled(symbols: Seq<Seq<char>>, entries: Seq<Seq<VariantModel>>) -> DictModel {
    DictModel {
        words: Map::new(|w: Seq<char>| kept(entries, w), |w: Seq<char>| links_of(entries, w)),
        tables: tables_upto(symbols, entries, entries.len()),
        word_min: shortest(kept_words(entries)),
        word_max: longest(kept_words(entries)),
    }
}

/// The tables are as many as the referenced entries, and the table of a
/// referenced entry stands at its place.
pub proof fn lemma_table_place(
    symbols: Seq<Seq<char>>,
    entries: Seq<Seq<VariantModel>>,
    e: int,
    n: nat,
)
    requires
        0 <= e < n,
    ensures
        table_place(entries, e as nat) <= table_place(entries, n),
        referenced(entries, e) ==> table_place(entries, e as nat) < table_place(entries, n),
        tables_upto(symbols, entries, n).len() == table_place(entries, n),
        referenced(entries, e) ==> tables_upto(symbols, entries, n)[table_place(
            entries,
            e as nat,
        ) as int] == (TableModel { symbol: symbols[e], slots: table_of(entries[e]) }),
    decreases n,
{
    lemma_tables_len(symbols, entries, n);
    lemma_tables_len(symbols, entries, (n - 1) as nat);
    if e < n - 1 {
        lemma_table_place(symbols, entries, e, (n - 1) as nat);
    }
}

/// The tables of the first `n` entries are as many as the referenced entries
/// among them.
pub proof fn lemma_tables_len(symbols: Seq<Seq<char>>, entries: Seq<Seq<VariantModel>>, n: nat)
    ensures
        tables_upto(symbols, entries, n).len() == table_place(entries, n),
    decreases n,
{
    if n > 0 {
        lemma_tables_len(symbols, entries, (n - 1) as nat);
    }
}

/// The correction table of an entry under its name.
pub fn generate_entry(symbol: &str, entry: &Entry) -> (table: CorrectionTable)
    ensures
        table@ == (TableModel { symbol: symbol@, slots: table_of(entry@) }),
{
    let mut slots: Vec<Vec<String>> = Vec::new();
    let mut i: usize = 0;
    while i < SLOTS
        invariant
            i <= SLOTS,
            slots.len() == i,
            forall|j: int| 0 <= j < i ==> words_of((#[trigger] slots@[j])@) == table_of(entry@)[j],
        decreases SLOTS - i,
    {
        let list = collect_correct(entry, category_at(i));
        slots.push(list);
        i = i + 1;
    }
    let table = CorrectionTable::new(symbol.to_owned(), slots);
    proof {
        assert(table@.slots =~= table_of(entry@));
    }
    table
}

/// The pairs of a word from its holders: each holder's categories with the
/// place of its entry's table.
pub fn generate_link(data: &Vec<(usize, CategorySet)>, index: &Vec<usize>) -> (links: Vec<Link>)
    requires
        forall|k: int| 0 <= k < data.len() ==> (#[trigger] data@[k]).0 < index.len(),
    ensures
        links.len() == data.len(),
        forall|k: int|
            0 <= k < data.len() ==> (#[trigger] links@[k]).categories == data@[k].1
                && links@[k].table == index@[data@[k].0 as int],
{
    let mut links: Vec<Link> = Vec::new();
    let mut k: usize = 0;
    while k < data.len()
        invariant
            k <= data.len(),
            links.len() == k,
            forall|i: int| 0 <= i < data.len() ==> (#[trigger] data@[i]).0 < index.len(),
            forall|i: int|
                0 <= i < k ==> (#[trigger] links@[i]).categories == data@[i].1 && links@[i].table
                    == index@[data@[i].0 as int],
        decreases data.len() - k,
    {
        let (entry, categories) = data[k];
        assert(data@[k as int].0 < index.len());
        links.push(Link { categories, table: index[entry] });
        k = k + 1;
    }
    links
}

/// The sets are those of the corpus: a key for each listed spelling, with its
/// holders.
pub open spec fn grouped(
    sets: WordMap<Vec<(usize, CategorySet)>>,
    all: Seq<Seq<VariantModel>>,
) -> bool {
    &&& sets.wf()
    &&& forall|w: Seq<char>| sets.contains(w) <==> listed(all, w)
    &&& forall|w: Seq<char>|
        sets.contains(w) ==> holders_view(#[trigger] sets.value_of(w)@) == holders(all, w)
}

/// One of the first `i` keys is kept and is a spelling of entry `e`.
pub open spec fn marked(all: Seq<Seq<VariantModel>>, keys: Seq<Seq<char>>, e: int, i: int) -> bool {
    exists|j: int| 0 <= j < i && kept(all, #[trigger] keys[j]) && has_word(all[e], keys[j])
}

/// One of the first `k` holders is entry `e`.
pub open spec fn holds(data: Seq<(usize, CategorySet)>, e: int, k: int) -> bool {
    exists|j: int| 0 <= j < k && (#[trigger] data[j]).0 == e
}

/// Which entries are referenced.
fn mark_referenced(
    sets: &WordMap<Vec<(usize, CategorySet)>>,
    count: usize,
    Ghost(all): Ghost<Seq<Seq<VariantModel>>>,
) -> (flags: Vec<bool>)
    requires
        grouped(*sets, all),
        count == all.len(),
    ensures
        flags.len() == count,
        forall|e: int| 0 <= e < count ==> #[trigger] flags@[e] == referenced(all, e),
{
    let mut flags: Vec<bool> = Vec::new();
    let mut e: usize = 0;
    while e < count
        invariant
            e <= count,
            flags.len() == e,
            forall|j: int| 0 <= j < e ==> !#[trigger] flags@[j],
        decreases count - e,
    {
        flags.push(false);
        e = e + 1;
    }
    let words = sets.len();
    let ghost keys = sets.keys();
    let mut i: usize = 0;
    while i < words
        invariant
            i <= words,
            words == sets.keys().len(),
            keys == sets.keys(),
            grouped(*sets, all),
            count == all.len(),
            flags.len() == count,
            forall|e: int|
                0 <= e < count ==> #[trigger] flags@[e] == marked(all, keys, e, i as int),
        decreases words - i,
    {
        let data = sets.value(i);
        let ghost w = keys[i as int];
        proof {
            assert(sets.contains(w));
            assert(data == sets.value_of(w));
            assert(holders_view(data@) == holders(all, w));
            lemma_holders(all, w);
        }
        let keep = !is_always_valid(data);
        proof {
            assert(keep == kept(all, w));
        }
        if keep {
            let mut k: usize = 0;
            while k < data.len()
                invariant
                    k <= data.len(),
                    count == all.len(),
                    flags.len() == count,
                    holders_view(data@) == holders(all, w),
                    forall|j: int|
                        0 <= j < holders(all, w).len() ==> 0 <= (#[trigger] holders(
                            all,
                            w,
                        )[j]).entry < all.len(),
                    forall|e: int|
                        0 <= e < count ==> #[trigger] flags@[e] == (marked(all, keys, e, i as int)
                            || holds(data@, e, k as int)),
                decreases data.len() - k,
            {
                let entry = data[k].0;
                proof {
                    assert(holders_view(data@)[k as int].entry == entry);
                    assert(holders(all, w)[k as int].entry == entry);
                }
                let ghost before = flags@;
                flags.set(entry, true);
                proof {
                    assert forall|e: int| 0 <= e < count implies #[trigger] flags@[e] == (marked(
                        all,
                        keys,
                        e,
                        i as int,
                    ) || holds(data@, e, k + 1)) by {
                        if holds(data@, e, k + 1) {
                            let j = choose|j: int| 0 <= j < k + 1 && (#[trigger] data@[j]).0 == e;
                            if j < k {
                                assert(holds(data@, e, k as int));
                            }
                        }
                        if holds(data@, e, k as int) {
                            let j = choose|j: int| 0 <= j < k && (#[trigger] data@[j]).0 == e;
                            assert(data@[j].0 == e);
                        }
                        if e == entry {
                            assert(data@[k as int].0 == e);
                        }
                    }
                }
                k = k + 1;
            }
        }
        proof {
            assert forall|e: int| 0 <= e < count implies #[trigger] flags@[e] == marked(
                all,
                keys,
                e,
                i + 1,
            ) by {
                let here = kept(all, w) && has_word(all[e], w);
                if keep {
                    if holds(data@, e, data.len() as int) {
                        let j = choose|j: int|
                            0 <= j < data.len() && (#[trigger] data@[j]).0 == e;
                        assert(holders_view(data@)[j].entry == e);
                        assert(holders(all, w)[j].entry == e);
                        assert(has_word(all[e], w));
                    }
                    if has_word(all[e], w) {
                        let j = choose|j: int|
                            0 <= j < holders(all, w).len() && (#[trigger] holders(
                                all,
                                w,
                            )[j]).entry == e;
                        assert(holders_view(data@)[j].entry == e);
                        assert(data@[j].0 == e);
                        assert(holds(data@, e, data.len() as int));
                    }
                    assert(here == holds(data@, e, data.len() as int));
                }
                if marked(all, keys, e, i + 1) {
                    let j = choose|j: int|
                        0 <= j < i + 1 && kept(all, #[trigger] keys[j]) && has_word(
                            all[e],
                            keys[j],
                        );
                    if j < i {
                        assert(marked(all, keys, e, i as int));
                    }
                }
                if marked(all, keys, e, i as int) {
                    let j = choose|j: int|
                        0 <= j < i && kept(all, #[trigger] keys[j]) && has_word(all[e], keys[j]);
                    assert(kept(all, keys[j]) && has_word(all[e], keys[j]));
                }
                if here {
                    assert(kept(all, keys[i as int]) && has_word(all[e], keys[i as int]));
                }
            }
        }
        i = i + 1;
    }
    proof {
        assert forall|e: int| 0 <= e < count implies #[trigger] flags@[e] == referenced(
            all,
            e,
        ) by {
            if marked(all, keys, e, words as int) {
                let j = choose|j: int|
                    0 <= j < words && kept(all, #[trigger] keys[j]) && has_word(all[e], keys[j]);
                assert(has_word(all[e], keys[j]) && !always_valid(all, keys[j]));
            }
            if referenced(all, e) {
                let x = choose|x: Seq<char>| #[trigger]
                    has_word(all[e], x) && !always_valid(all, x);
                assert(listed(all, x));
                assert(sets.contains(x));
                let j = choose|j: int| 0 <= j < keys.len() && keys[j] == x;
                assert(kept(all, keys[j]) && has_word(all[e], keys[j]));
            }
        }
    }
    flags
}

/// The tables of the referenced entries, and for each entry the number of
/// referenced entries before it.
fn emit_tables(entries: &WordMap<Entry>, flags: &Vec<bool>) -> (r: (
    Vec<CorrectionTable>,
    Vec<usize>,
))
    requires
        flags.len() == entries.keys().len(),
        forall|e: int|
            0 <= e < flags.len() ==> #[trigger] flags@[e] == referenced(
                entry_models(entries.values()),
                e,
            ),
    ensures
        tables_view(r.0@) == tables_upto(
            entries.keys(),
            entry_models(entries.values()),
            entries.keys().len(),
        ),
        r.1.len() == entries.keys().len(),
        forall|e: int|
            0 <= e < r.1.len() ==> #[trigger] r.1@[e] == table_place(
                entry_models(entries.values()),
                e as nat,
            ),
{
    let ghost all = entry_models(entries.values());
    let ghost symbols = entries.keys();
    let count = entries.len();
    let mut tables: Vec<CorrectionTable> = Vec::new();
    let mut index: Vec<usize> = Vec::new();
    let mut e: usize = 0;
    proof {
        assert(tables_view(tables@) =~= tables_upto(symbols, all, 0));
    }
    while e < count
        invariant
            e <= count,
            count == entries.keys().len(),
            flags.len() == count,
            entries.wf(),
            all == entry_models(entries.values()),
            symbols == entries.keys(),
            forall|j: int| 0 <= j < flags.len() ==> #[trigger] flags@[j] == referenced(all, j),
            tables_view(tables@) == tables_upto(symbols, all, e as nat),
            tables.len() == table_place(all, e as nat),
            index.len() == e,
            forall|j: int| 0 <= j < e ==> #[trigger] index@[j] == table_place(all, j as nat),
        decreases count - e,
    {
        index.push(tables.len());
        if flags[e] {
            let table = generate_entry(entries.key(e).as_str(), entries.value(e));
            let ghost before = tables_view(tables@);
            tables.push(table);
            proof {
                assert(all[e as int] == entries.values()[e as int]@);
                assert(tables_view(tables@) =~= before.push(table@));
            }
        }
        e = e + 1;
    }
    (tables, index)
}

/// The bounds are those of the words: both at their defaults where there is no
/// word, else the least and the greatest length.
pub open spec fn spans(words: Set<Seq<char>>, least: int, greatest: int) -> bool {
    if words == Set::<Seq<char>>::empty() {
        least == usize::MAX && greatest == 0
    } else {
        is_shortest(words, least) && is_longest(words, greatest)
    }
}

/// Bounds that span a set are its least and its greatest length.
pub proof fn lemma_spans(words: Set<Seq<char>>, least: int, greatest: int)
    requires
        spans(words, least, greatest),
    ensures
        least == shortest(words),
        greatest == longest(words),
{
    if words != Set::<Seq<char>>::empty() {
        let a = choose|m: int| is_shortest(words, m);
        let b = choose|m: int| is_longest(words, m);
        assert(is_shortest(words, a));
        assert(is_longest(words, b));
    }
}

/// What one more word does to the bounds.
pub proof fn lemma_spans_insert(
    words: Set<Seq<char>>,
    least: int,
    greatest: int,
    w: Seq<char>,
)
    requires
        spans(words, least, greatest),
        byte_len(w) <= usize::MAX,
    ensures
        spans(
            words.insert(w),
            if byte_len(w) < least {
                byte_len(w)
            } else {
                least
            },
            if byte_len(w) > greatest {
                byte_len(w)
            } else {
                greatest
            },
        ),
{
    let more = words.insert(w);
    let n = byte_len(w);
    assert(more.contains(w));
    assert(more != Set::<Seq<char>>::empty());
    if words == Set::<Seq<char>>::empty() {
        assert forall|x: Seq<char>| #[trigger] more.contains(x) implies x == w by {
            assert(!words.contains(x));
        }
    } else {
        let a = choose|x: Seq<char>| #[trigger] words.contains(x) && byte_len(x) == least;
        let b = choose|x: Seq<char>| #[trigger] words.contains(x) && byte_len(x) == greatest;
        assert(more.contains(a));
        assert(more.contains(b));
    }
}

/// The words of the dictionary with their pairs, and the bounds of their
/// lengths.
fn link_words(
    sets: &WordMap<Vec<(usize, CategorySet)>>,
    index: &Vec<usize>,
    Ghost(all): Ghost<Seq<Seq<VariantModel>>>,
) -> (r: (WordMap<Vec<Link>>, usize, usize))
    requires
        grouped(*sets, all),
        index.len() == all.len(),
        forall|e: int| 0 <= e < index.len() ==> #[trigger] index@[e] == table_place(all, e as nat),
    ensures
        r.0.wf(),
        forall|w: Seq<char>| r.0.contains(w) <==> kept(all, w),
        forall|w: Seq<char>|
            r.0.contains(w) ==> links_view(#[trigger] r.0.value_of(w)@) == links_of(all, w),
        spans(kept_words(all), r.1 as int, r.2 as int),
{
    let mut words: WordMap<Vec<Link>> = WordMap::new();
    let mut smallest: usize = usize::MAX;
    let mut largest: usize = 0;
    let count = sets.len();
    let ghost keys = sets.keys();
    let mut i: usize = 0;
    proof {
        lemma_sorted_no_duplicates(keys);
        assert(words@.dom() =~= Set::<Seq<char>>::empty());
    }
    while i < count
        invariant
            i <= count,
            count == sets.keys().len(),
            keys == sets.keys(),
            keys.no_duplicates(),
            grouped(*sets, all),
            index.len() == all.len(),
            forall|e: int|
                0 <= e < index.len() ==> #[trigger] index@[e] == table_place(all, e as nat),
            words.wf(),
            forall|w: Seq<char>| #[trigger]
                words@.dom().contains(w) <==> (among(keys, w, i as int) && kept(all, w)),
            forall|w: Seq<char>|
                words@.dom().contains(w) ==> links_view((#[trigger] words@[w])@) == links_of(
                    all,
                    w,
                ),
            spans(words@.dom(), smallest as int, largest as int),
        decreases count - i,
    {
        let key = sets.key(i);
        let data = sets.value(i);
        let ghost w = keys[i as int];
        let ghost old_words = words;
        proof {
            assert(sets.contains(w));
            assert(data == sets.value_of(w));
            assert(holders_view(data@) == holders(all, w));
            lemma_holders(all, w);
            assert(!among(keys, w, i as int));
            assert forall|k: int| 0 <= k < data.len() implies (#[trigger] data@[k]).0
                < index.len() by {
                assert(holders_view(data@)[k].entry == data@[k].0);
                assert(0 <= holders(all, w)[k].entry < all.len());
            }
        }
        if !is_always_valid(data) {
            let links = generate_link(data, index);
            let length = key.as_str().as_bytes().len();
            proof {
                assert(length == byte_len(w));
                assert(kept(all, w));
                assert(links_view(links@) =~= links_of(all, w)) by {
                    assert forall|k: int| 0 <= k < links.len() implies links_view(links@)[k]
                        == links_of(all, w)[k] by {
                        assert(holders_view(data@)[k].entry == data@[k].0);
                        assert(holders_view(data@)[k].categories == data@[k].1@);
                        assert(links@[k].categories == data@[k].1);
                    }
                }
                lemma_spans_insert(words@.dom(), smallest as int, largest as int, w);
                assert(words@.dom().contains(w) == words.contains(w));
            }
            words = words.insert(key.clone(), links);
            if length < smallest {
                smallest = length;
            }
            if length > largest {
                largest = length;
            }
            proof {
                assert(words@.dom() =~= old_words@.dom().insert(w));
            }
        }
        proof {
            assert forall|x: Seq<char>| among(keys, x, i + 1) <==> (among(keys, x, i as int) || x
                == w) by {
                if among(keys, x, i + 1) {
                    let j = choose|j: int| 0 <= j < i + 1 && #[trigger] keys[j] == x;
                    if j < i {
                        assert(among(keys, x, i as int));
                    }
                }
                if among(keys, x, i as int) {
                    let j = choose|j: int| 0 <= j < i && #[trigger] keys[j] == x;
                    assert(keys[j] == x);
                }
            }
            assert forall|x: Seq<char>| #[trigger]
                words@.dom().contains(x) <==> (among(keys, x, i + 1) && kept(all, x)) by {
                assert(old_words@.dom().contains(x) <==> (among(keys, x, i as int) && kept(
                    all,
                    x,
                )));
            }
            assert forall|x: Seq<char>| words@.dom().contains(x) implies links_view(
                (#[trigger] words@[x])@,
            ) == links_of(all, x) by {
                if x != w {
                    assert(old_words@.dom().contains(x));
                    assert(words@[x] == old_words@[x]);
                }
            }
        }
        i = i + 1;
    }
    proof {
        assert forall|x: Seq<char>| words.contains(x) <==> kept(all, x) by {
            assert(words@.dom().contains(x) == words.contains(x));
            if kept(all, x) {
                assert(sets.contains(x));
                let j = choose|j: int| 0 <= j < keys.len() && keys[j] == x;
                assert(keys[j] == x);
                assert(among(keys, x, count as int));
            }
        }
        assert forall|x: Seq<char>| words.contains(x) implies links_view(
            #[trigger] words.value_of(x)@,
        ) == links_of(all, x) by {
            assert(words@.dom().contains(x));
            assert(words@[x] == words.value_of(x));
        }
        assert(words@.dom() =~= kept_words(all));
    }
    (words, smallest, largest)
}

/// Compiles the entries, each kept under its name, into the dictionary.
pub fn generate_variations(entries: &WordMap<Entry>) -> (dictionary: Dictionary)
    ensures
        dictionary@ == compiled(entries.keys(), entry_models(entries.values())),
{
    let ghost all = entry_models(entries.values());
    let ghost symbols = entries.keys();
    let count = entries.len();
    let sets = entry_sets(entries);
    let flags = mark_referenced(&sets, count, Ghost(all));
    let (tables, index) = emit_tables(entries, &flags);
    let (words, smallest, largest) = link_words(&sets, &index, Ghost(all));
    proof {
        assert forall|w: Seq<char>, k: int|
            words.contains(w) && 0 <= k < words.value_of(w)@.len() implies (
        #[trigger] words.value_of(w)@[k]).table < tables.len() by {
            lemma_holders(all, w);
            assert(links_view(words.value_of(w)@) == links_of(all, w));
            assert(links_view(words.value_of(w)@).len() == holders(all, w).len());
            let h = holders(all, w)[k];
            assert(links_view(words.value_of(w)@)[k] == links_of(all, w)[k]);
            assert(kept(all, w));
            assert(has_word(all[h.entry], w));
            assert(referenced(all, h.entry));
            lemma_table_place(symbols, all, h.entry, all.len());
            assert(tables_view(tables@).len() == tables.len());
        }
        lemma_spans(kept_words(all), smallest as int, largest as int);
    }
    let dictionary = Dictionary::new(words, tables, smallest, largest);
    proof {
        let target = compiled(symbols, all);
        assert(dictionary@.words =~= target.words);
    }
    dictionary
}

/// The dictionary compiled from a corpus: from its accepted entries,
/// normalised, in the order of their names.
pub open spec fn compiled_corpus(corpus: Seq<Seq<VariantModel>>) -> DictModel {
    let names = sorted_list(collected(corpus).dom());
    compiled(names, Seq::new(names.len(), |i: int| collected(corpus)[names[i]]))
}

/// Compiles a corpus into the dictionary.
pub fn run(corpus: &Vec<Entry>) -> (dictionary: Dictionary)
    ensures
        dictionary@ == compiled_corpus(entry_models(corpus@)),
{
    let kept = entries(corpus);
    let count = kept.len();
    proof {
        let all = collected(entry_models(corpus@));
        let names = kept.keys();
        assert(names.to_set() =~= all.dom()) by {
            assert forall|s: Seq<char>| names.to_set().contains(s) <==> all.dom().contains(s) by {
                assert(kept.contains(s) == names.contains(s));
            }
        }
        lemma_sorted_list(names);
        assert(entry_models(kept.values()) =~= Seq::new(names.len(), |i: int| all[names[i]])) by {
            assert forall|i: int| 0 <= i < names.len() implies entry_models(kept.values())[i]
                == all[names[i]] by {
                kept.lemma_index(i);
            }
        }
    }
    generate_variations(&kept)
}

} // verus!
