//! For each spelling, the categories in which it is valid: within one entry,
//! and across all entries that hold it.

use crate::category::{all_supported, covers, Category, CategorySet, Type};
use crate::corpus::{entry_models, has_word, Entry, VariantModel};
use crate::words::lemma_sorted_no_duplicates;
use crate::wordmap::WordMap;
use vstd::prelude::*;

verus! {

/// The tracked categories in which the associations of one spelling make it
/// valid.
pub open spec fn variant_categories(types: Seq<Type>) -> Set<Category> {
    Set::new(
        |c: Category|
            exists|k: int| 0 <= k < types.len() && covers((#[trigger] types[k]).category, c),
    )
}

/// The tracked categories in which a spelling is valid by an entry: the union
/// over the variants of the entry that are spelled so.
pub open spec fn word_categories(entry: Seq<VariantModel>, w: Seq<char>) -> Set<Category> {
    Set::new(
        |c: Category|
            exists|j: int|
                0 <= j < entry.len() && (#[trigger] entry[j]).word == w && variant_categories(
                    entry[j].types,
                ).contains(c),
    )
}

/// One entry that holds a spelling, by its place among the entries, with the
/// categories in which the entry makes the spelling valid.
pub struct Holder {
    pub entry: int,
    pub categories: Set<Category>,
}

/// The holders of a spelling among the first `n` entries, in their order.
pub open spec fn holders_upto(entries: Seq<Seq<VariantModel>>, w: Seq<char>, n: nat) -> Seq<
    Holder,
>
    decreases n,
{
    if n == 0 {
        Seq::empty()
    } else {
        let before = holders_upto(entries, w, (n - 1) as nat);
        if has_word(entries[n - 1], w) {
            before.push(
                Holder { entry: n - 1, categories: word_categories(entries[n - 1], w) },
            )
        } else {
            before
        }
    }
}

/// The holders of a spelling among all entries.
pub open spec fn holders(entries: Seq<Seq<VariantModel>>, w: Seq<char>) -> Seq<Holder> {
    holders_upto(entries, w, entries.len())
}

/// Whether some entry holds the spelling.
pub open spec fn listed(entries: Seq<Seq<VariantModel>>, w: Seq<char>) -> bool {
    exists|i: int| 0 <= i < entries.len() && has_word(#[trigger] entries[i], w)
}

/// Whether some entry makes the spelling valid in every tracked category.
pub open spec fn always_valid(entries: Seq<Seq<VariantModel>>, w: Seq<char>) -> bool {
    exists|i: int|
        0 <= i < entries.len() && has_word(#[trigger] entries[i], w) && word_categories(
            entries[i],
            w,
        ) == all_supported()
}

/// The holders that a vector of pairs stands for.
pub open spec fn holders_view(data: Seq<(usize, CategorySet)>) -> Seq<Holder> {
    Seq::new(data.len(), |k: int| Holder { entry: data[k].0 as int, categories: data[k].1@ })
}

/// What the holders among the first `n` entries are made of.
pub proof fn lemma_holders_upto(entries: Seq<Seq<VariantModel>>, w: Seq<char>, n: nat)
    requires
        n <= entries.len(),
    ensures
        forall|k: int|
            0 <= k < holders_upto(entries, w, n).len() ==> {
                let h = #[trigger] holders_upto(entries, w, n)[k];
                &&& 0 <= h.entry < n
                &&& has_word(entries[h.entry], w)
                &&& h.categories == word_categories(entries[h.entry], w)
            },
        forall|i: int|
            0 <= i < n && has_word(#[trigger] entries[i], w) ==> exists|k: int|
                0 <= k < holders_upto(entries, w, n).len() && (#[trigger] holders_upto(
                    entries,
                    w,
                    n,
                )[k]).entry == i,
        holders_upto(entries, w, n).len() <= n,
    decreases n,
{
    if n > 0 {
        let before = holders_upto(entries, w, (n - 1) as nat);
        let now = holders_upto(entries, w, n);
        lemma_holders_upto(entries, w, (n - 1) as nat);
        assert forall|i: int| 0 <= i < n && has_word(#[trigger] entries[i], w) implies exists|
            k: int,
        |
            0 <= k < now.len() && (#[trigger] now[k]).entry == i by {
            if i < n - 1 {
                let k = choose|k: int| 0 <= k < before.len() && (#[trigger] before[k]).entry == i;
                assert(now[k].entry == i);
            } else {
                assert(now[now.len() - 1].entry == i);
            }
        }
    }
}

/// A spelling has holders exactly when it is listed, and one of them has all
/// tracked categories exactly when the spelling is always valid.
pub proof fn lemma_holders(entries: Seq<Seq<VariantModel>>, w: Seq<char>)
    ensures
        holders(entries, w).len() > 0 <==> listed(entries, w),
        always_valid(entries, w) <==> exists|k: int|
            0 <= k < holders(entries, w).len() && (#[trigger] holders(entries, w)[k]).categories
                == all_supported(),
        forall|k: int|
            0 <= k < holders(entries, w).len() ==> {
                let h = #[trigger] holders(entries, w)[k];
                &&& 0 <= h.entry < entries.len()
                &&& has_word(entries[h.entry], w)
                &&& h.categories == word_categories(entries[h.entry], w)
            },
        forall|i: int|
            0 <= i < entries.len() && has_word(#[trigger] entries[i], w) ==> exists|k: int|
                0 <= k < holders(entries, w).len() && (#[trigger] holders(entries, w)[k]).entry
                    == i,
{
    let hs = holders(entries, w);
    lemma_holders_upto(entries, w, entries.len());
    if hs.len() > 0 {
        let h = hs[0];
        assert(has_word(entries[h.entry], w));
    }
    if listed(entries, w) {
        let i = choose|i: int| 0 <= i < entries.len() && has_word(#[trigger] entries[i], w);
        let k = choose|k: int| 0 <= k < hs.len() && (#[trigger] hs[k]).entry == i;
    }
    if always_valid(entries, w) {
        let i = choose|i: int|
            0 <= i < entries.len() && has_word(#[trigger] entries[i], w) && word_categories(
                entries[i],
                w,
            ) == all_supported();
        let k = choose|k: int| 0 <= k < hs.len() && (#[trigger] hs[k]).entry == i;
        assert(hs[k].categories == all_supported());
    }
    if exists|k: int| 0 <= k < hs.len() && (#[trigger] hs[k]).categories == all_supported() {
        let k = choose|k: int|
            0 <= k < hs.len() && (#[trigger] hs[k]).categories == all_supported();
        let h = hs[k];
        assert(has_word(entries[h.entry], w) && word_categories(entries[h.entry], w)
            == all_supported());
    }
}

/// The set of all tracked categories.
pub fn valid_categories() -> (c: CategorySet)
    ensures
        c@ == all_supported(),
{
    let mut c = CategorySet::empty();
    c.insert(Category::American);
    c.insert(Category::BritishIse);
    c.insert(Category::Canadian);
    c.insert(Category::Australian);
    proof {
        assert(c@ =~= all_supported());
    }
    c
}

/// The categories that the associations of a spelling give it: all tracked
/// ones for `Category::Other`, none for `Category::BritishIze`, else the
/// category named.
pub fn categories_of(types: &Vec<Type>) -> (set: CategorySet)
    ensures
        set@ == variant_categories(types@),
{
    let valid = valid_categories();
    let mut set = CategorySet::empty();
    let mut k: usize = 0;
    proof {
        assert(variant_categories(types@.take(0)) =~= Set::<Category>::empty());
    }
    while k < types.len()
        invariant
            k <= types.len(),
            valid@ == all_supported(),
            set@ == variant_categories(types@.take(k as int)),
        decreases types.len() - k,
    {
        let t = types[k];
        proof {
            lemma_variant_categories_push(types@.take(k as int), t);
            assert(types@.take(k + 1) =~= types@.take(k as int).push(t));
        }
        match t.category {
            Category::Other => {
                set = set.union(valid);
            },
            Category::BritishIze => {},
            other => {
                set.insert(other);
            },
        }
        k = k + 1;
    }
    proof {
        assert(types@.take(k as int) =~= types@);
    }
    set
}

/// What one more association adds to the categories of a spelling.
pub proof fn lemma_variant_categories_push(types: Seq<Type>, t: Type)
    ensures
        variant_categories(types.push(t)) == variant_categories(types).union(
            match t.category {
                Category::Other => all_supported(),
                Category::BritishIze => Set::<Category>::empty(),
                other => set![other],
            },
        ),
{
    let more = types.push(t);
    let added = match t.category {
        Category::Other => all_supported(),
        Category::BritishIze => Set::<Category>::empty(),
        other => set![other],
    };
    let target = variant_categories(types).union(added);
    assert forall|c: Category| variant_categories(more).contains(c) <==> target.contains(c) by {
        if variant_categories(more).contains(c) {
            let k = choose|k: int| 0 <= k < more.len() && covers((#[trigger] more[k]).category, c);
            if k < types.len() {
                assert(covers(types[k].category, c));
            }
        }
        if variant_categories(types).contains(c) {
            let k = choose|k: int|
                0 <= k < types.len() && covers((#[trigger] types[k]).category, c);
            assert(covers(more[k].category, c));
        }
        if added.contains(c) {
            assert(covers(more[types.len() as int].category, c));
        }
    }
    assert(variant_categories(more) =~= target);
}

/// What one more variant adds to the spellings of an entry and to their
/// categories.
pub proof fn lemma_word_categories_push(entry: Seq<VariantModel>, v: VariantModel, w: Seq<char>)
    ensures
        has_word(entry.push(v), w) <==> (has_word(entry, w) || v.word == w),
        !has_word(entry, w) ==> word_categories(entry, w) == Set::<Category>::empty(),
        word_categories(entry.push(v), w) == (if v.word == w {
            word_categories(entry, w).union(variant_categories(v.types))
        } else {
            word_categories(entry, w)
        }),
{
    let more = entry.push(v);
    if has_word(more, w) {
        let j = choose|j: int| 0 <= j < more.len() && (#[trigger] more[j]).word == w;
        if j < entry.len() {
            assert(entry[j].word == w);
        }
    }
    if has_word(entry, w) {
        let j = choose|j: int| 0 <= j < entry.len() && (#[trigger] entry[j]).word == w;
        assert(more[j].word == w);
    }
    if v.word == w {
        assert(more[entry.len() as int].word == w);
    }
    if !has_word(entry, w) {
        assert(word_categories(entry, w) =~= Set::<Category>::empty());
    }
    let target = if v.word == w {
        word_categories(entry, w).union(variant_categories(v.types))
    } else {
        word_categories(entry, w)
    };
    assert forall|c: Category| word_categories(more, w).contains(c) <==> target.contains(c) by {
        if word_categories(more, w).contains(c) {
            let j = choose|j: int|
                0 <= j < more.len() && (#[trigger] more[j]).word == w && variant_categories(
                    more[j].types,
                ).contains(c);
            if j < entry.len() {
                assert(entry[j].word == w && variant_categories(entry[j].types).contains(c));
            }
        }
        if word_categories(entry, w).contains(c) {
            let j = choose|j: int|
                0 <= j < entry.len() && (#[trigger] entry[j]).word == w && variant_categories(
                    entry[j].types,
                ).contains(c);
            assert(more[j].word == w && variant_categories(more[j].types).contains(c));
        }
        if v.word == w && variant_categories(v.types).contains(c) {
            assert(more[entry.len() as int].word == w && variant_categories(
                more[entry.len() as int].types,
            ).contains(c));
        }
    }
    assert(word_categories(more, w) =~= target);
}

/// For each spelling of an entry, the tracked categories in which the entry
/// makes it valid.
pub fn entry_set(entry: &Entry) -> (sets: WordMap<CategorySet>)
    ensures
        sets.wf(),
        forall|w: Seq<char>| sets.contains(w) <==> has_word(entry@, w),
        forall|w: Seq<char>| sets.contains(w) ==> sets.value_of(w)@ == word_categories(entry@, w),
{
    let mut sets: WordMap<CategorySet> = WordMap::new();
    let mut j: usize = 0;
    while j < entry.variants.len()
        invariant
            j <= entry.variants.len(),
            sets.wf(),
            forall|w: Seq<char>| sets@.dom().contains(w) <==> has_word(entry@.take(j as int), w),
            forall|w: Seq<char>|
                sets@.dom().contains(w) ==> (#[trigger] sets@[w])@ == word_categories(
                    entry@.take(j as int),
                    w,
                ),
        decreases entry.variants.len() - j,
    {
        let variant = &entry.variants[j];
        let add = categories_of(&variant.types);
        let ghost before = entry@.take(j as int);
        let ghost old_sets = sets;
        proof {
            assert(entry@.take(j + 1) =~= before.push(variant@));
            assert forall|w: Seq<char>| true implies {
                &&& has_word(before.push(variant@), w) <==> (has_word(before, w) || variant@.word
                    == w)
                &&& !has_word(before, w) ==> word_categories(before, w) == Set::<
                    Category,
                >::empty()
                &&& #[trigger] word_categories(before.push(variant@), w) == (if variant@.word
                    == w {
                    word_categories(before, w).union(variant_categories(variant@.types))
                } else {
                    word_categories(before, w)
                })
            } by {
                lemma_word_categories_push(before, variant@, w);
            }
        }
        match sets.find(variant.word.as_str()) {
            Some(i) => {
                let merged = sets.value(i).union(add);
                let (next, _) = sets.replace(i, merged);
                sets = next;
                proof {
                    assert(old_sets@.dom().contains(variant@.word));
                    assert(old_sets@[variant@.word] == old_sets.value_of(variant@.word));
                    assert(sets@ == old_sets@.insert(variant@.word, merged));
                    assert(sets@[variant@.word] == merged);
                    assert(merged@ == word_categories(before, variant@.word).union(add@));
                }
            },
            None => {
                sets = sets.insert(variant.word.clone(), add);
                proof {
                    assert(!old_sets@.dom().contains(variant@.word));
                    assert(sets@ == old_sets@.insert(variant@.word, add));
                    assert(sets@[variant@.word] == add);
                    assert(add@ =~= word_categories(before, variant@.word).union(add@));
                }
            },
        }
        proof {
            assert(sets@ == old_sets@.insert(variant@.word, sets@[variant@.word]));
            assert(sets@[variant@.word]@ == word_categories(before, variant@.word).union(
                variant_categories(variant@.types),
            ));
            assert forall|w: Seq<char>| sets@.dom().contains(w) <==> has_word(
                entry@.take(j + 1),
                w,
            ) by {
                let _ = word_categories(before.push(variant@), w);
            }
            assert forall|w: Seq<char>| sets@.dom().contains(w) implies (#[trigger] sets@[w])@
                == word_categories(entry@.take(j + 1), w) by {
                let _ = word_categories(before.push(variant@), w);
                if w != variant@.word {
                    assert(old_sets@.dom().contains(w));
                    assert(sets@[w] == old_sets@[w]);
                }
            }
        }
        j = j + 1;
    }
    proof {
        assert(entry@.take(j as int) =~= entry@);
        assert forall|w: Seq<char>| sets.contains(w) <==> has_word(entry@, w) by {
            assert(sets@.dom().contains(w) == sets.contains(w));
        }
        assert forall|w: Seq<char>| sets.contains(w) implies sets.value_of(w)@
            == word_categories(entry@, w) by {
            assert(sets@.dom().contains(w));
            assert(sets@[w] == sets.value_of(w));
        }
    }
    sets
}

/// Whether one of the first `n` entries holds the spelling.
pub open spec fn listed_upto(entries: Seq<Seq<VariantModel>>, w: Seq<char>, n: int) -> bool {
    exists|i: int| 0 <= i < n && has_word(#[trigger] entries[i], w)
}

/// Whether the word is one of the first `k` of a list.
pub open spec fn among(list: Seq<Seq<char>>, w: Seq<char>, k: int) -> bool {
    exists|i: int| 0 <= i < k && #[trigger] list[i] == w
}

/// A spelling that none of the first `n` entries holds has no holder among
/// them.
pub proof fn lemma_no_holders(entries: Seq<Seq<VariantModel>>, w: Seq<char>, n: nat)
    requires
        n <= entries.len(),
        !listed_upto(entries, w, n as int),
    ensures
        holders_upto(entries, w, n) == Seq::<Holder>::empty(),
{
    lemma_holders_upto(entries, w, n);
    let hs = holders_upto(entries, w, n);
    if hs.len() > 0 {
        let h = hs[0];
        assert(has_word(entries[h.entry], w));
    }
    assert(hs =~= Seq::<Holder>::empty());
}

/// For each spelling of the corpus, the entries that hold it, in their order,
/// each with the categories in which it makes the spelling valid.
pub fn entry_sets(entries: &WordMap<Entry>) -> (sets: WordMap<Vec<(usize, CategorySet)>>)
    ensures
        sets.wf(),
        forall|w: Seq<char>| sets.contains(w) <==> listed(entry_models(entries.values()), w),
        forall|w: Seq<char>|
            sets.contains(w) ==> holders_view(sets.value_of(w)@) == holders(
                entry_models(entries.values()),
                w,
            ),
{
    let ghost all = entry_models(entries.values());
    let count = entries.len();
    let mut sets: WordMap<Vec<(usize, CategorySet)>> = WordMap::new();
    let mut n: usize = 0;
    while n < count
        invariant
            n <= count,
            count == entries.keys().len(),
            entries.wf(),
            all == entry_models(entries.values()),
            sets.wf(),
            forall|w: Seq<char>| #[trigger]
                sets@.dom().contains(w) <==> listed_upto(all, w, n as int),
            forall|w: Seq<char>|
                sets@.dom().contains(w) ==> holders_view((#[trigger] sets@[w])@) == holders_upto(
                    all,
                    w,
                    n as nat,
                ),
        decreases count - n,
    {
        let entry = entries.value(n);
        let set = entry_set(entry);
        let words = set.len();
        let ghost keys = set.keys();
        proof {
            assert(all[n as int] == entry@);
            lemma_sorted_no_duplicates(keys);
        }
        let mut k: usize = 0;
        while k < words
            invariant
                k <= words,
                n < count,
                words == set.keys().len(),
                keys == set.keys(),
                keys.no_duplicates(),
                set.wf(),
                sets.wf(),
                all[n as int] == entry@,
                0 <= n < all.len(),
                forall|w: Seq<char>| set.contains(w) <==> has_word(entry@, w),
                forall|w: Seq<char>|
                    set.contains(w) ==> set.value_of(w)@ == word_categories(entry@, w),
                forall|w: Seq<char>| #[trigger]
                    sets@.dom().contains(w) <==> (listed_upto(all, w, n as int) || among(
                        keys,
                        w,
                        k as int,
                    )),
                forall|w: Seq<char>|
                    sets@.dom().contains(w) ==> holders_view((#[trigger] sets@[w])@) == (if among(
                        keys,
                        w,
                        k as int,
                    ) {
                        holders_upto(all, w, (n + 1) as nat)
                    } else {
                        holders_upto(all, w, n as nat)
                    }),
            decreases words - k,
        {
            let word = set.key(k);
            let categories = *set.value(k);
            let ghost old_sets = sets;
            let ghost w0 = word@;
            let ghost added = Holder { entry: n as int, categories: categories@ };
            proof {
                assert(keys[k as int] == w0);
                assert(set.contains(w0));
                assert(has_word(all[n as int], w0));
                assert(categories@ == word_categories(all[n as int], w0));
                assert(!among(keys, w0, k as int));
                assert(holders_upto(all, w0, (n + 1) as nat) == holders_upto(
                    all,
                    w0,
                    n as nat,
                ).push(added));
            }
            match sets.find(word.as_str()) {
                Some(i) => {
                    let (next, mut list) = sets.replace(i, Vec::new());
                    proof {
                        assert(old_sets@.dom().contains(w0));
                        assert(old_sets@[w0] == old_sets.value_of(w0));
                        assert(list == old_sets@[w0]);
                    }
                    let ghost old_list = list@;
                    list.push((n, categories));
                    proof {
                        assert(holders_view(list@) =~= holders_view(old_list).push(added));
                    }
                    let (next, _) = next.replace(i, list);
                    sets = next;
                    proof {
                        assert(sets@ =~= old_sets@.insert(w0, list));
                    }
                },
                None => {
                    let mut list: Vec<(usize, CategorySet)> = Vec::new();
                    list.push((n, categories));
                    proof {
                        assert(!old_sets@.dom().contains(w0));
                        lemma_no_holders(all, w0, n as nat);
                        assert(holders_view(list@) =~= Seq::<Holder>::empty().push(added));
                    }
                    sets = sets.insert(word.clone(), list);
                },
            }
            proof {
                assert(sets@.dom().contains(w0));
                assert(holders_view(sets@[w0]@) == holders_upto(all, w0, (n + 1) as nat));
                assert forall|w: Seq<char>| among(keys, w, k + 1) <==> (among(keys, w, k as int)
                    || w == w0) by {
                    if among(keys, w, k + 1) {
                        let i = choose|i: int| 0 <= i < k + 1 && #[trigger] keys[i] == w;
                        if i < k {
                            assert(among(keys, w, k as int));
                        }
                    }
                    if among(keys, w, k as int) {
                        let i = choose|i: int| 0 <= i < k && #[trigger] keys[i] == w;
                        assert(keys[i] == w);
                    }
                }
                assert forall|w: Seq<char>| #[trigger]
                    sets@.dom().contains(w) <==> (listed_upto(all, w, n as int) || among(
                        keys,
                        w,
                        k + 1,
                    )) by {
                    assert(sets@.dom().contains(w) <==> (old_sets@.dom().contains(w) || w == w0));
                }
                assert forall|w: Seq<char>| sets@.dom().contains(w) implies holders_view(
                    (#[trigger] sets@[w])@,
                ) == (if among(keys, w, k + 1) {
                    holders_upto(all, w, (n + 1) as nat)
                } else {
                    holders_upto(all, w, n as nat)
                }) by {
                    if w != w0 {
                        assert(old_sets@.dom().contains(w));
                        assert(sets@[w] == old_sets@[w]);
                    }
                }
            }
            k = k + 1;
        }
        proof {
            assert forall|w: Seq<char>| among(keys, w, words as int) <==> has_word(
                all[n as int],
                w,
            ) by {
                if among(keys, w, words as int) {
                    let i = choose|i: int| 0 <= i < words && #[trigger] keys[i] == w;
                    assert(keys.contains(w));
                }
                if set.contains(w) {
                    let i = choose|i: int| 0 <= i < keys.len() && keys[i] == w;
                    assert(keys[i] == w);
                }
            }
            assert forall|w: Seq<char>| listed_upto(all, w, n + 1) <==> (listed_upto(
                all,
                w,
                n as int,
            ) || has_word(all[n as int], w)) by {
                if listed_upto(all, w, n + 1) {
                    let i = choose|i: int| 0 <= i < n + 1 && has_word(#[trigger] all[i], w);
                    if i < n {
                        assert(listed_upto(all, w, n as int));
                    }
                }
                if listed_upto(all, w, n as int) {
                    let i = choose|i: int| 0 <= i < n && has_word(#[trigger] all[i], w);
                    assert(has_word(all[i], w));
                }
            }
        }
        n = n + 1;
    }
    proof {
        assert forall|w: Seq<char>| sets.contains(w) <==> listed(all, w) by {
            assert(sets@.dom().contains(w) == sets.contains(w));
            if listed(all, w) {
                let i = choose|i: int| 0 <= i < all.len() && has_word(#[trigger] all[i], w);
                assert(has_word(all[i], w));
            }
            if listed_upto(all, w, n as int) {
                let i = choose|i: int| 0 <= i < n && has_word(#[trigger] all[i], w);
                assert(has_word(all[i], w));
            }
        }
        assert forall|w: Seq<char>| sets.contains(w) implies holders_view(sets.value_of(w)@)
            == holders(all, w) by {
            assert(sets@.dom().contains(w));
            assert(sets@[w] == sets.value_of(w));
        }
    }
    sets
}

/// Whether one of the holders of a spelling makes it valid in every tracked
/// category, so that the spelling never needs correcting.
pub fn is_always_valid(data: &Vec<(usize, CategorySet)>) -> (r: bool)
    ensures
        r == exists|k: int|
            0 <= k < data.len() && (#[trigger] holders_view(data@)[k]).categories
                == all_supported(),
{
    let mut k: usize = 0;
    while k < data.len()
        invariant
            k <= data.len(),
            forall|i: int|
                0 <= i < k ==> (#[trigger] holders_view(data@)[i]).categories != all_supported(),
        decreases data.len() - k,
    {
        let set = data[k].1;
        if set.is_all() {
            proof {
                assert(holders_view(data@)[k as int].categories == all_supported());
            }
            return true;
        }
        k = k + 1;
    }
    false
}

} // verus!
