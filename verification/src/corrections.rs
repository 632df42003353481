//! Which spellings of an entry a category expects: the standard spelling where
//! there is exactly one, every acceptable spelling otherwise.

use crate::category::{slot_category, slot_of, supported, Category, Tag, Type, SLOTS};
use crate::corpus::{Entry, Variant, VariantModel};
use crate::text::str_eq;
use crate::words::{
    insert_word, lemma_listable_empty, lemma_listable_insert, lemma_listed, lemma_sorted_list,
    lemma_sorted_no_duplicates, listable, sorted, sorted_list, words_of,
};
use vstd::prelude::*;

verus! {

/// The tag of an association; a missing one counts as `Tag::Eq`.
pub open spec fn tag_of(t: Type) -> Tag {
    match t.tag {
        Some(tag) => tag,
        None => Tag::Eq,
    }
}

/// Whether an association speaks of a category: it names the category or
/// `Category::Other`.
pub open spec fn applies(t: Type, category: Category) -> bool {
    t.category == category || t.category == Category::Other
}

/// The one spelling of the corpus that is never suggested: `anesthetisation`
/// where all it carries is an Australian association tagged `Variant` or
/// `Seldom`.
pub open spec fn ignored(v: VariantModel) -> bool {
    &&& v.word == "anesthetisation"@
    &&& v.types.len() == 1
    &&& v.types[0].category == Category::Australian
    &&& (v.types[0].tag == Some(Tag::Variant) || v.types[0].tag == Some(Tag::Seldom))
}

/// The spelling is the standard one of the category by one of its
/// associations.
pub open spec fn standard_in(v: VariantModel, category: Category) -> bool {
    !ignored(v) && exists|k: int|
        0 <= k < v.types.len() && applies(#[trigger] v.types[k], category) && tag_of(v.types[k])
            == Tag::Eq
}

/// The spelling is acceptable in the category by one of its associations: the
/// tag is not `Tag::Improper`.
pub open spec fn acceptable_in(v: VariantModel, category: Category) -> bool {
    !ignored(v) && exists|k: int|
        0 <= k < v.types.len() && applies(#[trigger] v.types[k], category) && tag_of(v.types[k])
            != Tag::Improper
}

/// The standard spellings of an entry in a category.
pub open spec fn primary(entry: Seq<VariantModel>, category: Category) -> Set<Seq<char>> {
    Set::new(
        |w: Seq<char>|
            exists|j: int|
                0 <= j < entry.len() && (#[trigger] entry[j]).word == w && standard_in(
                    entry[j],
                    category,
                ),
    )
}

/// The acceptable spellings of an entry in a category.
pub open spec fn backup(entry: Seq<VariantModel>, category: Category) -> Set<Seq<char>> {
    Set::new(
        |w: Seq<char>|
            exists|j: int|
                0 <= j < entry.len() && (#[trigger] entry[j]).word == w && acceptable_in(
                    entry[j],
                    category,
                ),
    )
}

/// The set holds exactly one word.
pub open spec fn single(s: Set<Seq<char>>) -> bool {
    exists|w: Seq<char>| #[trigger] s.contains(w) && forall|x: Seq<char>| s.contains(x) ==> x == w
}

/// The spellings that correct a word of the entry in a category: the standard
/// spelling if there is exactly one, else all acceptable spellings.
pub open spec fn corrections(entry: Seq<VariantModel>, category: Category) -> Set<Seq<char>> {
    if single(primary(entry, category)) {
        primary(entry, category)
    } else {
        backup(entry, category)
    }
}

/// The correction table of an entry: for each tracked category, in slot order,
/// its corrections as an ascending list.
pub open spec fn table_of(entry: Seq<VariantModel>) -> Seq<Seq<Seq<char>>> {
    Seq::new(SLOTS as nat, |i: int| sorted_list(corrections(entry, slot_category(i))))
}

/// Whether a spelling is the one that is never suggested.
pub fn ignore_variant(variant: &Variant) -> (r: bool)
    ensures
        r == ignored(variant@),
{
    if !str_eq(variant.word.as_str(), "anesthetisation") {
        return false;
    }
    if variant.types.len() != 1 {
        return false;
    }
    let t = variant.types[0];
    if t.category != Category::Australian {
        return false;
    }
    match t.tag {
        Some(Tag::Variant) => true,
        Some(Tag::Seldom) => true,
        _ => false,
    }
}

/// Whether a spelling is standard in a category, and whether it is acceptable
/// there.
pub fn rank(variant: &Variant, category: Category) -> (r: (bool, bool))
    ensures
        r.0 == standard_in(variant@, category),
        r.1 == acceptable_in(variant@, category),
{
    if ignore_variant(variant) {
        return (false, false);
    }
    let mut standard = false;
    let mut acceptable = false;
    let mut k: usize = 0;
    while k < variant.types.len()
        invariant
            k <= variant.types.len(),
            standard == (exists|i: int|
                0 <= i < k && applies(#[trigger] variant.types@[i], category) && tag_of(
                    variant.types@[i],
                ) == Tag::Eq),
            acceptable == (exists|i: int|
                0 <= i < k && applies(#[trigger] variant.types@[i], category) && tag_of(
                    variant.types@[i],
                ) != Tag::Improper),
        decreases variant.types.len() - k,
    {
        let t = variant.types[k];
        if t.category == category || t.category == Category::Other {
            let tag = match t.tag {
                Some(tag) => tag,
                None => Tag::Eq,
            };
            if tag == Tag::Eq {
                standard = true;
            }
            if tag != Tag::Improper {
                acceptable = true;
            }
        }
        k = k + 1;
    }
    (standard, acceptable)
}

/// What one more spelling adds to the standard spellings of an entry.
pub proof fn lemma_primary_push(entry: Seq<VariantModel>, v: VariantModel, category: Category)
    ensures
        primary(entry.push(v), category) == (if standard_in(v, category) {
            primary(entry, category).insert(v.word)
        } else {
            primary(entry, category)
        }),
{
    let more = entry.push(v);
    let target = if standard_in(v, category) {
        primary(entry, category).insert(v.word)
    } else {
        primary(entry, category)
    };
    assert forall|w: Seq<char>| primary(more, category).contains(w) <==> target.contains(w) by {
        if primary(more, category).contains(w) {
            let j = choose|j: int|
                0 <= j < more.len() && (#[trigger] more[j]).word == w && standard_in(
                    more[j],
                    category,
                );
            if j < entry.len() {
                assert(entry[j].word == w && standard_in(entry[j], category));
            }
        }
        if primary(entry, category).contains(w) {
            let j = choose|j: int|
                0 <= j < entry.len() && (#[trigger] entry[j]).word == w && standard_in(
                    entry[j],
                    category,
                );
            assert(more[j].word == w && standard_in(more[j], category));
        }
        if standard_in(v, category) && w == v.word {
            assert(more[entry.len() as int].word == w && standard_in(
                more[entry.len() as int],
                category,
            ));
        }
    }
    assert(primary(more, category) =~= target);
}

/// What one more spelling adds to the acceptable spellings of an entry.
pub proof fn lemma_backup_push(entry: Seq<VariantModel>, v: VariantModel, category: Category)
    ensures
        backup(entry.push(v), category) == (if acceptable_in(v, category) {
            backup(entry, category).insert(v.word)
        } else {
            backup(entry, category)
        }),
{
    let more = entry.push(v);
    let target = if acceptable_in(v, category) {
        backup(entry, category).insert(v.word)
    } else {
        backup(entry, category)
    };
    assert forall|w: Seq<char>| backup(more, category).contains(w) <==> target.contains(w) by {
        if backup(more, category).contains(w) {
            let j = choose|j: int|
                0 <= j < more.len() && (#[trigger] more[j]).word == w && acceptable_in(
                    more[j],
                    category,
                );
            if j < entry.len() {
                assert(entry[j].word == w && acceptable_in(entry[j], category));
            }
        }
        if backup(entry, category).contains(w) {
            let j = choose|j: int|
                0 <= j < entry.len() && (#[trigger] entry[j]).word == w && acceptable_in(
                    entry[j],
                    category,
                );
            assert(more[j].word == w && acceptable_in(more[j], category));
        }
        if acceptable_in(v, category) && w == v.word {
            assert(more[entry.len() as int].word == w && acceptable_in(
                more[entry.len() as int],
                category,
            ));
        }
    }
    assert(backup(more, category) =~= target);
}

/// An ascending list holds exactly one word when its length is one.
pub proof fn lemma_single_length(list: Seq<Seq<char>>)
    requires
        sorted(list),
    ensures
        single(list.to_set()) <==> list.len() == 1,
{
    let s = list.to_set();
    lemma_sorted_no_duplicates(list);
    if list.len() == 1 {
        assert(list.contains(list[0]));
        assert(s.contains(list[0]));
        assert forall|x: Seq<char>| s.contains(x) implies x == list[0] by {
            assert(list.contains(x));
        }
    } else if single(s) {
        let w = choose|w: Seq<char>|
            #[trigger] s.contains(w) && forall|x: Seq<char>| s.contains(x) ==> x == w;
        assert(list.contains(w));
        assert(list.len() >= 2);
        assert(list.contains(list[0]));
        assert(list.contains(list[1]));
        assert(s.contains(list[0]));
        assert(s.contains(list[1]));
    }
}

/// The corrections of an entry in a category, ascending and without repeats.
pub fn collect_correct(entry: &Entry, category: Category) -> (out: Vec<String>)
    ensures
        sorted(words_of(out@)),
        words_of(out@).to_set() == corrections(entry@, category),
        words_of(out@) == sorted_list(corrections(entry@, category)),
{
    let mut standard: Vec<String> = Vec::new();
    let mut acceptable: Vec<String> = Vec::new();
    let mut j: usize = 0;
    proof {
        assert(primary(entry@.take(0), category) =~= Set::<Seq<char>>::empty());
        assert(backup(entry@.take(0), category) =~= Set::<Seq<char>>::empty());
        assert(words_of(standard@).to_set() =~= Set::<Seq<char>>::empty());
        assert(words_of(acceptable@).to_set() =~= Set::<Seq<char>>::empty());
    }
    while j < entry.variants.len()
        invariant
            j <= entry.variants.len(),
            sorted(words_of(standard@)),
            sorted(words_of(acceptable@)),
            words_of(standard@).to_set() == primary(entry@.take(j as int), category),
            words_of(acceptable@).to_set() == backup(entry@.take(j as int), category),
        decreases entry.variants.len() - j,
    {
        let variant = &entry.variants[j];
        proof {
            assert(entry@.take(j + 1) =~= entry@.take(j as int).push(variant@));
            lemma_primary_push(entry@.take(j as int), variant@, category);
            lemma_backup_push(entry@.take(j as int), variant@, category);
        }
        let (is_standard, is_acceptable) = rank(variant, category);
        if is_standard {
            insert_word(&mut standard, variant.word.clone());
        }
        if is_acceptable {
            insert_word(&mut acceptable, variant.word.clone());
        }
        j = j + 1;
    }
    proof {
        assert(entry@.take(j as int) =~= entry@);
        lemma_single_length(words_of(standard@));
        lemma_sorted_list(words_of(standard@));
        lemma_sorted_list(words_of(acceptable@));
    }
    if standard.len() == 1 {
        standard
    } else {
        acceptable
    }
}

/// The standard and the acceptable spellings of an entry are finitely many.
pub proof fn lemma_corrections_listable(entry: Seq<VariantModel>, category: Category)
    ensures
        listable(primary(entry, category)),
        listable(backup(entry, category)),
        listable(corrections(entry, category)),
    decreases entry.len(),
{
    if entry.len() == 0 {
        lemma_listable_empty();
        assert(primary(entry, category) =~= Set::<Seq<char>>::empty());
        assert(backup(entry, category) =~= Set::<Seq<char>>::empty());
    } else {
        let front = entry.drop_last();
        let v = entry.last();
        assert(entry =~= front.push(v));
        lemma_corrections_listable(front, category);
        lemma_primary_push(front, v, category);
        lemma_backup_push(front, v, category);
        lemma_listable_insert(primary(front, category), v.word);
        lemma_listable_insert(backup(front, category), v.word);
    }
}

/// The slot of a tracked category in the table of an entry is ascending and
/// holds exactly the corrections of the entry in that category.
pub proof fn lemma_table_slot(entry: Seq<VariantModel>, category: Category)
    requires
        supported(category),
    ensures
        table_of(entry).len() == SLOTS,
        sorted(table_of(entry)[slot_of(category)]),
        table_of(entry)[slot_of(category)].to_set() == corrections(entry, category),
{
    lemma_corrections_listable(entry, category);
    lemma_listed(corrections(entry, category));
    assert(slot_category(slot_of(category)) == category);
}

} // verus!
