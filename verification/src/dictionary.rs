//! The compiled dictionary and the correction engine that reads it.

use crate::category::{
    all_supported, slot_index, slot_of, supported, Category, CategorySet, SLOTS,
};
use crate::sets::valid_categories;
use crate::text::{
    capitalized, is_ascii_upper, lower, to_capitalized, to_lower, to_upper, upper,
};
use crate::wordmap::WordMap;
use crate::words::{insert_word, lemma_sorted_list, sorted, sorted_list, words_of};
use vstd::prelude::*;
use vstd::utf8::encode_utf8;

verus! {

/// The length of a word in bytes of UTF-8, which is the length that
/// `WORD_MIN` and `WORD_MAX` bound.
pub open spec fn byte_len(w: Seq<char>) -> int {
    encode_utf8(w).len() as int
}

/// A correction table as a mathematical value: the name of the entry it was
/// made from and, for each tracked category in slot order, the ascending list
/// of its corrections.
pub struct TableModel {
    pub symbol: Seq<char>,
    pub slots: Seq<Seq<Seq<char>>>,
}

/// One pair of a compiled word as a mathematical value: the categories in
/// which an entry makes the word valid, and the place of that entry's table.
pub struct LinkModel {
    pub categories: Set<Category>,
    pub table: int,
}

/// A compiled dictionary as a mathematical value.
pub struct DictModel {
    pub words: Map<Seq<char>, Seq<LinkModel>>,
    pub tables: Seq<TableModel>,
    pub word_min: int,
    pub word_max: int,
}

/// The corrections of one entry: a list for each tracked category.
pub struct CorrectionTable {
    symbol: String,
    slots: Vec<Vec<String>>,
}

impl CorrectionTable {
    #[verifier::type_invariant]
    spec fn inv(self) -> bool {
        self.slots.len() == SLOTS
    }

    /// The table as a mathematical value.
    pub closed spec fn view(self) -> TableModel {
        TableModel {
            symbol: self.symbol@,
            slots: Seq::new(self.slots@.len(), |i: int| words_of(self.slots@[i]@)),
        }
    }

    /// A table from the name of its entry and one list for each slot.
    pub fn new(symbol: String, slots: Vec<Vec<String>>) -> (t: CorrectionTable)
        requires
            slots.len() == SLOTS,
        ensures
            t@.symbol == symbol@,
            t@.slots == Seq::new(SLOTS as nat, |i: int| words_of(slots@[i]@)),
    {
        let t = CorrectionTable { symbol, slots };
        proof {
            assert(t@.slots =~= Seq::new(SLOTS as nat, |i: int| words_of(slots@[i]@)));
        }
        t
    }

    /// The name of the entry that the table was made from.
    pub fn symbol(&self) -> (s: &String)
        ensures
            s@ == self@.symbol,
    {
        &self.symbol
    }

    /// The corrections for a tracked category.
    pub fn corrections(&self, category: Category) -> (list: &Vec<String>)
        requires
            supported(category),
        ensures
            self@.slots.len() == SLOTS,
            words_of(list@) == self@.slots[slot_of(category)],
    {
        proof {
            use_type_invariant(self);
        }
        &self.slots[slot_index(category)]
    }
}

/// One pair of a compiled word: the categories in which an entry makes the
/// word valid, and the place of that entry's table among the tables.
#[derive(Clone, Copy, Debug, PartialEq, Eq)]
pub struct Link {
    pub categories: CategorySet,
    pub table: usize,
}

impl View for Link {
    type V = LinkModel;

    open spec fn view(&self) -> LinkModel {
        LinkModel { categories: self.categories@, table: self.table as int }
    }
}

/// The pairs of a vector as mathematical values.
pub open spec fn links_view(links: Seq<Link>) -> Seq<LinkModel> {
    Seq::new(links.len(), |k: int| links[k]@)
}

/// The tables of a vector as mathematical values.
pub open spec fn tables_view(tables: Seq<CorrectionTable>) -> Seq<TableModel> {
    Seq::new(tables.len(), |i: int| tables[i]@)
}

/// The shape of the letters of a word, told by its first and its last
/// character.
#[derive(Clone, Copy, PartialEq, Eq, Debug, Structural)]
pub enum Case {
    /// The word does not start with an ASCII capital.
    Lower,
    /// The word starts with an ASCII capital and does not end with one.
    Title,
    /// The word starts and ends with an ASCII capital.
    Upper,
}

/// The case of a word.
pub open spec fn case_of(w: Seq<char>) -> Case {
    if w.len() == 0 || !is_ascii_upper(w[0]) {
        Case::Lower
    } else if is_ascii_upper(w[w.len() - 1]) {
        Case::Upper
    } else {
        Case::Title
    }
}

/// A lowercase spelling in the case of the word it corrects.
pub open spec fn recase(w: Seq<char>, case: Case) -> Seq<char> {
    match case {
        Case::Lower => w,
        Case::Title => capitalized(w),
        Case::Upper => upper(w),
    }
}

/// The spellings that the entries of a word offer for a category: those in the
/// slot of the category, in the table of each pair whose categories lack it.
pub open spec fn candidates(d: DictModel, key: Seq<char>, category: Category) -> Set<Seq<char>> {
    Set::new(
        |x: Seq<char>|
            d.words.contains_key(key) && exists|k: int|
                0 <= k < d.words[key].len() && !(#[trigger] d.words[key][k]).categories.contains(
                    category,
                ) && d.tables[d.words[key][k].table].slots[slot_of(category)].contains(x),
    )
}

/// What the engine answers for a word and a tracked category.
///
/// Nothing for a word whose length lies outside the bounds, that is no word of
/// the dictionary whatever the case of its ASCII letters, or that is valid in
/// the category by each of its entries. Otherwise the candidates, without
/// repeats, ascending as lowercase words, and each in the case of the word
/// asked for.
///
/// The word is looked up by its ASCII lowercase, as the compiler lowers the
/// spellings it keeps: `A` to `Z` fold, and a letter beyond ASCII stands for
/// itself. Folding these letters alone keeps the length of a word in bytes,
/// so the test of the length, which comes first, turns no word of the
/// dictionary away.
pub open spec fn correct(d: DictModel, word: Seq<char>, category: Category) -> Option<
    Seq<Seq<char>>,
> {
    let found = candidates(d, lower(word), category);
    if byte_len(word) < d.word_min || byte_len(word) > d.word_max {
        None
    } else if found == Set::<Seq<char>>::empty() {
        None
    } else {
        Some(
            Seq::new(
                sorted_list(found).len(),
                |i: int| recase(sorted_list(found)[i], case_of(word)),
            ),
        )
    }
}

/// The case of a word.
pub fn word_case(word: &str) -> (c: Case)
    ensures
        c == case_of(word@),
{
    let mut first: Option<char> = None;
    let mut last: Option<char> = None;
    for c in iter: word.chars()
        invariant
            iter.seq() == word@,
            iter.index() == 0 ==> first is None && last is None,
            iter.index() > 0 ==> first == Some(word@[0]) && last == Some(
                word@[iter.index() - 1],
            ),
    {
        if first.is_none() {
            first = Some(c);
        }
        last = Some(c);
    }
    match (first, last) {
        (Some(a), Some(b)) => {
            if a >= 'A' && a <= 'Z' {
                if b >= 'A' && b <= 'Z' {
                    Case::Upper
                } else {
                    Case::Title
                }
            } else {
                Case::Lower
            }
        },
        _ => Case::Lower,
    }
}

/// A copy of a lowercase spelling in a case.
pub fn apply_case(w: &str, case: Case) -> (r: String)
    ensures
        r@ == recase(w@, case),
{
    match case {
        Case::Lower => w.to_owned(),
        Case::Title => to_capitalized(w),
        Case::Upper => to_upper(w),
    }
}

/// The compiled dictionary: for each word that some category rejects, the
/// pairs of its entries; the tables those pairs point to; and the least and
/// the greatest length of a word.
pub struct Dictionary {
    words: WordMap<Vec<Link>>,
    tables: Vec<CorrectionTable>,
    word_min: usize,
    word_max: usize,
}

impl Dictionary {
    #[verifier::type_invariant]
    spec fn inv(self) -> bool {
        &&& self.words.wf()
        &&& forall|w: Seq<char>, k: int|
            self.words.contains(w) && 0 <= k < self.words.value_of(w)@.len() ==> (
            #[trigger] self.words.value_of(w)@[k]).table < self.tables.len()
    }

    /// The dictionary as a mathematical value.
    pub closed spec fn view(self) -> DictModel {
        DictModel {
            words: Map::new(
                |w: Seq<char>| self.words.contains(w),
                |w: Seq<char>| links_view(self.words.value_of(w)@),
            ),
            tables: tables_view(self.tables@),
            word_min: self.word_min as int,
            word_max: self.word_max as int,
        }
    }

    /// A dictionary from its parts. Every pair must point to a table.
    pub(crate) fn new(
        words: WordMap<Vec<Link>>,
        tables: Vec<CorrectionTable>,
        word_min: usize,
        word_max: usize,
    ) -> (d: Dictionary)
        requires
            forall|w: Seq<char>, k: int|
                words.contains(w) && 0 <= k < words.value_of(w)@.len() ==> (
                #[trigger] words.value_of(w)@[k]).table < tables.len(),
        ensures
            d@.words == Map::new(
                |w: Seq<char>| words.contains(w),
                |w: Seq<char>| links_view(words.value_of(w)@),
            ),
            d@.tables == tables_view(tables@),
            d@.word_min == word_min,
            d@.word_max == word_max,
    {
        // The length is asked for what comes with it: that the map is well formed.
        let _ = words.len();
        Dictionary { words, tables, word_min, word_max }
    }

    /// The keys of the word map are the words of the dictionary in ascending
    /// order: a list without repeats of exactly its words.
    proof fn lemma_words(self)
        requires
            self.words.wf(),
        ensures
            self.words.keys() == sorted_list(self@.words.dom()),
            self.words.keys().to_set() == self@.words.dom(),
    {
        let keys = self.words.keys();
        assert(keys.to_set() =~= self@.words.dom()) by {
            assert forall|w: Seq<char>| keys.to_set().contains(w) <==> self@.words.dom().contains(
                w,
            ) by {
                assert(self.words.contains(w) == keys.contains(w));
            }
        }
        lemma_sorted_list(keys);
    }

    /// The number of words of the dictionary. Its words in ascending order are
    /// a list without repeats of exactly its words.
    pub fn word_count(&self) -> (n: usize)
        ensures
            n == sorted_list(self@.words.dom()).len(),
            sorted(sorted_list(self@.words.dom())),
            sorted_list(self@.words.dom()).to_set() == self@.words.dom(),
    {
        let n = self.words.len();
        proof {
            self.lemma_words();
        }
        n
    }

    /// The word at place `i` of the words in ascending order.
    pub fn word(&self, i: usize) -> (w: &String)
        requires
            i < sorted_list(self@.words.dom()).len(),
        ensures
            w@ == sorted_list(self@.words.dom())[i as int],
    {
        proof {
            use_type_invariant(self);
            self.lemma_words();
        }
        self.words.key(i)
    }

    /// The pairs of the word at place `i` of the words in ascending order.
    pub fn links(&self, i: usize) -> (links: &Vec<Link>)
        requires
            i < sorted_list(self@.words.dom()).len(),
        ensures
            self@.words.contains_key(sorted_list(self@.words.dom())[i as int]),
            links_view(links@) == self@.words[sorted_list(self@.words.dom())[i as int]],
            forall|k: int|
                0 <= k < links.len() ==> (#[trigger] links@[k]).table < self@.tables.len(),
    {
        proof {
            use_type_invariant(self);
            self.lemma_words();
            self.words.lemma_index(i as int);
        }
        self.words.value(i)
    }

    /// The number of correction tables.
    pub fn table_count(&self) -> (n: usize)
        ensures
            n == self@.tables.len(),
    {
        self.tables.len()
    }

    /// The correction table at place `i`.
    pub fn table(&self, i: usize) -> (table: &CorrectionTable)
        requires
            i < self@.tables.len(),
        ensures
            table@ == self@.tables[i as int],
    {
        &self.tables[i]
    }

    /// The least length in bytes of a word of the dictionary.
    pub fn word_min(&self) -> (n: usize)
        ensures
            n == self@.word_min,
    {
        self.word_min
    }

    /// The greatest length in bytes of a word of the dictionary.
    pub fn word_max(&self) -> (n: usize)
        ensures
            n == self@.word_max,
    {
        self.word_max
    }

    /// The categories that the dictionary answers for.
    pub fn all_categories(&self) -> (c: CategorySet)
        ensures
            c@ == all_supported(),
    {
        valid_categories()
    }

    /// The correct spellings of a word in a tracked category, if the word needs
    /// correcting there.
    pub fn correct_word(&self, word: &str, category: Category) -> (r: Option<Vec<String>>)
        requires
            supported(category),
        ensures
            match r {
                Some(list) => correct(self@, word@, category) == Some(words_of(list@))
                    && list.len() > 0,
                None => correct(self@, word@, category) is None,
            },
    {
        proof {
            use_type_invariant(self);
        }
        let length = word.as_bytes().len();
        if length < self.word_min || length > self.word_max {
            return None;
        }
        let key = to_lower(word);
        let ghost d = self@;
        let ghost goal = candidates(d, key@, category);
        let at = match self.words.find(key.as_str()) {
            Some(at) => at,
            None => {
                proof {
                    assert(!d.words.contains_key(key@));
                    assert(goal =~= Set::<Seq<char>>::empty());
                }
                return None;
            },
        };
        let links = self.words.value(at);
        proof {
            assert(d.words.contains_key(key@));
            assert(d.words[key@] == links_view(links@));
        }
        let mut found: Vec<String> = Vec::new();
        let mut k: usize = 0;
        proof {
            assert(words_of(found@).to_set() =~= Set::<Seq<char>>::empty());
        }
        while k < links.len()
            invariant
                k <= links.len(),
                supported(category),
                d == self@,
                d.words.contains_key(key@),
                d.words[key@] == links_view(links@),
                forall|i: int| 0 <= i < links.len() ==> (#[trigger] links@[i]).table
                    < self.tables.len(),
                sorted(words_of(found@)),
                forall|x: Seq<char>| #[trigger]
                    words_of(found@).to_set().contains(x) <==> exists|i: int|
                        0 <= i < k && !(#[trigger] d.words[key@][i]).categories.contains(category)
                            && d.tables[d.words[key@][i].table].slots[slot_of(category)].contains(
                            x,
                        ),
            decreases links.len() - k,
        {
            let link = links[k];
            let ghost before = words_of(found@).to_set();
            let ghost slot = d.tables[d.words[key@][k as int].table].slots[slot_of(category)];
            if !link.categories.contains(category) {
                let list = self.tables[link.table].corrections(category);
                proof {
                    assert(words_of(list@) == slot);
                }
                let mut j: usize = 0;
                while j < list.len()
                    invariant
                        j <= list.len(),
                        words_of(list@) == slot,
                        sorted(words_of(found@)),
                        forall|x: Seq<char>| #[trigger]
                            words_of(found@).to_set().contains(x) <==> (before.contains(x)
                                || exists|i: int| 0 <= i < j && #[trigger] slot[i] == x),
                    decreases list.len() - j,
                {
                    let ghost prior = words_of(found@).to_set();
                    insert_word(&mut found, list[j].clone());
                    proof {
                        assert(slot[j as int] == list[j as int]@);
                        assert forall|x: Seq<char>| #[trigger]
                            words_of(found@).to_set().contains(x) <==> (before.contains(x)
                                || exists|i: int| 0 <= i < j + 1 && #[trigger] slot[i] == x) by {
                            assert(words_of(found@).to_set().contains(x) <==> (prior.contains(x)
                                || x == slot[j as int]));
                            if exists|i: int| 0 <= i < j + 1 && #[trigger] slot[i] == x {
                                let i = choose|i: int| 0 <= i < j + 1 && #[trigger] slot[i] == x;
                                if i < j {
                                    assert(slot[i] == x);
                                }
                            }
                            if exists|i: int| 0 <= i < j && #[trigger] slot[i] == x {
                                let i = choose|i: int| 0 <= i < j && #[trigger] slot[i] == x;
                                assert(slot[i] == x);
                            }
                        }
                    }
                    j = j + 1;
                }
                proof {
                    assert forall|x: Seq<char>| (exists|i: int|
                        0 <= i < slot.len() && #[trigger] slot[i] == x) <==> slot.contains(x) by {
                        if slot.contains(x) {
                            let i = choose|i: int| 0 <= i < slot.len() && slot[i] == x;
                            assert(slot[i] == x);
                        }
                    }
                }
            }
            proof {
                let now = words_of(found@).to_set();
                let applies = !d.words[key@][k as int].categories.contains(category);
                assert(d.words[key@][k as int] == links@[k as int]@);
                assert forall|x: Seq<char>| #[trigger]
                    now.contains(x) <==> exists|i: int|
                        0 <= i < k + 1 && !(#[trigger] d.words[key@][i]).categories.contains(
                            category,
                        ) && d.tables[d.words[key@][i].table].slots[slot_of(category)].contains(
                            x,
                        ) by {
                    assert(now.contains(x) <==> (before.contains(x) || (applies && slot.contains(
                        x,
                    ))));
                    if before.contains(x) {
                        let i = choose|i: int|
                            0 <= i < k && !(#[trigger] d.words[key@][i]).categories.contains(
                                category,
                            ) && d.tables[d.words[key@][i].table].slots[slot_of(
                                category,
                            )].contains(x);
                        assert(!d.words[key@][i].categories.contains(category));
                    }
                    if applies && slot.contains(x) {
                        assert(!d.words[key@][k as int].categories.contains(category));
                    }
                    if exists|i: int|
                        0 <= i < k + 1 && !(#[trigger] d.words[key@][i]).categories.contains(
                            category,
                        ) && d.tables[d.words[key@][i].table].slots[slot_of(category)].contains(
                            x,
                        ) {
                        let i = choose|i: int|
                            0 <= i < k + 1 && !(#[trigger] d.words[key@][i]).categories.contains(
                                category,
                            ) && d.tables[d.words[key@][i].table].slots[slot_of(
                                category,
                            )].contains(x);
                        if i < k {
                            assert(!d.words[key@][i].categories.contains(category));
                            assert(before.contains(x));
                        }
                    }
                }
            }
            k = k + 1;
        }
        proof {
            assert(words_of(found@).to_set() =~= goal);
            lemma_sorted_list(words_of(found@));
        }
        if found.len() == 0 {
            proof {
                assert(words_of(found@).to_set() =~= Set::<Seq<char>>::empty());
            }
            return None;
        }
        proof {
            assert(words_of(found@).contains(words_of(found@)[0]));
            assert(goal.contains(words_of(found@)[0]));
        }
        let case = word_case(word);
        let mut out: Vec<String> = Vec::new();
        let mut i: usize = 0;
        while i < found.len()
            invariant
                i <= found.len(),
                out.len() == i,
                case == case_of(word@),
                forall|j: int| 0 <= j < i ==> (#[trigger] out@[j])@ == recase(
                    found@[j]@,
                    case_of(word@),
                ),
            decreases found.len() - i,
        {
            out.push(apply_case(found[i].as_str(), case));
            i = i + 1;
        }
        proof {
            let base = sorted_list(goal);
            assert(base == words_of(found@));
            assert(words_of(out@) =~= Seq::new(
                base.len(),
                |i: int| recase(base[i], case_of(word@)),
            ));
        }
        Some(out)
    }

    /// The correct spellings of a whole identifier in a tracked category, if
    /// the identifier as it stands is a word that needs correcting there.
    pub fn correct_ident(&self, ident: &str, category: Category) -> (r: Option<Vec<String>>)
        requires
            supported(category),
        ensures
            match r {
                Some(list) => correct(self@, ident@, category) == Some(words_of(list@))
                    && list.len() > 0,
                None => correct(self@, ident@, category) is None,
            },
    {
        self.correct_word(ident, category)
    }
}

} // verus!
