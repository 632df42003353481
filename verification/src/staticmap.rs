//! The source of the static map from words to their values, which a
//! perfect-hash generator writes.

use crate::dictionary::Dictionary;
use crate::render::{debug_text, value_source, value_text, variations_source, variations_text};
use crate::text::{code, is_ascii_upper};
use crate::words::{lemma_sorted_no_duplicates, sorted_list};
use vstd::prelude::*;

verus! {

/// The builder of a static map, of the `phf_codegen` crate.
#[verifier::external_type_specification]
#[verifier::external_body]
#[verifier::reject_recursive_types(K)]
pub struct ExMap<K>(phf_codegen::Map<K>);

/// A string that compares without regard to case, of the `unicase` crate.
#[verifier::external_type_specification]
#[verifier::external_body]
#[verifier::reject_recursive_types(S)]
pub struct ExUniCase<S>(unicase::UniCase<S>);

/// The text that a case-insensitive key holds.
pub uninterp spec fn key_text(key: unicase::UniCase<String>) -> Seq<char>;

/// The entries that a map builder holds, in the order in which they came:
/// the text of each key with the source text of its value.
pub uninterp spec fn entries_of(builder: phf_codegen::Map<unicase::UniCase<String>>) -> Seq<
    (Seq<char>, Seq<char>),
>;

/// Whether two texts are equal as case-insensitive keys, by Unicode case
/// folding.
pub uninterp spec fn folds_alike(a: Seq<char>, b: Seq<char>) -> bool;

/// `unicase::eq` compares two strings as the keys that `UniCase::new` makes
/// of them: without regard to case, by Unicode case folding.
#[verifier::external_body]
fn same_key(a: &str, b: &str) -> (r: bool)
    ensures
        r == folds_alike(a@, b@),
{
    unicase::eq(a, b)
}

/// `unicase::UniCase::new` wraps a string, which it keeps as it is, so that
/// it compares without regard to case.
#[verifier::external_body]
fn caseless(word: &str) -> (key: unicase::UniCase<String>)
    ensures
        key_text(key) == word@,
{
    unicase::UniCase::new(word.to_owned())
}

/// `phf_codegen::Map::new` makes a builder without entries.
#[verifier::external_body]
fn builder_new() -> (builder: phf_codegen::Map<unicase::UniCase<String>>)
    ensures
        entries_of(builder) == Seq::<(Seq<char>, Seq<char>)>::empty(),
{
    phf_codegen::Map::new()
}

/// `phf_codegen::Map::entry` adds a key and the source text of its value
/// behind the entries that the builder holds.
#[verifier::external_body]
fn builder_entry(
    builder: &mut phf_codegen::Map<unicase::UniCase<String>>,
    key: unicase::UniCase<String>,
    value: &str,
)
    ensures
        entries_of(*final(builder)) == entries_of(*old(builder)).push((key_text(key), value@)),
{
    builder.entry(key, value);
}

/// A plain word: ASCII characters only, and no capital among them.
pub open spec fn plain(w: Seq<char>) -> bool {
    forall|i: int| 0 <= i < w.len() ==> code(#[trigger] w[i]) < 128 && !is_ascii_upper(w[i])
}

/// A word of ASCII characters only.
pub open spec fn ascii(w: Seq<char>) -> bool {
    forall|i: int| 0 <= i < w.len() ==> code(#[trigger] w[i]) < 128
}

/// Two keys that a static map can hold side by side: two different plain
/// words, or two words that are not equal as case-insensitive keys.
pub open spec fn apart(a: Seq<char>, b: Seq<char>) -> bool {
    (plain(a) && plain(b) && a != b) || !folds_alike(a, b)
}

/// `part` stands somewhere in `whole`.
pub open spec fn occurs(part: Seq<char>, whole: Seq<char>) -> bool {
    exists|at: int|
        0 <= at && at + part.len() <= whole.len() && #[trigger] whole.subrange(
            at,
            at + part.len(),
        ) == part
}

/// The line of an entry in the source of a static map: the key, as an ASCII
/// or a Unicode key, and the value.
pub open spec fn entry_line(key: Seq<char>, value: Seq<char>) -> Seq<char> {
    "\n        ("@ + (if ascii(key) {
        "UniCase::ascii("@
    } else {
        "UniCase::unicode("@
    }) + debug_text(key) + "), "@ + value + "),"@
}

/// `phf_codegen::Map::build` computes the hash parameters for the keys and
/// gives what prints as the source of a `phf::Map` with the entries: among
/// other lines, one line for each entry, with its key and its value. It
/// panics where two keys are equal without regard to case; keys that are
/// apart, each from each, are never so. Of the rest of the text nothing is
/// claimed: the parameters, and with them the order of the lines, are sought
/// with a generator of random numbers that differs from machine to machine.
#[verifier::external_body]
fn builder_build(builder: &phf_codegen::Map<unicase::UniCase<String>>) -> (source: String)
    requires
        forall|i: int, j: int|
            0 <= i < entries_of(*builder).len() && 0 <= j < entries_of(*builder).len() && i != j
                ==> apart(
                (#[trigger] entries_of(*builder)[i]).0,
                (#[trigger] entries_of(*builder)[j]).0,
            ),
    ensures
        forall|i: int|
            0 <= i < entries_of(*builder).len() ==> occurs(
                entry_line(
                    (#[trigger] entries_of(*builder)[i]).0,
                    entries_of(*builder)[i].1,
                ),
                source@,
            ),
{
    builder.build().to_string()
}

/// Whether a word is plain.
pub fn is_plain(word: &str) -> (r: bool)
    ensures
        r == plain(word@),
{
    let mut r = true;
    for c in iter: word.chars()
        invariant
            iter.seq() == word@,
            r == (forall|i: int|
                0 <= i < iter.index() ==> code(#[trigger] word@[i]) < 128 && !is_ascii_upper(
                    word@[i],
                )),
    {
        if c > '\u{7f}' || (c >= 'A' && c <= 'Z') {
            r = false;
        }
    }
    r
}

/// Whether two different words of a dictionary are equal as case-insensitive
/// keys, so that no static map can hold both.
pub open spec fn clashing(words: Set<Seq<char>>) -> bool {
    exists|a: Seq<char>, b: Seq<char>|
        words.contains(a) && words.contains(b) && a != b && !#[trigger] apart(a, b)
}

/// Whether the word at place `i` stands apart from every other word of the
/// dictionary, either way round.
fn stands_apart(dictionary: &Dictionary, i: usize) -> (r: bool)
    requires
        i < sorted_list(dictionary@.words.dom()).len(),
    ensures
        r == (forall|j: int|
            0 <= j < sorted_list(dictionary@.words.dom()).len() && j != i ==> !folds_alike(
                sorted_list(dictionary@.words.dom())[i as int],
                #[trigger] sorted_list(dictionary@.words.dom())[j],
            ) && !folds_alike(
                sorted_list(dictionary@.words.dom())[j],
                sorted_list(dictionary@.words.dom())[i as int],
            )),
{
    let count = dictionary.word_count();
    let word = dictionary.word(i);
    let ghost words = sorted_list(dictionary@.words.dom());
    let mut j: usize = 0;
    while j < count
        invariant
            j <= count,
            i < count,
            count == words.len(),
            words == sorted_list(dictionary@.words.dom()),
            word@ == words[i as int],
            forall|k: int|
                0 <= k < j && k != i ==> !folds_alike(words[i as int], #[trigger] words[k])
                    && !folds_alike(words[k], words[i as int]),
        decreases count - j,
    {
        if j != i {
            let other = dictionary.word(j);
            if same_key(word.as_str(), other.as_str()) || same_key(other.as_str(), word.as_str()) {
                proof {
                    assert(folds_alike(words[i as int], words[j as int]) || folds_alike(
                        words[j as int],
                        words[i as int],
                    ));
                }
                return false;
            }
        }
        j = j + 1;
    }
    true
}

/// The source of the static map of a dictionary: among other lines, one for
/// each word, with its value. There is none where two words of the dictionary
/// are equal as case-insensitive keys.
pub fn map_source(dictionary: &Dictionary) -> (r: Option<String>)
    ensures
        r is Some <==> !clashing(dictionary@.words.dom()),
        r matches Some(text) ==> forall|w: Seq<char>|
            dictionary@.words.contains_key(w) ==> occurs(
                #[trigger] entry_line(w, value_text(dictionary@, w)),
                text@,
            ),
{
    let count = dictionary.word_count();
    let ghost d = dictionary@;
    let ghost words = sorted_list(d.words.dom());
    proof {
        lemma_sorted_no_duplicates(words);
    }
    let mut i: usize = 0;
    while i < count
        invariant
            i <= count,
            d == dictionary@,
            words == sorted_list(d.words.dom()),
            count == words.len(),
            words.to_set() == d.words.dom(),
            words.no_duplicates(),
            forall|a: int, b: int|
                0 <= a < i && 0 <= b < count && a != b && !plain(words[a]) ==> !folds_alike(
                    #[trigger] words[a],
                    #[trigger] words[b],
                ) && !folds_alike(words[b], words[a]),
        decreases count - i,
    {
        if !is_plain(dictionary.word(i).as_str()) {
            if !stands_apart(dictionary, i) {
                proof {
                    let j = choose|j: int|
                        0 <= j < count && j != i && !(!folds_alike(
                            words[i as int],
                            #[trigger] words[j],
                        ) && !folds_alike(words[j], words[i as int]));
                    let a = words[i as int];
                    let b = words[j];
                    assert(words.contains(a) && words.contains(b));
                    assert(words.to_set().contains(a) && words.to_set().contains(b));
                    assert(a != b);
                    assert(!apart(a, b) || !apart(b, a));
                }
                return None;
            }
        }
        i = i + 1;
    }
    proof {
        assert forall|a: int, b: int| 0 <= a < count && 0 <= b < count && a != b implies apart(
            #[trigger] words[a],
            #[trigger] words[b],
        ) by {
            if !plain(words[a]) {
                assert(!folds_alike(words[a], words[b]));
            } else if !plain(words[b]) {
                assert(!folds_alike(words[b], words[a]) && !folds_alike(words[a], words[b]));
            }
        }
        if clashing(d.words.dom()) {
            let (x, y) = choose|x: Seq<char>, y: Seq<char>|
                d.words.dom().contains(x) && d.words.dom().contains(y) && x != y
                    && !#[trigger] apart(x, y);
            assert(words.to_set().contains(x) && words.to_set().contains(y));
            let a = choose|a: int| 0 <= a < words.len() && words[a] == x;
            let b = choose|b: int| 0 <= b < words.len() && words[b] == y;
            assert(apart(words[a], words[b]));
        }
    }
    let mut builder = builder_new();
    let mut i: usize = 0;
    while i < count
        invariant
            i <= count,
            d == dictionary@,
            words == sorted_list(d.words.dom()),
            count == words.len(),
            entries_of(builder).len() == i,
            forall|k: int| 0 <= k < i ==> (#[trigger] entries_of(builder)[k]) == (
                words[k],
                value_text(d, words[k]),
            ),
        decreases count - i,
    {
        let key = caseless(dictionary.word(i).as_str());
        let value = value_source(dictionary, i);
        builder_entry(&mut builder, key, value.as_str());
        i = i + 1;
    }
    proof {
        assert forall|a: int, b: int|
            0 <= a < entries_of(builder).len() && 0 <= b < entries_of(builder).len() && a
                != b implies apart(
            (#[trigger] entries_of(builder)[a]).0,
            (#[trigger] entries_of(builder)[b]).0,
        ) by {
            assert(apart(words[a], words[b]));
        }
    }
    let text = builder_build(&builder);
    proof {
        assert forall|w: Seq<char>| d.words.contains_key(w) implies occurs(
            #[trigger] entry_line(w, value_text(d, w)),
            text@,
        ) by {
            assert(words.to_set().contains(w));
            let k = choose|k: int| 0 <= k < words.len() && words[k] == w;
            assert(entries_of(builder)[k] == (words[k], value_text(d, words[k])));
        }
    }
    Some(text)
}

/// The dictionary as source text, for the package that writes the file: the
/// file around the source of its static map. There is none where two words
/// of the dictionary are equal as case-insensitive keys.
pub fn source(dictionary: &Dictionary, package: &str) -> (r: Option<String>)
    ensures
        r is Some <==> !clashing(dictionary@.words.dom()),
        r matches Some(text) ==> exists|map: Seq<char>|
            text@ == #[trigger] variations_text(dictionary@, package@, map) && forall|
                w: Seq<char>,
            |
                dictionary@.words.contains_key(w) ==> occurs(
                    #[trigger] entry_line(w, value_text(dictionary@, w)),
                    map,
                ),
{
    match map_source(dictionary) {
        Some(map) => {
            let text = variations_source(dictionary, package, map.as_str());
            proof {
                assert(text@ == variations_text(dictionary@, package@, map@));
            }
            Some(text)
        },
        None => None,
    }
}

} // verus!
