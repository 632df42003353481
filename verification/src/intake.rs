//! Taking the corpus in: which entries are accepted, how their spellings are
//! normalised, and the name under which each entry is kept.

use crate::category::{Category, Tag, Type};
use crate::corpus::{entry_models, Entry, Variant, VariantModel};
use crate::text::{code, is_ascii_lower, is_ascii_upper, lower, to_lower, to_upper, upper};
use crate::wordmap::WordMap;
use vstd::prelude::*;

verus! {

/// Whether Unicode counts a character as alphabetic, as the standard
/// library's `char::is_alphabetic` tells.
pub uninterp spec fn alphabetic(c: char) -> bool;

/// `char::is_alphabetic` of the standard library tells whether a character
/// has the Unicode property `Alphabetic`. The answer is a function of the
/// character alone; it is named here and not spelled out.
#[verifier::external_body]
fn is_alphabetic(c: char) -> (r: bool)
    ensures
        r == alphabetic(c),
{
    c.is_alphabetic()
}

/// A letter: an ASCII letter, or a character beyond ASCII that Unicode counts
/// as alphabetic.
pub open spec fn is_letter(c: char) -> bool {
    is_ascii_upper(c) || is_ascii_lower(c) || (code(c) >= 128 && alphabetic(c))
}

/// Whether a character is a letter, given whether Unicode counts it as
/// alphabetic.
pub fn letter(c: char, alphabetic: bool) -> (r: bool)
    ensures
        r == (is_ascii_upper(c) || is_ascii_lower(c) || (code(c) >= 128 && alphabetic)),
{
    (c >= 'A' && c <= 'Z') || (c >= 'a' && c <= 'z') || (c > '\u{7f}' && alphabetic)
}

/// A spelling is a single well-formed word when it is not empty, holds
/// nothing but letters, and is written in one case: no ASCII capital behind
/// the first letter, or no ASCII small letter at all. So a spelling with a
/// space, a digit, a hyphen, an apostrophe or any other mark, of ASCII or
/// beyond, is none.
pub open spec fn is_word(w: Seq<char>) -> bool {
    &&& w.len() > 0
    &&& forall|i: int| 0 <= i < w.len() ==> is_letter(#[trigger] w[i])
    &&& ((forall|i: int| 0 < i < w.len() ==> !is_ascii_upper(#[trigger] w[i])) || (forall|i: int|
        0 <= i < w.len() ==> !is_ascii_lower(#[trigger] w[i])))
}

/// An entry is accepted when it has a spelling and each of its spellings is a
/// single well-formed word.
pub open spec fn accepted(entry: Seq<VariantModel>) -> bool {
    entry.len() > 0 && forall|j: int| 0 <= j < entry.len() ==> is_word((#[trigger] entry[j]).word)
}

/// An entry with every spelling in ASCII lowercase.
pub open spec fn normalized(entry: Seq<VariantModel>) -> Seq<VariantModel> {
    Seq::new(
        entry.len(),
        |j: int| VariantModel { word: lower(entry[j].word), types: entry[j].types },
    )
}

/// Whether a spelling is a single well-formed word.
pub fn is_single_word(word: &str) -> (r: bool)
    ensures
        r == is_word(word@),
{
    let mut any = false;
    let mut letters = true;
    let mut capital_behind = false;
    let mut small = false;
    for c in iter: word.chars()
        invariant
            iter.seq() == word@,
            any == (iter.index() > 0),
            letters == (forall|i: int| 0 <= i < iter.index() ==> is_letter(#[trigger] word@[i])),
            capital_behind == (exists|i: int|
                0 < i < iter.index() && is_ascii_upper(#[trigger] word@[i])),
            small == (exists|i: int| 0 <= i < iter.index() && is_ascii_lower(#[trigger] word@[i])),
    {
        let is_upper = c >= 'A' && c <= 'Z';
        let is_lower = c >= 'a' && c <= 'z';
        if !letter(c, c > '\u{7f}' && is_alphabetic(c)) {
            letters = false;
        }
        if is_upper && any {
            capital_behind = true;
        }
        if is_lower {
            small = true;
        }
        any = true;
    }
    any && letters && (!capital_behind || !small)
}

/// A copy of the associations of a spelling.
pub fn copy_types(types: &Vec<Type>) -> (r: Vec<Type>)
    ensures
        r@ == types@,
{
    let mut out: Vec<Type> = Vec::new();
    let mut k: usize = 0;
    while k < types.len()
        invariant
            k <= types.len(),
            out@ == types@.take(k as int),
        decreases types.len() - k,
    {
        out.push(types[k]);
        proof {
            assert(types@.take(k + 1) =~= types@.take(k as int).push(types@[k as int]));
        }
        k = k + 1;
    }
    proof {
        assert(types@.take(k as int) =~= types@);
    }
    out
}

/// The entry with every spelling in ASCII lowercase.
pub fn normalize(entry: &Entry) -> (r: Entry)
    ensures
        r@ == normalized(entry@),
{
    let mut variants: Vec<Variant> = Vec::new();
    let mut j: usize = 0;
    while j < entry.variants.len()
        invariant
            j <= entry.variants.len(),
            variants.len() == j,
            forall|i: int| 0 <= i < j ==> (#[trigger] variants@[i])@ == normalized(entry@)[i],
        decreases entry.variants.len() - j,
    {
        let variant = &entry.variants[j];
        variants.push(
            Variant { types: copy_types(&variant.types), word: to_lower(variant.word.as_str()) },
        );
        j = j + 1;
    }
    let r = Entry { variants };
    proof {
        assert(r@ =~= normalized(entry@));
    }
    r
}

/// Whether an entry is accepted.
pub fn is_accepted(entry: &Entry) -> (r: bool)
    ensures
        r == accepted(entry@),
{
    if entry.variants.len() == 0 {
        return false;
    }
    let mut j: usize = 0;
    while j < entry.variants.len()
        invariant
            j <= entry.variants.len(),
            forall|i: int| 0 <= i < j ==> is_word((#[trigger] entry@[i]).word),
        decreases entry.variants.len() - j,
    {
        if !is_single_word(entry.variants[j].word.as_str()) {
            proof {
                assert(!is_word(entry@[j as int].word));
            }
            return false;
        }
        j = j + 1;
    }
    true
}

/// The start of a content hash.
pub const HASH_START: u64 = 0xcbf2_9ce4_8422_2325;

/// The factor of a content hash.
pub const HASH_FACTOR: u64 = 0x0000_0100_0000_01b3;

/// One step of the content hash: the value joins by exclusive or, then the
/// hash is multiplied, keeping its low 64 bits.
pub open spec fn mix(h: u64, x: u64) -> u64 {
    (h ^ x).wrapping_mul(HASH_FACTOR)
}

/// The number that stands for a category in the content hash.
pub open spec fn category_code(c: Category) -> u64 {
    match c {
        Category::American => 1,
        Category::BritishIse => 2,
        Category::BritishIze => 3,
        Category::Canadian => 4,
        Category::Australian => 5,
        Category::Other => 6,
    }
}

/// The number that stands for a tag, or for none, in the content hash.
pub open spec fn tag_code(tag: Option<Tag>) -> u64 {
    match tag {
        None => 0,
        Some(Tag::Eq) => 1,
        Some(Tag::Variant) => 2,
        Some(Tag::Seldom) => 3,
        Some(Tag::Possible) => 4,
        Some(Tag::Improper) => 5,
    }
}

/// The hash after the characters of a word.
pub open spec fn hash_word(h: u64, w: Seq<char>) -> u64
    decreases w.len(),
{
    if w.len() == 0 {
        h
    } else {
        mix(hash_word(h, w.drop_last()), w.last() as u32 as u64)
    }
}

/// The hash after the associations of a spelling: category and tag of each.
pub open spec fn hash_types(h: u64, types: Seq<Type>) -> u64
    decreases types.len(),
{
    if types.len() == 0 {
        h
    } else {
        mix(
            mix(hash_types(h, types.drop_last()), category_code(types.last().category)),
            tag_code(types.last().tag),
        )
    }
}

/// The hash after a spelling: its word, a mark, its associations, a mark.
pub open spec fn hash_variant(h: u64, v: VariantModel) -> u64 {
    mix(hash_types(mix(hash_word(h, v.word), 0xff), v.types), 0xfe)
}

/// The hash after the spellings of an entry.
pub open spec fn hash_variants(h: u64, entry: Seq<VariantModel>) -> u64
    decreases entry.len(),
{
    if entry.len() == 0 {
        h
    } else {
        hash_variant(hash_variants(h, entry.drop_last()), entry.last())
    }
}

/// The content hash of an entry: a function of its spellings and their
/// associations alone.
pub open spec fn content_hash(entry: Seq<VariantModel>) -> u64 {
    hash_variants(HASH_START, entry)
}

/// One step of the content hash.
fn step(h: u64, x: u64) -> (r: u64)
    ensures
        r == mix(h, x),
{
    (h ^ x).wrapping_mul(HASH_FACTOR)
}

/// The hash after the characters of a word.
fn word_hash(h: u64, word: &str) -> (r: u64)
    ensures
        r == hash_word(h, word@),
{
    let mut r = h;
    for c in iter: word.chars()
        invariant
            iter.seq() == word@,
            r == hash_word(h, word@.take(iter.index())),
    {
        proof {
            let n = iter.index();
            assert(word@.take(n + 1).drop_last() =~= word@.take(n));
        }
        r = step(r, c as u32 as u64);
    }
    proof {
        assert(word@.take(word@.len() as int) =~= word@);
    }
    r
}

/// The hash after the associations of a spelling.
fn types_hash(h: u64, types: &Vec<Type>) -> (r: u64)
    ensures
        r == hash_types(h, types@),
{
    let mut r = h;
    let mut k: usize = 0;
    while k < types.len()
        invariant
            k <= types.len(),
            r == hash_types(h, types@.take(k as int)),
        decreases types.len() - k,
    {
        let t = types[k];
        let category: u64 = match t.category {
            Category::American => 1,
            Category::BritishIse => 2,
            Category::BritishIze => 3,
            Category::Canadian => 4,
            Category::Australian => 5,
            Category::Other => 6,
        };
        let tag: u64 = match t.tag {
            None => 0,
            Some(Tag::Eq) => 1,
            Some(Tag::Variant) => 2,
            Some(Tag::Seldom) => 3,
            Some(Tag::Possible) => 4,
            Some(Tag::Improper) => 5,
        };
        proof {
            assert(types@.take(k + 1).drop_last() =~= types@.take(k as int));
        }
        r = step(step(r, category), tag);
        k = k + 1;
    }
    proof {
        assert(types@.take(k as int) =~= types@);
    }
    r
}

/// The content hash of an entry.
pub fn entry_hash(entry: &Entry) -> (r: u64)
    ensures
        r == content_hash(entry@),
{
    let mut r = HASH_START;
    let mut j: usize = 0;
    while j < entry.variants.len()
        invariant
            j <= entry.variants.len(),
            r == hash_variants(HASH_START, entry@.take(j as int)),
        decreases entry.variants.len() - j,
    {
        let variant = &entry.variants[j];
        proof {
            assert(entry@.take(j + 1).drop_last() =~= entry@.take(j as int));
            assert(entry@.take(j + 1).last() == variant@);
        }
        r = step(types_hash(step(word_hash(r, variant.word.as_str()), 0xff), &variant.types), 0xfe);
        j = j + 1;
    }
    proof {
        assert(entry@.take(j as int) =~= entry@);
    }
    r
}

/// The character of a decimal digit.
pub open spec fn digit(d: int) -> char {
    ((48 + d) as u8) as char
}

/// A number in decimal digits.
pub open spec fn decimal(n: nat) -> Seq<char>
    decreases n,
{
    if n < 10 {
        seq![digit(n as int)]
    } else {
        decimal(n / 10).push(digit((n % 10) as int))
    }
}

/// A sequence back to front.
pub open spec fn backwards(s: Seq<char>) -> Seq<char> {
    Seq::new(s.len(), |i: int| s[s.len() - 1 - i])
}

/// A number written in decimal digits.
pub fn decimal_string(n: u64) -> (r: String)
    ensures
        r@ == decimal(n as nat),
{
    let mut digits: Vec<char> = Vec::new();
    let mut m = n;
    if m == 0 {
        digits.push('0');
        proof {
            assert(backwards(digits@) =~= decimal(0));
        }
    }
    while m > 0
        invariant
            m > 0 ==> decimal(n as nat) == decimal(m as nat) + backwards(digits@),
            m == 0 ==> decimal(n as nat) == backwards(digits@),
        decreases m,
    {
        let d: u8 = (m % 10) as u8;
        let c = (48 + d) as char;
        let ghost before = digits@;
        let ghost was = m;
        digits.push(c);
        m = m / 10;
        proof {
            assert(c == digit((was % 10) as int));
            assert(backwards(digits@) =~= seq![c] + backwards(before));
            if m > 0 {
                assert(decimal(was as nat) == decimal(m as nat).push(c));
                assert(decimal(m as nat).push(c) + backwards(before) =~= decimal(m as nat)
                    + backwards(digits@));
            } else {
                assert(decimal(was as nat) == seq![c]);
            }
        }
    }
    let mut out = String::new();
    let mut i: usize = digits.len();
    while i > 0
        invariant
            i <= digits.len(),
            out@ == backwards(digits@).take(digits.len() - i),
        decreases i,
    {
        i = i - 1;
        out.push(digits[i]);
        proof {
            let k = digits.len() - 1 - i;
            assert(backwards(digits@).take(k + 1) =~= backwards(digits@).take(k).push(
                digits@[i as int],
            ));
        }
    }
    proof {
        assert(backwards(digits@).take(digits.len() as int) =~= backwards(digits@));
    }
    out
}

/// The name of an entry: `ENTRY_`, its first spelling in capitals, `_`, and
/// its content hash in decimal digits.
pub open spec fn symbol_of(entry: Seq<VariantModel>) -> Seq<char> {
    "ENTRY_"@ + upper(entry[0].word) + "_"@ + decimal(content_hash(entry) as nat)
}

/// The name under which an entry is kept.
pub fn entry_symbol(entry: &Entry) -> (symbol: String)
    requires
        entry@.len() > 0,
    ensures
        symbol@ == symbol_of(entry@),
{
    let mut symbol = String::from_str("ENTRY_");
    let capitals = to_upper(entry.variants[0].word.as_str());
    symbol.append(capitals.as_str());
    symbol.append("_");
    let digits = decimal_string(entry_hash(entry));
    symbol.append(digits.as_str());
    symbol
}

/// The accepted entries of a corpus, normalised, each under its name; where
/// two have one name, the later one stays.
pub open spec fn collected(corpus: Seq<Seq<VariantModel>>) -> Map<Seq<char>, Seq<VariantModel>>
    decreases corpus.len(),
{
    if corpus.len() == 0 {
        Map::empty()
    } else {
        let before = collected(corpus.drop_last());
        if accepted(corpus.last()) {
            before.insert(symbol_of(normalized(corpus.last())), normalized(corpus.last()))
        } else {
            before
        }
    }
}

/// The entries that the compiler works on: those of the corpus that are
/// accepted, with their spellings in lowercase, kept under their names.
pub fn entries(corpus: &Vec<Entry>) -> (kept: WordMap<Entry>)
    ensures
        kept.wf(),
        forall|s: Seq<char>| kept.contains(s) <==> collected(entry_models(corpus@)).contains_key(s),
        forall|s: Seq<char>|
            kept.contains(s) ==> (#[trigger] kept.value_of(s))@ == collected(
                entry_models(corpus@),
            )[s],
{
    let ghost all = entry_models(corpus@);
    let mut kept: WordMap<Entry> = WordMap::new();
    let mut n: usize = 0;
    proof {
        assert(all.take(0) =~= Seq::<Seq<VariantModel>>::empty());
    }
    while n < corpus.len()
        invariant
            n <= corpus.len(),
            all == entry_models(corpus@),
            kept.wf(),
            forall|s: Seq<char>| #[trigger]
                kept@.dom().contains(s) <==> collected(all.take(n as int)).contains_key(s),
            forall|s: Seq<char>|
                kept@.dom().contains(s) ==> (#[trigger] kept@[s])@ == collected(
                    all.take(n as int),
                )[s],
        decreases corpus.len() - n,
    {
        let entry = &corpus[n];
        let ghost before = kept;
        proof {
            assert(all.take(n + 1).drop_last() =~= all.take(n as int));
            assert(all.take(n + 1).last() == entry@);
        }
        if is_accepted(entry) {
            let clean = normalize(entry);
            let symbol = entry_symbol(&clean);
            let ghost name = symbol@;
            match kept.find(symbol.as_str()) {
                Some(i) => {
                    let (next, _) = kept.replace(i, clean);
                    kept = next;
                },
                None => {
                    kept = kept.insert(symbol, clean);
                },
            }
            proof {
                assert(kept@.dom() =~= before@.dom().insert(name));
                assert(kept@[name]@ == normalized(entry@));
                assert forall|s: Seq<char>| kept@.dom().contains(s) implies (#[trigger] kept@[s])@
                    == collected(all.take(n + 1))[s] by {
                    if s != name {
                        assert(before@.dom().contains(s));
                        assert(kept@[s] == before@[s]);
                    }
                }
            }
        }
        n = n + 1;
    }
    proof {
        assert(all.take(n as int) =~= all);
        assert forall|s: Seq<char>| kept.contains(s) <==> collected(all).contains_key(s) by {
            assert(kept@.dom().contains(s) == kept.contains(s));
        }
        assert forall|s: Seq<char>| kept.contains(s) implies (#[trigger] kept.value_of(s))@
            == collected(all)[s] by {
            assert(kept@.dom().contains(s));
            assert(kept@[s] == kept.value_of(s));
        }
    }
    kept
}

} // verus!
