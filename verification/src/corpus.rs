//! The corpus: entries, each a group of spellings of one word, and each
//! spelling with the categories it belongs to.

use crate::category::Type;
use vstd::prelude::*;

verus! {

/// One spelling of an entry, with its associations.
#[derive(Clone, Debug, PartialEq, Eq)]
pub struct Variant {
    pub types: Vec<Type>,
    pub word: String,
}

/// The spellings of one word across the regions.
#[derive(Clone, Debug, PartialEq, Eq)]
pub struct Entry {
    pub variants: Vec<Variant>,
}

/// A spelling as a mathematical value.
pub struct VariantModel {
    pub word: Seq<char>,
    pub types: Seq<Type>,
}

impl View for Variant {
    type V = VariantModel;

    open spec fn view(&self) -> VariantModel {
        VariantModel { word: self.word@, types: self.types@ }
    }
}

impl View for Entry {
    type V = Seq<VariantModel>;

    open spec fn view(&self) -> Seq<VariantModel> {
        Seq::new(self.variants@.len(), |i: int| self.variants@[i]@)
    }
}

/// The entries of a vector as mathematical values, in its order.
pub open spec fn entry_models(entries: Seq<Entry>) -> Seq<Seq<VariantModel>> {
    Seq::new(entries.len(), |i: int| entries[i]@)
}

/// Whether an entry holds a spelling.
pub open spec fn has_word(entry: Seq<VariantModel>, w: Seq<char>) -> bool {
    exists|j: int| 0 <= j < entry.len() && #[trigger] entry[j].word == w
}

} // verus!
