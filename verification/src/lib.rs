//! A dictionary of regional spelling variants.
//!
//! A corpus lists, entry by entry, the spellings of one word and the regional
//! categories that each spelling belongs to. The compiler turns the corpus
//! into a dictionary: for each spelling that some category rejects, the
//! categories in which it is valid and the spellings that the others expect.
//! The engine answers, for a word and a category, which spellings that
//! category expects, in the case of the word asked for.
//!
//! - [`category`], [`corpus`]: the data of a corpus.
//! - [`intake`]: which entries of a corpus are taken, and under which names.
//! - [`sets`], [`corrections`]: the categories and the corrections of a
//!   spelling.
//! - [`compile`]: the compiler.
//! - [`dictionary`]: the compiled dictionary and the correction engine.
//! - [`scan`]: the identifiers of a file checked against a dictionary.
//! - [`render`], [`staticmap`]: the dictionary written out as source text.
//! - [`laws`]: what holds of compiler and engine for every input.
//! - [`text`], [`words`], [`wordmap`]: strings, ascending word lists and maps
//!   keyed by words.

pub mod category;
pub mod compile;
pub mod corpus;
pub mod corrections;
pub mod dictionary;
pub mod intake;
pub mod laws;
pub mod render;
pub mod scan;
pub mod sets;
pub mod staticmap;
pub mod text;
pub mod wordmap;
pub mod words;
