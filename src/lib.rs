//! Term statistics for text classification: a stable vocabulary, per-document and
//! corpus-wide term counts, per-class roll-ups, and the exact ratios behind TF and IDF.

pub mod corpus;
pub mod lemmas;
pub mod normalize;
pub mod preprocess;
pub mod serialize;
pub mod table;
