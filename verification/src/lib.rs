//! An incremental, in-memory inverted index over a corpus of text documents,
//! with term-frequency / inverse-document-frequency (TF-IDF) score inputs.
//!
//! The index keeps, per document, a table of term occurrence counts, and,
//! corpus-wide, a document-frequency table (term -> number of documents that
//! contain the term).  The two tables are kept consistent under arbitrary
//! sequences of additions and removals, which is the invariant this crate
//! proves.

mod index;
mod state;
mod term_table;

pub use index::Doc;
pub use index::Model;
pub use index::ScoreInput;
pub use index::score_input_matches;

pub use state::DocView;
pub use state::ModelView;
pub use state::add_transition;
pub use state::counts_of;
pub use state::df_consistent;
pub use state::df_minus;
pub use state::df_plus;
pub use state::doc_view_of;
pub use state::docs_with;
pub use state::has_term_pred;
pub use state::lemma_add_idempotent;
pub use state::lemma_add_keeps_df_consistent;
pub use state::lemma_add_remove_round_trip;
pub use state::lemma_insert_keeps_df_consistent;
pub use state::lemma_ndocs_le;
pub use state::lemma_remove_keeps_df_consistent;
pub use state::ndocs_with;
pub use state::occ;
pub use state::remove_transition;
pub use state::views_of;
