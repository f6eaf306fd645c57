//! A binary Naive Bayes text classifier: vocabulary building, sparse
//! presence features, a smoothed conditional probability table, and the
//! position-by-position walk that inference and the dense dump share.
pub mod text;
pub mod order;
pub mod vocab;
pub mod dataset;
pub mod table;
pub mod walk;
pub mod model;

pub use dataset::{encode, read_dataset, Dataset, FormatError, Row};
pub use table::{rows_fit, CondProbTable, Prob, ProbError};
pub use text::prepare_word;
pub use model::train;
pub use vocab::{read_vocab, Vocabulary};
pub use walk::{dense_line, from_dense, header_line, to_dense, PresenceWalk};
