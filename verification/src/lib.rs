//! Incremental n-gram indexing and hierarchical queries over timestamped
//! text entries, with every function proved against its contract. Two
//! contracts are taken on trust: that of the lower-casing of a text, which
//! the standard library does, and that of the drawing of a table.
//!
//! Entries are written in containers that form a forest. Ingestion splits
//! the text of each entry into words, counts every run of one to five words
//! under the week, the sender and the container of the entry, and stores
//! the entry. A sweep counts the entries that were stored uncounted. Queries
//! rank the n-grams of a container and of all that lies below it, or follow
//! one n-gram over time.
//!
//! - [`processor`] holds the entries, the n-grams and the processor that
//!   ingests and queries.
//! - [`store`] holds the three tables and their statements.
//! - [`bot`] decides how the history of a channel is read, page by page.
//! - [`commands`], [`displayers`] and [`message_formatters`] hold what a
//!   command decides and how its answer is put.

pub mod bot;
pub mod commands;
pub mod displayers;
pub mod message_formatters;
pub mod processor;
pub mod store;
pub mod text;
