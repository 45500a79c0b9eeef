//! Source line counting: language detection, line classification, report
//! aggregation and report comparison.
//!
//! A file is counted in three steps. The [`detector`] resolves its path to a
//! [`language`] definition, the [`classifier`] decides for each line whether
//! it is logical, a comment or empty, and the [`counter`] adds the lines up.
//! The counts of many files make a [`report`], which holds their
//! aggregation per language ([`aggregate`]) and can carry a content
//! [`checksum`]. Two reports can be told apart by [`compare`], and
//! [`output`] renders reports and comparisons as XML and CSV; [`import`]
//! reads the file table of a report back from its CSV records.
//!
//! Texts are modelled as sequences of characters ([`text`]) and ordered by
//! their UTF-8 bytes ([`order`]), paths by their components ([`path`]);
//! every function states what it returns over these models.

pub mod aggregate;
pub mod builtin;
pub mod checksum;
pub mod classifier;
pub mod cli;
pub mod compare;
pub mod config;
pub mod counter;
pub mod detector;
pub mod error;
pub mod import;
pub mod language;
pub mod order;
pub mod output;
pub mod path;
pub mod report;
pub mod sorting;
pub mod stats;
pub mod text;
