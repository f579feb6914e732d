//! Sender statistics for mailbox exports.
//!
//! A mailbox export is a directory tree of `eml` files. This crate decides
//! which entries of such a tree hold messages, finds the sender of a
//! message among its header fields, counts how often each sender occurs
//! and lays out the report of the counts.
//!
//! - [`header`]: header fields, the sender classifier and the sender
//!   extractor.
//! - [`table`]: the aggregate count table.
//! - [`message`]: parsing one message and counting its sender.
//! - [`scan`]: counting a run of messages, and the laws of the outcome.
//! - [`tree`]: directory entries, their routing, and the walk of a tree.
//! - [`report`]: the rows of the report.
//! - [`text`]: string equality and decimal numerals.
//!
//! Reading directories and files and writing the report are left to the
//! caller: the crate works on names, bytes and rows.

pub mod header;
pub mod message;
pub mod report;
pub mod scan;
pub mod table;
pub mod text;
pub mod tree;
