//! Storage-facing result types; the database itself lives outside the
//! library, which only decides what a stored result set's state is.

pub mod result_storage;
