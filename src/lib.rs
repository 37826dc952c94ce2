//! A small line-driven record store: records, their text forms, a store with
//! sorting and queries, and the classifier and step logic of its interpreter.

pub mod text;
pub mod date;
pub mod profile;
pub mod db;
pub mod action;
pub mod session;
