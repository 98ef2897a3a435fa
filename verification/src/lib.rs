//! A small in-memory key-value server library: a line-protocol codec for
//! simple strings, bulk strings and arrays, a time-expiring key-value store,
//! and the command interpreter that ties the two together.
pub mod command;
pub mod db;
pub mod laws;
pub mod num;
pub mod resp;
