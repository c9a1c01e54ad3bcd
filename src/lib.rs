//! Blocking websites through the hosts file: a line classifier, an
//! in-memory hosts document with its mutations, and the decisions of the
//! command-line front end.
pub mod cli;
pub mod command;
pub mod hosts;
pub mod laws;
pub mod line;
pub mod text;
