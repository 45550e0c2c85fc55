//! A small version control system: content-addressed objects, branches, a
//! head, and the commands that record and restore the files of a workspace.
pub mod error;
pub mod oid;
pub mod codec;
pub mod objects;
pub mod head;
pub mod database;
pub mod table;
pub mod repository;
pub mod workspace;
pub mod revision;
pub mod dirtree;
pub mod commands;
pub mod graph;
pub mod graph_old;
pub mod history;
