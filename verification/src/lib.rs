//! Favorites of a file manager: a set of paths kept in insertion order,
//! traversed in path order, with a traversal cycle that survives edits,
//! plus the decisions of the actions that use them.

pub mod action;
pub mod config;
pub mod cycle;
pub mod decimal;
pub mod favorite;
pub mod favorite_arrow;
pub mod favorites;
pub mod favorites_io;
pub mod files_op;
pub mod forms;
pub mod image;
pub mod index_set;
pub mod laws;
pub mod quarter;
pub mod seqs;
pub mod url;
pub mod normal;
