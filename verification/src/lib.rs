//! Parsing of the output of the `jj` command-line tool: the ` // `-separated
//! records of `jj diff` and `jj file list`, the file changes they describe, and the
//! name of the current head shown by `jj log`.

pub mod bytes_split;
pub mod diff_base;
pub mod file_change;
pub mod head_name;

