//! A markdown-document preprocessor engine. A document may hold directive
//! lines that name a shell command to run or a file to embed; immediately
//! after each directive the engine keeps one delimited generated block with
//! the directive's latest output. The modules here recognize the directive
//! and block grammar, strip stale blocks, rebuild fresh ones from captured
//! output, and report line diffs when a regenerated document drifts from the
//! original. Running the commands and reading the files is the caller's part:
//! the engine takes the captured bytes and is verified on every value of
//! them.
pub mod clean;
pub mod frozen;
pub mod grammar;
pub mod laws;
pub mod regen;
pub mod text;
