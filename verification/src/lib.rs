//! Heuristic dead-code detection for Swift/SwiftUI and Kotlin codebases.
//!
//! A text scanner, not a compiler: it strips comments and string literals,
//! counts every identifier of the corpus, then reports declarations whose
//! name occurs nowhere but at the declaration itself (or only in tests, or
//! only in strings and resource files). Findings are candidates to inspect,
//! never verdicts.
//!
//! The library computes; reading the directory tree and the files, and
//! writing the results, are left to the caller. `scan` takes the files a
//! walk found (see `walk` for which ones a walk keeps) with their text.

pub mod text;
pub mod lexer;
pub mod types;
pub mod lang;
pub mod paths;
pub mod scan;
pub mod walk;
pub mod cli;
pub mod html;
pub mod laws;

pub use lang::{CODE_EXTS, DYNAMIC_ATTRS, NOISE, RESOURCE_EXTS, SKIP_DIRS, Patterns, language_for_ext};
pub use lexer::{split_code_and_strings, tally, utf8_len};
pub use paths::{is_test_file, is_test_path, relative_to};
pub use scan::{SourceFile, collect_conformance_names, language_of_path, scan};
pub use types::{Bucket, Finding, Language, ScanError, ScanOptions, ScanReport};
pub use vstd::hash_map::StringHashMap;
pub use vstd::hash_set::StringHashSet;
