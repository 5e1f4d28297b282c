//! The logic of a language server for Laplace, a preprocessor that compiles
//! `.laplace` files to Stan: what the identifiers of a file stand for, what
//! can be completed, which diagnostics to show and where.
//!
//! Texts are addressed by byte offset, as the compiler addresses them, and
//! stand in contracts as the bytes of their UTF-8 encoding. What the compiler
//! says of a file (which bytes are code, which functions it defines, which
//! packages it calls) comes in as plain values; functions that rely on such a
//! value fitting the text say so in `requires`, and there are functions that
//! test it (`CodeMask::from_parts`, `calls_are_usable`, `run_is_usable` and
//! the like).
//!
//! - `text`, `sort`, `versions`: bytes, offsets, a stable sort and the order of
//!   versioned names.
//! - `mask`, `blocks`, `declarations`, `builtins`, `analysis`, `tokens`: the
//!   symbol tables of a file, and a token for every identifier it uses.
//! - `position`: positions as editors count them, and the wire format of
//!   semantic tokens.
//! - `dialect`, `workspace`: the two kinds of source file, and the packages
//!   that a project has installed.
//! - `diagnostics`, `library`, `stanc`: what is wrong with a file, as the
//!   compiler and Stan's own compiler see it.
//! - `completion`, `session`: what an editor asks for, and when.

pub mod analysis;
pub mod blocks;
pub mod builtins;
pub mod completion;
pub mod declarations;
pub mod diagnostics;
pub mod dialect;
pub mod library;
pub mod mask;
pub mod position;
pub mod session;
pub mod sort;
pub mod stanc;
pub mod text;
pub mod tokens;
pub mod versions;
pub mod workspace;
