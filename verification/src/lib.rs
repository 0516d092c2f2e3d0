//! A line-oriented data-definition language: plain-text files declare typed
//! objects and cross-object references, with three reference-resolution
//! policies (strict, lazy, ignore), line-based macro rewriting,
//! indentation-implied parent/child relationships, and recursive file imports.

mod ast;
mod database;
mod dot;
mod error;
mod lexer;
mod macros;
mod parser;
mod text;

pub use ast::{Object, ObjectId, ObjectIdModel, ObjectModel, RefModel, Reference, Type, TypeFlavor,
    TypeModel};
pub use database::{
    lemma_auto_idents_distinct, lemma_auto_insert_accepted, lemma_lazy_refs_resolved,
    lemma_resolution_drops_ignored, lemma_resolution_idempotent, lemma_strict_objects_not_created,
    lemma_strict_refs_decided, lemma_undeclared_type_detected, Database, DatabaseModel,
    PassOutcome,
};
pub use dot::{generate_dot, sanitize_id};
pub use error::{Error, ErrorModel};
pub use lexer::{tokenize_line, Token, TokenModel};
pub use macros::{Macro, MacroSystem, RenderSystem};
pub use parser::{lemma_empty_input, lemma_parse_objects_wf, parse_string, parse_with_files,
    ParseOutcome, SourceFile};
