//! Xyn front end: lexer, Pratt parser, scope arena and type inference,
//! with a small tree-walking evaluator.

pub mod ast;
pub mod diagnostic;
pub mod interner;
pub mod lexer;
pub mod parser;
pub mod runtime;
pub mod scope;
pub mod sema_scope;
pub mod semantic;
pub mod token;
pub mod types;

pub use ast::{Mutability, OpKind, Statement, Value, Variable, VariableDescriptor};
pub use diagnostic::{Diagnostic, DiagnosticBuilder, DiagnosticView, Severity, XynError};
pub use interner::{Interner, StringId};
pub use lexer::{Lexer, LexerError};
pub use parser::{Parser, ParserError};
pub use runtime::{Interpreter, RuntimeScope, RuntimeValue, RuntimeVariable};
pub use scope::{Scope, ScopeArena, ScopeId, ScopeType};
pub use sema_scope::{SemanticBound, SemanticScope};
pub use semantic::{Semantic, SemanticError};
pub use token::{Token, TokenLocation, TokenTag, Tokens};
pub use types::Type;
