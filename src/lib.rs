//! Boolean-equation truth tables: lexer, parser, compiler, evaluator and
//! table renderer.
pub mod lexer;
pub mod parser;
pub mod compiler;
pub mod vm;
pub mod table;
