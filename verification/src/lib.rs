//! A tokenizer, parser and resumable evaluator for a small keyword-driven
//! scripting language, together with the mood-driven gate that may interrupt
//! an evaluation with a question.

pub mod text;
pub mod lexer;
pub mod ast;
pub mod grammar;
pub mod parser;
pub mod printer;
pub mod table;
pub mod humanoid;
pub mod semantics;
pub mod interpreter;
