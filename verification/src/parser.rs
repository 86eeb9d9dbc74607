pub mod ast;
pub mod grammar;
pub mod lexer;
pub mod roundtrip;
pub mod sql;
