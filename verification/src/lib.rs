//! steer: the control unit of agent-driven workflows.
pub mod ast;
pub mod context;
pub mod formatter;
pub mod ir;
pub mod lexer;
pub mod parser;
pub mod render;
pub mod simulate;
pub mod source;
pub mod template;
pub mod text;
pub mod validate;
pub mod value;
pub mod vm;
