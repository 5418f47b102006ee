pub mod ast;
pub mod bitstring;
pub mod cells;
pub mod chars;
pub mod laws;
pub mod parser;

pub use crate::ast::ControlRegisterError;
pub use crate::ast::Instr;
pub use crate::ast::InstrArg;
pub use crate::ast::InstrArgValue;
pub use crate::ast::Natural;
pub use crate::ast::ParserError;
pub use crate::ast::SliceError;
pub use crate::ast::Span;
pub use crate::ast::StackRegisterError;
pub use crate::parser::parse;
