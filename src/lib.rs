//! An interpreter for a small language whose only data are named FIFO queues
//! of characters ("registers"). Program text is split into tokens, parsed into
//! labelled instructions, and run until a halting instruction.

pub mod text;
pub mod lexer;
pub mod parser;
pub mod registers;
pub mod vm;
pub mod pretty;
pub mod pipeline;

pub use lexer::{lex, Token};
pub use parser::{parse, Instruction, Line, Operation, ParseError};
pub use pipeline::{format_text, render_output, run_text, ProgramError};
pub use registers::Registers;
pub use vm::{run, run_bounded, JumpTable, RuntimeError};
pub mod round_trip;
