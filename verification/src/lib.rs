//! A small stack-based bytecode virtual machine: a growable buffer, the
//! bytecode chunk built on it with its disassembler, and the execution
//! engine. Beside it stand the scanner of the language that the machine is
//! meant for, and two exercises: a guessing game and a word finder.

/// Chunks of bytecode and their disassembly.
pub mod chunk;
/// The guessing game.
pub mod guessing;
/// The growable buffer.
pub mod list;
/// Instructions and values.
pub mod opcode;
/// The scanner.
pub mod scanner;
/// Text building blocks.
pub mod text;
/// The virtual machine.
pub mod vm;
/// The word finder.
pub mod words;
