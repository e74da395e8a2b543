//! A stack-machine backend for a small Pascal-family language: a fixed
//! instruction set with a 32-bit word encoding, a code generator that
//! relocates data and function bodies and resolves labels to addresses,
//! and a virtual machine that decodes and executes the word stream.

pub mod ast;
pub mod codegen;
pub mod ir;
pub mod vm;
