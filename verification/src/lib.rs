//! A small dynamic scripting language implemented as a compile-to-bytecode
//! toolchain and a stack-based virtual machine with a tracing garbage
//! collector.
//!
//! The pipeline: a syntax tree ([`ast`]) is lowered to labelled instructions
//! and linked into a flat code vector ([`compiler`], [`opcode`]); the machine
//! ([`vm`]) executes it over a heap of collected objects ([`object`], [`gc`],
//! [`hashmap`]), calling back into registered natives ([`extension`],
//! [`basic`], [`render`]).

pub mod ast;
pub mod basic;
pub mod compiler;
pub mod extension;
pub mod gc;
pub mod global;
pub mod hashmap;
pub mod layout;
pub mod names;
pub mod object;
pub mod opcode;
pub mod render;
pub mod vm;
