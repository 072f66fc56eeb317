//! A compiler and interpreter for interaction nets.
//!
//! A module of rules and nets is checked for linearity and polarity, lowered
//! to a flat register-based IR, optimised, and then either rendered as C
//! source or reduced directly by a verified interpreter.

pub mod ast;
pub mod parser;
pub mod text;
pub mod check;
pub mod ir;
pub mod builder;
pub mod optimize;
pub mod options;
pub mod vm;
pub mod print;
pub mod target;
pub mod context;
