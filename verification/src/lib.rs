//! A tape machine for the eight brainfuck commands, together with the two
//! surface syntaxes that compile to them: the classical one-character-per-command
//! notation and the three-row mountain-range drawings of the bergen language.
//!
//! * [`brnfck`] holds the instruction set, the machine, the symbolic parser,
//!   both emitters and the synthesizer that turns bytes into a program
//!   printing them.
//! * [`parser`] reads mountain ranges.

pub mod brnfck;
pub mod parser;
