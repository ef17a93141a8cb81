//! Dice-notation expression language: a parser from text to expression
//! trees and an evaluator that rolls the dice and applies modifiers.

pub mod eval;
pub mod parser;
