//! CFMC skip-logic expressions: the expression tree, its parser and its
//! canonical text form.

pub mod tree;
pub mod grammar;
pub mod parser;
pub mod matching;


pub use tree::{CfmcLogic, CfmcNode, CfmcOperator, CfmcTree};
