//! A fill-in-the-blank quiz core: a parser for one-line question definitions
//! and a grader that checks a learner's answers against a parsed question.
use vstd::prelude::*;

pub mod grade;
pub mod laws;
pub mod parser;
pub mod question;
pub mod render;
pub mod text;

pub use parser::{ParseResult, Parser};
pub use question::{Answer, Question};

verus! {

} // verus!
