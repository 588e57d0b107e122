use vstd::prelude::*;

pub mod animation;
pub mod ast;
pub mod interpreter;
pub mod lexer;
pub mod messages;
pub mod parser;
pub mod printing;
pub mod renderer;
pub mod spelling;
pub mod text;

verus! {

} // verus!
