use vstd::prelude::*;

pub mod arena;
pub mod array;
pub mod ast;
pub mod bytes;
pub mod decimal;
pub mod fs;
pub mod text;
pub mod types;
pub mod http;
pub mod intern;
pub mod json;
pub mod lexer;
pub mod math;
pub mod parser;
pub mod resolver;
pub mod simd;
pub mod stdlib;
pub mod string;


verus! {

} // verus!
