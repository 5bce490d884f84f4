use vstd::prelude::*;

pub mod text;
pub mod parser;
pub mod target;
pub mod cli;
pub mod falz;
pub mod mapper;
pub mod jit;
