pub mod reader;
pub mod namespace_stack;
pub mod str_block;
pub mod constants;
pub mod parser;
pub mod parser_laws;
