pub mod keywords;
pub mod tokens;
pub mod strings;
pub mod phones;
pub mod sub_string;
pub mod ir;
pub mod token_checker;
pub mod rules;
pub mod lexer;
pub mod tokenizer;
pub mod matcher;
pub mod applier;
pub mod runtime;
pub mod display;
pub mod grammar;
