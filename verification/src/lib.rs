pub mod parser;
pub mod tokenizer;
pub mod typer;
