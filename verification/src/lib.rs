pub mod text;
pub mod decimal;
pub mod pattern;
pub mod statics;
pub mod replacer;
pub mod names;
pub mod scopes;
pub mod laws;
pub mod method_bindings;
pub mod logger;
pub mod tokenize;
pub mod preprocess;
pub mod colors;
pub mod parser;
