//! Gremlin: a typed, fixed-width integer IR with a reference interpreter,
//! a source syntax, corpora of observations, and a program search engine.
pub mod text;
pub mod types;
pub mod literal;
pub mod sig;
pub mod ir;
pub mod eval;
pub mod validate;
pub mod normalize;
pub mod run;
pub mod syntax;
pub mod builder;
pub mod source;
pub mod module;
pub mod module_eval;
pub mod rng;
pub mod digest;
pub mod fixtures;
pub mod corpus;
pub mod import;
pub mod binary;
pub mod comparator;
pub mod scoring;
pub mod search_config;
pub mod genome;
pub mod structural;
pub mod engine;
pub mod cuda;
pub mod formal;
pub mod lifter;
pub mod native;
pub mod elf;
pub mod codegen;
pub mod cli;
