pub mod collect;
pub mod compilation_error;
pub mod compiler;
pub mod e;
pub mod evaluation_laws;
pub mod exact_size_chars;
pub mod external_functions;
pub mod func_arg;
pub mod g;
pub mod grammar;
pub mod int_embedding;
pub mod int_queue;
pub mod int_seq;
pub mod language;
pub mod learn;
pub mod lexer;
pub mod logger;
pub mod n;
pub mod p;
pub mod parser;
pub mod parser_state;
pub mod parser_utils;
pub mod pipeline;
pub mod pool;
pub mod ranged_evaluation;
pub mod ranged_graph;
pub mod ranged_optimisation;
pub mod ranged_serializers;
pub mod regular_operations;
pub mod repl;
pub mod repl_command;
pub mod seq;
pub mod solomonoff;
pub mod submatch;
pub mod syntax;
pub mod text;
pub mod utf8;
pub mod v;
