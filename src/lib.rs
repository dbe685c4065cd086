//! A fixed-capacity memoizing cache with least-recently-used eviction, and a
//! small infix arithmetic evaluator.
//!
//! The cache keeps a key index (a hash map from key to locator) beside a
//! recency list that owns the entries; the evaluator tokenizes an infix
//! expression, converts it to postfix with an operator stack, and evaluates
//! the postfix form with a value stack.

pub mod expr;
pub mod linked_list;
pub mod lru_cache;
pub mod tokenizer;
pub mod visitors;

pub use expr::{calc_postfix, infix_to_postfix, run, tokenize_infix, tokens_to_string};
pub use linked_list::LinkedList;
pub use lru_cache::LRUCache;
pub use tokenizer::{tokenize, Brace, ExprError, Lexeme, NumberToken, Operation, Token, TokenVisitor};
pub use visitors::{CalcVisitor, ParserVisitor, PrintVisitor};
