//! Sūtra: the verified core of a term-rewriting language in the spirit of
//! Pāṇini's Aṣṭādhyāyī — exact integers, the lexer and the parser,
//! bilingual names, the abstract syntax and its printer, the formatter, the
//! native builtins, saṃjñā membership, the static checker, pattern matching
//! and substitution, sequence rewriting (क्रम) with element classes (गण) and
//! the śivasūtra pratyāhāras, the call-by-need rewrite engine, the decisions
//! of the effect runtime, and the reading of interactive input.

pub mod limbs;
pub mod magnitude;
pub mod text;
pub mod decimal;
pub mod bigint;
pub mod names;
pub mod ast;
pub mod pretty;
pub mod samjna;
pub mod lexer;
pub mod builtins;
pub mod check;
pub mod parser;
pub mod repl;
pub mod stdlib;
pub mod rewrite;
pub mod sivasutra;
pub mod krama;
pub mod engine;
pub mod effect;
pub mod fmt;
