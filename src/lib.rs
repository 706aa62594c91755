//! A traffic-filtering rule engine: a small rule language, the algebra that
//! combines the effects of matching rules, and the evaluation of a rule set
//! against one observed exchange.
pub mod datatypes;
pub mod pattern;
pub mod grammar;
pub mod parser;
pub mod engine;
