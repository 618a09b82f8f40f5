//! Compilation of Logica programs to SQL.

use vstd::prelude::*;
use crate::text::{concat2, concat4};

pub mod text;
pub mod json;
pub mod strmap;
pub mod dialects;
pub mod tables;
pub mod builtins;
pub mod expr_translate;
pub mod type_inference;
pub mod rule_translate;
pub mod rule_rewrite;
pub mod functors;
pub mod annotations;
pub mod concertina;
pub mod making;
pub mod rule_structure;

verus! {

/// The "home" schema name (where user predicates materialize).
pub fn home_schema() -> (r: &'static str)
    ensures
        r@ == home_schema_name(),
{
    "logica_home"
}

pub open spec fn home_schema_name() -> Seq<char> {
    "logica_home"@
}

/// The "test" schema name (in-memory schema for `@Ground` on SQLite).
pub fn test_schema() -> (r: &'static str)
    ensures
        r@ == test_schema_name(),
{
    "logica_test"
}

pub open spec fn test_schema_name() -> Seq<char> {
    "logica_test"@
}

/// Compilation error with source context.
#[derive(Debug)]
pub struct CompileError {
    pub message: String,
    pub rule_text: String,
}

impl CompileError {
    pub fn new(message: &str, rule_text: &str) -> (r: CompileError)
        ensures
            r.message@ == message@,
            r.rule_text@ == rule_text@,
    {
        CompileError { message: message.to_string(), rule_text: rule_text.to_string() }
    }

    /// The text shown to users: the message, preceded by the rule when there is one.
    pub fn show(&self) -> (r: String)
        ensures
            r@ == if self.rule_text@.len() == 0 {
                "Compile error: "@ + self.message@
            } else {
                "Compile error in rule: "@ + self.rule_text@ + "\n"@ + self.message@
            },
    {
        if self.rule_text.as_str().unicode_len() == 0 {
            concat2("Compile error: ", self.message.as_str())
        } else {
            concat4("Compile error in rule: ", self.rule_text.as_str(), "\n", self.message.as_str())
        }
    }
}

/// Result of a compilation step.
pub type CompileResult<T> = Result<T, CompileError>;

} // verus!
