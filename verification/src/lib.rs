//! Conversion of a line-oriented record format into typed rows.
//!
//! A source text holds records of the form
//!
//! ```text
//! Record: 12
//! P01: 321
//! P02: "sample text"
//! %
//! ```
//!
//! The scanner cuts the text into chunks, one per record, the lexer turns a
//! chunk into tokens, the parser builds a typed record from them, and the
//! writer lays records out as rows of two tables and failures as messages.
use vstd::prelude::*;
pub use crate::pipeline::convert;

pub mod decimal;
pub mod lexer;
pub mod model;
pub mod parser;
pub mod persistence;
pub mod pipeline;
pub mod source_reader;
pub mod text;

verus! {

/// The four paths that a run works on.
#[derive(Debug, PartialEq, Eq)]
pub struct Config {
    pub source_path: String,
    pub numbers_path: String,
    pub strings_path: String,
    pub errors_path: String,
}

/// What a [`Config`] stands for.
pub struct ConfigView {
    pub source_path: Seq<char>,
    pub numbers_path: Seq<char>,
    pub strings_path: Seq<char>,
    pub errors_path: Seq<char>,
}

impl View for Config {
    type V = ConfigView;

    open spec fn view(&self) -> ConfigView {
        ConfigView {
            source_path: self.source_path@,
            numbers_path: self.numbers_path@,
            strings_path: self.strings_path@,
            errors_path: self.errors_path@,
        }
    }
}

/// The complaint about an argument list of `n` entries, the name of the
/// program counted, where `n` is not five: the first path that is missing,
/// or that there are too many.
pub open spec fn complaint(n: nat) -> Seq<char> {
    if n <= 1 {
        "Didn't get a source path"@
    } else if n == 2 {
        "Didn't get a numbers destination path"@
    } else if n == 3 {
        "Didn't get a strings destination path"@
    } else if n == 4 {
        "Didn't get an error file path"@
    } else {
        "Too many arguments"@
    }
}

impl Config {
    /// Reads the four paths from an argument list. Its first entry, the name
    /// of the program, is passed over; the four that follow are the source,
    /// the table of numbers, the table of texts and the log of errors, in
    /// this order. Any other number of entries is refused.
    pub fn build(args: Vec<String>) -> (r: Result<Config, &'static str>)
        ensures
            match r {
                Ok(cfg) => args@.len() == 5 && cfg@ == (ConfigView {
                    source_path: args@[1]@,
                    numbers_path: args@[2]@,
                    strings_path: args@[3]@,
                    errors_path: args@[4]@,
                }),
                Err(text) => args@.len() != 5 && text@ == complaint(args@.len()),
            },
    {
        let n = args.len();
        if n <= 1 {
            Err("Didn't get a source path")
        } else if n == 2 {
            Err("Didn't get a numbers destination path")
        } else if n == 3 {
            Err("Didn't get a strings destination path")
        } else if n == 4 {
            Err("Didn't get an error file path")
        } else if n > 5 {
            Err("Too many arguments")
        } else {
            Ok(
                Config {
                    source_path: args[1].clone(),
                    numbers_path: args[2].clone(),
                    strings_path: args[3].clone(),
                    errors_path: args[4].clone(),
                },
            )
        }
    }
}

} // verus!
