//! The command-line configuration: what to search for, where, and how.

use vstd::prelude::*;
use crate::search::{search, search_ignore_case, search_ignore_case_spec, search_spec, texts};

verus! {

/// What one run of the tool searches for, in which file, and whether case
/// is ignored.
#[derive(Debug, PartialEq, Eq)]
pub struct Config {
    pub query: String,
    pub filename: String,
    pub ignore_case: bool,
}

/// Why the command-line tokens do not make a configuration.
#[derive(Debug, Clone, Copy, PartialEq, Eq, Structural)]
pub enum ParseError {
    /// No token after the program name.
    MissingQuery,
    /// No token after the query.
    MissingFilename,
}

/// The tokens that ask for a case-insensitive search.
pub open spec fn is_ignore_case_flag(t: Seq<char>) -> bool {
    t == "-I"@ || t == "--ignore-case"@
}

/// Some token from position `from` on asks for a case-insensitive search.
pub open spec fn has_ignore_case_flag(args: Seq<String>, from: int, to: int) -> bool {
    exists|i: int| from <= i < to && is_ignore_case_flag(#[trigger] args[i]@)
}

impl ParseError {
    /// The text shown to the user for this error.
    pub fn message(&self) -> (r: &'static str)
        ensures
            *self == ParseError::MissingQuery ==> r@ == "No query string"@,
            *self == ParseError::MissingFilename ==> r@ == "No filename string"@,
    {
        match self {
            ParseError::MissingQuery => "No query string",
            ParseError::MissingFilename => "No filename string",
        }
    }
}

impl Config {
    /// Builds the configuration from the command-line tokens: the first is the
    /// program's name and is skipped, the second is the query, the third the
    /// file name; `-I` or `--ignore-case` among the rest turns case folding on,
    /// and any other token is ignored.
    pub fn new(args: Vec<String>) -> (r: Result<Config, ParseError>)
        ensures
            match r {
                Ok(cfg) => {
                    &&& args.len() >= 3
                    &&& cfg.query@ == args@[1]@
                    &&& cfg.filename@ == args@[2]@
                    &&& cfg.ignore_case == has_ignore_case_flag(args@, 3, args.len() as int)
                },
                Err(e) => {
                    ||| e == ParseError::MissingQuery && args.len() < 2
                    ||| e == ParseError::MissingFilename && args.len() == 2
                },
            },
    {
        if args.len() < 2 {
            return Err(ParseError::MissingQuery);
        }
        if args.len() < 3 {
            return Err(ParseError::MissingFilename);
        }
        let query = args[1].clone();
        let filename = args[2].clone();
        let short = "-I".to_owned();
        let long = "--ignore-case".to_owned();
        let mut ignore_case = false;
        let mut i: usize = 3;
        while i < args.len() && !ignore_case
            invariant
                3 <= i <= args.len(),
                short@ == "-I"@,
                long@ == "--ignore-case"@,
                ignore_case == has_ignore_case_flag(args@, 3, i as int),
            decreases args.len() - i,
        {
            if args[i] == short || args[i] == long {
                ignore_case = true;
            }
            proof {
                if !ignore_case {
                    assert forall|j: int| 3 <= j < i + 1 implies !is_ignore_case_flag(
                        #[trigger] args@[j]@,
                    ) by {
                        if j < i {
                            assert(!has_ignore_case_flag(args@, 3, i as int));
                        }
                    }
                } else {
                    assert(has_ignore_case_flag(args@, 3, i as int) || is_ignore_case_flag(
                        args@[i as int]@,
                    ));
                }
            }
            i = i + 1;
        }
        proof {
            if ignore_case {
                let j = choose|j: int| 3 <= j < i && is_ignore_case_flag(#[trigger] args@[j]@);
                assert(has_ignore_case_flag(args@, 3, args.len() as int));
            }
        }
        Ok(Config { query, filename, ignore_case })
    }
}

/// The lines of `content` that the configuration asks for: those containing
/// the query, with case folded when the configuration says so.
pub fn matching_lines<'a>(config: &Config, content: &'a str) -> (r: Vec<&'a str>)
    ensures
        texts(r@) == if config.ignore_case {
            search_ignore_case_spec(config.query@, content@)
        } else {
            search_spec(config.query@, content@)
        },
{
    if config.ignore_case {
        search_ignore_case(config.query.as_str(), content)
    } else {
        search(config.query.as_str(), content)
    }
}

} // verus!
