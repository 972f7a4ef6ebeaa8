//! What a search is run with: the query, the file to read, and whether letter
//! case counts.

use vstd::prelude::*;
use vstd::string::*;

verus! {

/// The settings of one search.
#[derive(Debug)]
pub struct Config {
    /// The text to look for.
    pub query: String,
    /// The path of the file to look in.
    pub filename: String,
    /// Whether a capital letter differs from its small letter.
    pub case_sensitive: bool,
}

/// A `Config` as plain values.
pub struct ConfigModel {
    pub query: Seq<char>,
    pub filename: Seq<char>,
    pub case_sensitive: bool,
}

impl View for Config {
    type V = ConfigModel;

    open spec fn view(&self) -> ConfigModel {
        ConfigModel {
            query: self.query@,
            filename: self.filename@,
            case_sensitive: self.case_sensitive,
        }
    }
}

/// The message of the error for too few arguments.
pub open spec fn too_few_arguments() -> Seq<char> {
    "not enough arguments"@
}

impl Config {
    /// Builds the settings from the arguments of the program: the program's
    /// own name, then the query, then the file. `ignore_case` says whether the
    /// caller found the switch for case-insensitive search set.
    ///
    /// Fewer than three arguments are an error; arguments after the third are
    /// ignored. Nothing else is checked.
    pub fn new(args: &[String], ignore_case: bool) -> (made: Result<Config, &'static str>)
        ensures
            made is Err <==> args@.len() < 3,
            made matches Err(message) ==> message@ == too_few_arguments(),
            made matches Ok(config) ==> config@ == (ConfigModel {
                query: args@[1]@,
                filename: args@[2]@,
                case_sensitive: !ignore_case,
            }),
    {
        if args.len() < 3 {
            return Err("not enough arguments");
        }
        let query = args[1].clone();
        let filename = args[2].clone();
        Ok(Config { query, filename, case_sensitive: !ignore_case })
    }
}

} // verus!
