//! Turning command-line arguments into a search configuration, and running
//! the search that a configuration describes.

use vstd::prelude::*;
use vstd::string::StringSliceAdditionalSpecFns;
use vstd::utf8::encode_utf8;
use crate::search::{bytes_of_each, lines_of, matching_lines, search, search_case_insensitive};

verus! {

/// A positional argument that the resolver needs.
#[derive(Debug, Clone, Copy, PartialEq, Eq, Structural)]
pub enum Argument {
    Query,
    Filename,
}

/// Why arguments could not be turned into a configuration.
#[derive(Debug, Clone, Copy, PartialEq, Eq, Structural)]
pub enum ConfigError {
    MissingArgument(Argument),
}

impl ConfigError {
    /// A sentence describing the error, for the user.
    pub fn message(&self) -> (r: &'static str)
        ensures
            *self == ConfigError::MissingArgument(Argument::Query) ==> r@
                == "Didn't get a query string"@,
            *self == ConfigError::MissingArgument(Argument::Filename) ==> r@
                == "Didn't get a file name"@,
    {
        match self {
            ConfigError::MissingArgument(Argument::Query) => "Didn't get a query string",
            ConfigError::MissingArgument(Argument::Filename) => "Didn't get a file name",
        }
    }
}

/// What to search for, where, and whether letter case matters.
#[derive(Debug)]
pub struct Config {
    pub query: String,
    pub filename: String,
    pub case_sensitive: bool,
}

/// Whether the search is case-sensitive: an explicit third argument decides
/// (`"0"` turns case sensitivity off, anything else turns it on); without one,
/// the search ignores case exactly when the `CASE_INSENSITIVE` variable is set.
pub open spec fn case_sensitive_for(args: Seq<String>, case_insensitive_set: bool) -> bool {
    if args.len() > 2 {
        args[2]@ != seq!['0']
    } else {
        !case_insensitive_set
    }
}

impl Config {
    /// Resolves `args` (query, file name, and an optional case flag; the
    /// program name is not among them) into a configuration.
    /// `case_insensitive_var` is the value of the `CASE_INSENSITIVE`
    /// environment variable, `None` when it is unset.
    pub fn new(args: &Vec<String>, case_insensitive_var: Option<&str>) -> (r: Result<
        Config,
        ConfigError,
    >)
        ensures
            args@.len() == 0 ==> r == Err::<Config, ConfigError>(
                ConfigError::MissingArgument(Argument::Query),
            ),
            args@.len() == 1 ==> r == Err::<Config, ConfigError>(
                ConfigError::MissingArgument(Argument::Filename),
            ),
            args@.len() >= 2 ==> r is Ok,
            r is Ok ==> r->Ok_0.query@ == args@[0]@,
            r is Ok ==> r->Ok_0.filename@ == args@[1]@,
            r is Ok ==> r->Ok_0.case_sensitive == case_sensitive_for(
                args@,
                case_insensitive_var is Some,
            ),
    {
        if args.len() == 0 {
            return Err(ConfigError::MissingArgument(Argument::Query));
        }
        if args.len() == 1 {
            return Err(ConfigError::MissingArgument(Argument::Filename));
        }
        let query = args[0].clone();
        let filename = args[1].clone();
        let case_sensitive = if args.len() > 2 {
            let off = "0".to_owned();
            proof {
                reveal_strlit("0");
            }
            assert(off@ == seq!['0']);
            let same = args[2] == off;
            assert(same == (args@[2]@ == seq!['0']));
            !same
        } else {
            case_insensitive_var.is_none()
        };
        Ok(Config { query, filename, case_sensitive })
    }
}

/// The lines of `contents` that `config` selects: its query, searched with
/// or without regard to case as `config.case_sensitive` says.
pub fn find_matches<'a>(config: &Config, contents: &'a str) -> (r: Vec<&'a str>)
    ensures
        bytes_of_each(r@) == matching_lines(
            contents.spec_bytes(),
            encode_utf8(config.query@),
            config.case_sensitive,
        ),
        config.query@.len() == 0 ==> bytes_of_each(r@) == lines_of(contents.spec_bytes()),
{
    if config.case_sensitive {
        search(config.query.as_str(), contents)
    } else {
        search_case_insensitive(config.query.as_str(), contents)
    }
}

} // verus!
