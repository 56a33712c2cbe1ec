use vstd::prelude::*;

verus! {

/// A run's settings: what to look for, which file to scan, and whether
/// letter case matters while matching.
pub struct Config {
    pub query: String,
    pub filename: String,
    pub case_sensitive: bool,
}

/// Why configuration resolution failed.
#[derive(Debug)]
pub enum ConfigError {
    /// A required positional argument was absent; carries the name of the
    /// missing argument.
    MissingArgument(&'static str),
}

impl Config {
    /// Resolves a configuration from the raw argument list (the program name
    /// first, as handed to the process) and from whether the case-insensitivity
    /// toggle is present in the environment.
    ///
    /// The first argument after the program name becomes the query, the second
    /// the file name; anything after those is ignored. Matching is
    /// case-sensitive exactly when the toggle is absent.
    pub fn new(args: &Vec<String>, case_insensitive_set: bool) -> (result: Result<Config, ConfigError>)
        ensures
            args@.len() >= 3 ==> (result matches Ok(c)
                && c.query@ == args@[1]@
                && c.filename@ == args@[2]@
                && c.case_sensitive == !case_insensitive_set),
            args@.len() < 2 ==> (result matches Err(e)
                && e matches ConfigError::MissingArgument(which)
                && which@ == "query string"@),
            args@.len() == 2 ==> (result matches Err(e)
                && e matches ConfigError::MissingArgument(which)
                && which@ == "file name"@),
    {
        if args.len() < 2 {
            return Err(ConfigError::MissingArgument("query string"));
        }
        if args.len() < 3 {
            return Err(ConfigError::MissingArgument("file name"));
        }
        let query = args[1].clone();
        let filename = args[2].clone();
        Ok(Config { query, filename, case_sensitive: !case_insensitive_set })
    }
}

} // verus!
