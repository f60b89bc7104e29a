//! The resolved configuration the scanner is handed: the query, the file
//! path, and the two mode flags. Reading the process arguments and the
//! environment toggles is the caller's business; this module only checks
//! and packages the resolved values.

use vstd::prelude::*;

verus! {

/// One invocation's settings: what to search for, where, and how.
#[derive(Debug)]
pub struct Config {
    pub query: String,
    pub file_path: String,
    pub case_insensitive: bool,
    pub invert_search: bool,
}

impl Config {
    /// A configuration from the positional arguments (program name, query,
    /// file path) and the two already-resolved flag toggles. Fewer than
    /// three arguments are rejected.
    pub fn build(args: &[String], case_insensitive: bool, invert_search: bool) -> (r: Result<
        Config,
        &'static str,
    >)
        ensures
            args@.len() < 3 ==> (r matches Err(e) && e@ == "Invalid Number Of Arguments."@),
            args@.len() >= 3 ==> (r matches Ok(c) && c.query@ == args@[1]@ && c.file_path@
                == args@[2]@ && c.case_insensitive == case_insensitive && c.invert_search
                == invert_search),
    {
        if args.len() < 3 {
            return Err("Invalid Number Of Arguments.");
        }

        let config = Config {
            query: args[1].clone(),
            file_path: args[2].clone(),
            case_insensitive,
            invert_search,
        };

        Ok(config)
    }
}

} // verus!
