use vstd::prelude::*;

verus! {

/// Why a list of arguments gives no configuration.
#[derive(Clone, Copy, Debug, PartialEq, Eq, Structural)]
pub enum ArgumentError {
    /// Fewer than a program name, a query and a file path were given.
    InsufficientArguments,
}

impl ArgumentError {
    /// The fixed text that describes the error.
    pub fn message(&self) -> (r: &'static str)
        ensures
            r@ == "Too few arguments provided."@,
    {
        match self {
            ArgumentError::InsufficientArguments => "Too few arguments provided.",
        }
    }
}

/// The parameters of one run: what to look for, where, and whether letter
/// case counts.
pub struct Config {
    pub query: String,
    pub file_path: String,
    pub ignore_case: bool,
}

impl Config {
    /// Builds the configuration from parsed arguments laid out as
    /// `[program, query, file path, ...]` and from the value of the
    /// case flag's environment variable, if it is set. Any value, the empty
    /// one included, turns case-insensitive matching on.
    pub fn build(parsed_args: &Vec<String>, ignore_case_var: &Option<String>) -> (r: Result<
        Config,
        ArgumentError,
    >)
        ensures
            r is Err <==> parsed_args.len() < 3,
            r is Err ==> r == Err::<Config, ArgumentError>(ArgumentError::InsufficientArguments),
            r is Ok ==> {
                let c = r->Ok_0;
                &&& c.query@ == parsed_args[1]@
                &&& c.file_path@ == parsed_args[2]@
                &&& c.ignore_case == ignore_case_var.is_some()
            },
    {
        if parsed_args.len() < 3 {
            return Err(ArgumentError::InsufficientArguments);
        }
        let query: String = parsed_args[1].clone();
        let file_path: String = parsed_args[2].clone();
        let ignore_case: bool = ignore_case_var.is_some();
        Ok(Config { query, file_path, ignore_case })
    }
}

} // verus!
