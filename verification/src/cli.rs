use vstd::prelude::*;

verus! {

/// Why a set of command-line values was refused.
#[derive(Debug, Clone, Copy, PartialEq, Eq, Structural)]
pub enum CliError {
    /// The pattern to search for was empty.
    InvalidPattern,
}

impl CliError {
    /// The message that reports this error.
    pub fn message(&self) -> (msg: String)
        ensures
            msg@ == "Invalid pattern."@,
    {
        match self {
            CliError::InvalidPattern => String::from_str("Invalid pattern."),
        }
    }
}

/// What the command line holds, as plain sequences of characters.
pub struct CliArgsView {
    pub path: Seq<char>,
    pub pattern: Seq<char>,
    pub version: Seq<char>,
}

/// The validated command-line options: the file to search, the pattern to
/// search for (never empty) and the program's version.
#[derive(Debug, PartialEq)]
pub struct CliArgs {
    path: String,
    pattern: String,
    version: String,
}

impl View for CliArgs {
    type V = CliArgsView;

    closed spec fn view(&self) -> CliArgsView {
        CliArgsView { path: self.path@, pattern: self.pattern@, version: self.version@ }
    }
}

impl CliArgs {
    #[verifier::type_invariant]
    closed spec fn well_formed(self) -> bool {
        self.pattern@.len() > 0
    }

    /// Builds the options from the values the command line gave for the path
    /// and the pattern, with the program's version; an empty pattern is refused.
    pub fn new_from(path: &str, pattern: &str, version: &str) -> (res: Result<CliArgs, CliError>)
        ensures
            pattern@.len() == 0 <==> res == Err::<CliArgs, CliError>(CliError::InvalidPattern),
            res is Ok ==> res->Ok_0@ == (CliArgsView {
                path: path@,
                pattern: pattern@,
                version: version@,
            }),
    {
        if pattern.is_empty() {
            return Err(CliError::InvalidPattern);
        }
        Ok(
            CliArgs {
                path: String::from_str(path),
                pattern: String::from_str(pattern),
                version: String::from_str(version),
            },
        )
    }

    /// The path of the file to search.
    pub fn path(&self) -> (path: &str)
        ensures
            path@ == self@.path,
    {
        self.path.as_str()
    }

    /// The pattern to search for; it is never empty.
    pub fn pattern(&self) -> (pattern: &str)
        ensures
            pattern@ == self@.pattern,
            pattern@.len() > 0,
    {
        proof {
            use_type_invariant(self);
        }
        self.pattern.as_str()
    }

    /// The program's version.
    pub fn version(&self) -> (version: &str)
        ensures
            version@ == self@.version,
    {
        self.version.as_str()
    }
}

} // verus!
