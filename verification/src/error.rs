//! The ways in which a comparison can fail. Every failure ends the run.

use vstd::prelude::*;
use vstd::string::StringExecFns;

verus! {

/// Why a comparison stopped, with the path at which it stopped.
#[derive(Clone, Debug, PartialEq, Eq)]
pub enum CompareError {
    /// A root folder does not exist or is not a directory.
    Configuration { path: String },
    /// A directory could not be listed, or the type of one of its entries
    /// could not be determined.
    Traversal { path: String },
    /// A file could not be opened or read to its end.
    Hashing { path: String },
}

impl CompareError {
    /// The path that the error is about.
    pub open spec fn spec_path(&self) -> Seq<char> {
        match self {
            CompareError::Configuration { path } => path@,
            CompareError::Traversal { path } => path@,
            CompareError::Hashing { path } => path@,
        }
    }

    /// The words with which the message of each kind of error begins.
    pub open spec fn spec_prefix(&self) -> Seq<char> {
        match self {
            CompareError::Configuration { .. } => "not a directory: "@,
            CompareError::Traversal { .. } => "cannot list directory: "@,
            CompareError::Hashing { .. } => "cannot read file: "@,
        }
    }

    /// The path that the error is about.
    pub fn path(&self) -> (path: &String)
        ensures
            path@ == self.spec_path(),
    {
        match self {
            CompareError::Configuration { path } => path,
            CompareError::Traversal { path } => path,
            CompareError::Hashing { path } => path,
        }
    }

    /// The message to show for the error: what went wrong, then the path.
    pub fn message(&self) -> (text: String)
        ensures
            text@ == self.spec_prefix() + self.spec_path(),
    {
        match self {
            CompareError::Configuration { path } => "not a directory: ".to_owned().concat(
                path.as_str(),
            ),
            CompareError::Traversal { path } => "cannot list directory: ".to_owned().concat(
                path.as_str(),
            ),
            CompareError::Hashing { path } => "cannot read file: ".to_owned().concat(
                path.as_str(),
            ),
        }
    }
}

/// The exit status of a run: zero where the comparison was made, whether or
/// not any file is missing, and one where it failed.
pub fn exit_status(outcome: &Result<Vec<String>, CompareError>) -> (status: i32)
    ensures
        outcome is Ok ==> status == 0,
        outcome is Err ==> status == 1,
{
    match outcome {
        Ok(_) => 0,
        Err(_) => 1,
    }
}

} // verus!
