//! What a comparison is run with.

use crate::error::CompareError;
use crate::generator::ChecksumGenerator;
use vstd::prelude::*;

verus! {

/// The depth budget of a walk where none is given.
pub const DEFAULT_MAX_DEPTH: i16 = 1000;

/// The parameters of a comparison.
#[derive(Clone, Debug)]
pub struct Args {
    /// The root of the tree whose files are looked for.
    pub old_folder: String,
    /// The root of the tree in which they are looked for.
    pub new_folder: String,
    /// How many levels below each root the walk goes.
    pub max_depth: i16,
    /// The checksum algorithm.
    pub generator: ChecksumGenerator,
}

impl Args {
    /// The parameters for comparing two folders with the default depth
    /// budget and the default algorithm.
    pub fn new(old_folder: String, new_folder: String) -> (args: Args)
        ensures
            args.old_folder == old_folder,
            args.new_folder == new_folder,
            args.max_depth == DEFAULT_MAX_DEPTH,
            args.generator == ChecksumGenerator::CRC32,
    {
        Args {
            old_folder,
            new_folder,
            max_depth: DEFAULT_MAX_DEPTH,
            generator: ChecksumGenerator::CRC32,
        }
    }

    /// Checks the two roots before any walk begins, given for each whether it
    /// exists and is a directory.
    ///
    /// The comparison may start only if both are. Otherwise the error names
    /// the root that is not, the old one where neither is.
    pub fn check_roots(&self, old_is_directory: bool, new_is_directory: bool) -> (result: Result<
        (),
        CompareError,
    >)
        ensures
            result is Ok <==> old_is_directory && new_is_directory,
            result matches Err(error) ==> error is Configuration && error.spec_path() == (
            if !old_is_directory {
                self.old_folder@
            } else {
                self.new_folder@
            }),
    {
        if !old_is_directory {
            Err(CompareError::Configuration { path: self.old_folder.clone() })
        } else if !new_is_directory {
            Err(CompareError::Configuration { path: self.new_folder.clone() })
        } else {
            Ok(())
        }
    }
}

} // verus!
