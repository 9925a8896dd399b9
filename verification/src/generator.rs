//! The checksum algorithms a comparison can run with.

use vstd::prelude::*;

verus! {

/// The algorithm that turns a file's bytes into its digest.
#[derive(Clone, Copy, Debug, PartialEq, Eq, Structural)]
pub enum ChecksumGenerator {
    CRC32,
    Sha256,
    Adler32,
    MD5,
}

impl Default for ChecksumGenerator {
    /// The fast CRC-32 checksum is used unless another algorithm is chosen.
    fn default() -> (generator: ChecksumGenerator)
        ensures
            generator == ChecksumGenerator::CRC32,
    {
        ChecksumGenerator::CRC32
    }
}

/// The display name of each algorithm.
pub open spec fn generator_name(generator: ChecksumGenerator) -> Seq<char> {
    match generator {
        ChecksumGenerator::CRC32 => "CRC 32"@,
        ChecksumGenerator::Sha256 => "Sha256"@,
        ChecksumGenerator::Adler32 => "Adler 32"@,
        ChecksumGenerator::MD5 => "MD5"@,
    }
}

/// Returns the name under which an algorithm is shown to the user.
pub fn get_generator_name(generator: &ChecksumGenerator) -> (name: String)
    ensures
        name@ == generator_name(*generator),
{
    match generator {
        ChecksumGenerator::CRC32 => "CRC 32".to_owned(),
        ChecksumGenerator::Sha256 => "Sha256".to_owned(),
        ChecksumGenerator::Adler32 => "Adler 32".to_owned(),
        ChecksumGenerator::MD5 => "MD5".to_owned(),
    }
}

} // verus!
