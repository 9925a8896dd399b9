//! Digests of file contents under the supported algorithms.

use crate::decimal::{decimal, decimal_concat, to_decimal, to_decimal_concat};
use crate::error::CompareError;
use crate::generator::ChecksumGenerator;
use vstd::prelude::*;

verus! {

/// A file of a tree together with the digest of its content.
#[derive(Clone, Debug, PartialEq, Eq)]
pub struct FileDigest {
    pub path: String,
    pub digest: String,
}

/// What a `FileDigest` stands for in contracts.
pub struct FileDigestView {
    pub path: Seq<char>,
    pub digest: Seq<char>,
}

impl View for FileDigest {
    type V = FileDigestView;

    open spec fn view(&self) -> FileDigestView {
        FileDigestView { path: self.path@, digest: self.digest@ }
    }
}

/// The views of a sequence of files, position by position.
pub open spec fn views(files: Seq<FileDigest>) -> Seq<FileDigestView> {
    Seq::new(files.len(), |i: int| files[i]@)
}

/// The CRC-32 (IEEE) checksum of `data`, as the `crc32fast` crate computes it.
pub uninterp spec fn crc32_of(data: Seq<u8>) -> u32;

/// The SHA-256 digest of `data` in the hexadecimal notation of the `sha256`
/// crate.
pub uninterp spec fn sha256_hex_of(data: Seq<u8>) -> Seq<char>;

/// The Adler-32 checksum of `data`, as the `adler32` crate computes it.
pub uninterp spec fn adler32_of(data: Seq<u8>) -> u32;

/// The sixteen bytes of the MD5 digest of `data`, as the `md5` crate computes
/// them.
pub uninterp spec fn md5_of(data: Seq<u8>) -> Seq<u8>;

/// Calls `crc32fast::hash`. Trusted: the checksum depends on the bytes of the
/// slice alone, so it is the value that `crc32_of` names for them.
#[verifier::external_body]
fn crc32_hash(data: &[u8]) -> (sum: u32)
    ensures
        sum == crc32_of(data@),
{
    crc32fast::hash(data)
}

/// Calls `sha256::digest` on a byte slice. Trusted: the text returned depends
/// on the bytes of the slice alone, so it is the value that `sha256_hex_of`
/// names for them.
#[verifier::external_body]
fn sha256_hex(data: &[u8]) -> (hex: String)
    ensures
        hex@ == sha256_hex_of(data@),
{
    sha256::digest(data)
}

/// Feeds the whole slice to `adler32::RollingAdler32::from_buffer` and reads
/// the checksum off with `hash`. Trusted: the checksum depends on the bytes of
/// the slice alone, so it is the value that `adler32_of` names for them.
#[verifier::external_body]
fn adler32_hash(data: &[u8]) -> (sum: u32)
    ensures
        sum == adler32_of(data@),
{
    adler32::RollingAdler32::from_buffer(data).hash()
}

/// Calls `md5::compute` and takes the sixteen bytes out of the digest.
/// Trusted: the bytes depend on the bytes of the slice alone, so they are the
/// value that `md5_of` names for them.
#[verifier::external_body]
fn md5_bytes(data: &[u8]) -> (bytes: [u8; 16])
    ensures
        bytes@ == md5_of(data@),
{
    md5::compute(data).0
}

/// The digest text of `data` under `generator`.
///
/// The two 32-bit checksums are written in decimal, SHA-256 in hexadecimal,
/// and MD5 as the decimal notations of its sixteen bytes run together.
pub open spec fn digest_of(generator: ChecksumGenerator, data: Seq<u8>) -> Seq<char> {
    match generator {
        ChecksumGenerator::CRC32 => decimal(crc32_of(data) as nat),
        ChecksumGenerator::Sha256 => sha256_hex_of(data),
        ChecksumGenerator::Adler32 => decimal(adler32_of(data) as nat),
        ChecksumGenerator::MD5 => decimal_concat(md5_of(data)),
    }
}

/// The CRC-32 digest of a file's bytes.
pub fn create_checksum_crc32(data: &[u8]) -> (digest: String)
    ensures
        digest@ == digest_of(ChecksumGenerator::CRC32, data@),
{
    to_decimal(crc32_hash(data))
}

/// The SHA-256 digest of a file's bytes.
pub fn create_checksum_sha256(data: &[u8]) -> (digest: String)
    ensures
        digest@ == digest_of(ChecksumGenerator::Sha256, data@),
{
    sha256_hex(data)
}

/// The Adler-32 digest of a file's bytes.
pub fn create_checksum_adler32(data: &[u8]) -> (digest: String)
    ensures
        digest@ == digest_of(ChecksumGenerator::Adler32, data@),
{
    to_decimal(adler32_hash(data))
}

/// The MD5 digest of a file's bytes.
pub fn create_checksum_md5(data: &[u8]) -> (digest: String)
    ensures
        digest@ == digest_of(ChecksumGenerator::MD5, data@),
{
    let bytes = md5_bytes(data);
    to_decimal_concat(bytes.as_slice())
}

/// Selects the digest function of an algorithm.
///
/// The function returned accepts every byte slice, and what it returns is
/// fixed by the algorithm and the bytes alone: equal contents always get
/// equal digests.
pub fn get_checksum_function(generator: &ChecksumGenerator) -> (check_fn: impl Fn(&[u8]) -> String)
    ensures
        forall|data: &[u8]| call_requires(check_fn, (data,)),
        forall|data: &[u8], digest: String|
            call_ensures(check_fn, (data,), digest) ==> digest@ == digest_of(*generator, data@),
{
    let chosen = *generator;
    move |data: &[u8]| -> (digest: String)
        ensures
            digest@ == digest_of(chosen, data@),
        {
            match chosen {
                ChecksumGenerator::CRC32 => create_checksum_crc32(data),
                ChecksumGenerator::Sha256 => create_checksum_sha256(data),
                ChecksumGenerator::Adler32 => create_checksum_adler32(data),
                ChecksumGenerator::MD5 => create_checksum_md5(data),
            }
        }
}

/// Gives a file its digest, given what reading the file gave: its bytes, or
/// `None` where it could not be opened or read to its end.
///
/// A file that could not be read fails the run with the path of the file.
pub fn digest_file(path: String, content: Option<Vec<u8>>, generator: &ChecksumGenerator) -> (result:
    Result<FileDigest, CompareError>)
    ensures
        match content {
            Some(data) => result matches Ok(file) && file.path == path && file.digest@
                == digest_of(*generator, data@),
            None => result matches Err(error) && error is Hashing && error.spec_path() == path@,
        },
{
    match content {
        Some(data) => {
            let check_fn = get_checksum_function(generator);
            let digest = check_fn(data.as_slice());
            Ok(FileDigest { path, digest })
        },
        None => Err(CompareError::Hashing { path }),
    }
}

/// Computes one digest per file content, in the order of the input: the
/// digest at each position belongs to the content at that position.
pub fn create_checksums(files: &Vec<Vec<u8>>, generator: &ChecksumGenerator) -> (digests: Vec<
    String,
>)
    ensures
        digests.len() == files.len(),
        forall|i: int|
            0 <= i < files.len() ==> (#[trigger] digests[i])@ == digest_of(*generator, files[i]@),
{
    let check_fn = get_checksum_function(generator);
    let mut digests: Vec<String> = Vec::new();
    let mut i: usize = 0;
    while i < files.len()
        invariant
            i <= files.len(),
            digests.len() == i,
            forall|data: &[u8]| call_requires(check_fn, (data,)),
            forall|data: &[u8], digest: String|
                call_ensures(check_fn, (data,), digest) ==> digest@ == digest_of(
                    *generator,
                    data@,
                ),
            forall|k: int|
                0 <= k < i ==> (#[trigger] digests[k])@ == digest_of(*generator, files[k]@),
        decreases files.len() - i,
    {
        let digest = check_fn(files[i].as_slice());
        digests.push(digest);
        i = i + 1;
    }
    digests
}

} // verus!
