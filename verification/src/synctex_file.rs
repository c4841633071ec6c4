//! SyncTeX files, plain or compressed by gzip.
use std::io::{Read, Write};
use vstd::prelude::*;
use vstd::string::*;
use crate::bytes::has_suffix;
use crate::native_path::{file_name, file_name_span};
use crate::os_text::{
    law_text_without_surrogates_is_kept, lossy, starts_with_surrogate, to_lossy,
};

verus! {

/// `std::io::Error`, which the readers and writers of flate2 return.
#[verifier::external_type_specification]
#[verifier::external_body]
pub struct ExIoError(std::io::Error);

/// What `flate2::read::GzDecoder` reads from a gzip file: the data of its first
/// member; nothing where that is damaged or ends too early.
pub uninterp spec fn gunzipped(data: Seq<u8>) -> Option<Seq<u8>>;

/// What `flate2::write::GzEncoder` writes for some data at the default level of
/// compression, where it does not fail.
pub uninterp spec fn gzipped(data: Seq<u8>) -> Option<Seq<u8>>;

/// Reads a gzip file to its end with `flate2::read::GzDecoder`. Whether that
/// succeeds, and what is read, depends on the bytes of the file alone.
#[verifier::external_body]
fn gunzip(data: &[u8]) -> (r: Result<Vec<u8>, std::io::Error>)
    ensures
        match r {
            Ok(contents) => gunzipped(data@) == Some(contents@),
            Err(_) => gunzipped(data@) is None,
        },
{
    let mut contents: Vec<u8> = Vec::new();
    flate2::read::GzDecoder::new(data).read_to_end(&mut contents)?;
    Ok(contents)
}

/// Compresses data with `flate2::write::GzEncoder`, at the default level. The
/// header that it writes holds no time and no name, so that the result depends
/// on the data alone, and the decoder of the same crate reads the data back.
#[verifier::external_body]
fn gzip(data: &[u8]) -> (r: Result<Vec<u8>, std::io::Error>)
    ensures
        match r {
            Ok(file) => gzipped(data@) == Some(file@) && gunzipped(file@) == Some(data@),
            Err(_) => gzipped(data@) is None,
        },
{
    let mut encoder = flate2::write::GzEncoder::new(Vec::new(), flate2::Compression::default());
    encoder.write_all(data)?;
    encoder.finish()
}

/// What went wrong with a compressed file.
pub enum GzipError {
    /// It could not be read.
    Read(std::io::Error),
    /// It could not be written.
    Write(std::io::Error),
}

/// Whether a file is compressed, which its name says.
pub open spec fn is_compressed(path: Seq<u8>) -> bool {
    file_name_span(path) matches Some((start, end)) && ".gz".spec_bytes().is_suffix_of(
        lossy(path.subrange(start, end)),
    )
}

/// What a file holds, once it is decompressed if it has to be.
pub open spec fn decoded(compressed: bool, file: Seq<u8>) -> Option<Seq<u8>> {
    if compressed {
        gunzipped(file)
    } else {
        Some(file)
    }
}

/// Whether a file is compressed, which its name says.
fn has_gzip_name(path: &[u8]) -> (r: bool)
    ensures
        r == is_compressed(path@),
{
    match file_name(path) {
        Some(name) => has_suffix(to_lossy(name.as_slice()).as_slice(), ".gz".as_bytes()),
        None => false,
    }
}

/// The contents of a SyncTeX file and whether it is compressed, given its bytes.
/// This fails where the name says that the file is compressed and its bytes are
/// not those of a gzip file.
pub fn read_synctex(path: &[u8], file: Vec<u8>) -> (r: Result<(Vec<u8>, bool), GzipError>)
    ensures
        match r {
            Ok((contents, compressed)) => compressed == is_compressed(path@) && decoded(
                compressed,
                file@,
            ) == Some(contents@),
            Err(GzipError::Read(_)) => decoded(is_compressed(path@), file@) is None,
            Err(GzipError::Write(_)) => false,
        },
{
    if has_gzip_name(path) {
        match gunzip(file.as_slice()) {
            Ok(contents) => Ok((contents, true)),
            Err(error) => Err(GzipError::Read(error)),
        }
    } else {
        Ok((file, false))
    }
}

/// The bytes of a SyncTeX file with the given contents, which are read back from
/// it.
pub fn write_synctex(contents: Vec<u8>, compressed: bool) -> (r: Result<Vec<u8>, GzipError>)
    ensures
        match r {
            Ok(file) => decoded(compressed, file@) == Some(contents@) && if compressed {
                gzipped(contents@) == Some(file@)
            } else {
                file@ == contents@
            },
            Err(GzipError::Write(_)) => compressed && gzipped(contents@) is None,
            Err(GzipError::Read(_)) => false,
        },
{
    if compressed {
        match gzip(contents.as_slice()) {
            Ok(file) => Ok(file),
            Err(error) => Err(GzipError::Write(error)),
        }
    } else {
        Ok(contents)
    }
}

/// A file whose name ends in `.gz` is taken for compressed, and no other file is. What
/// a compressed file holds is what it was compressed from; any other file holds its
/// bytes.
pub proof fn law_the_name_says_whether_a_file_is_compressed(
    path: Seq<u8>,
    start: int,
    end: int,
    file: Seq<u8>,
)
    requires
        file_name_span(path) == Some((start, end)),
        0 <= start <= end <= path.len(),
        forall|i: int|
            0 <= i < end - start ==> !starts_with_surrogate(
                #[trigger] path.subrange(start, end).skip(i),
            ),
    ensures
        is_compressed(path) <==> end - start >= 3 && path[end - 3] == 0x2e && path[end - 2] == 0x67
            && path[end - 1] == 0x7a,
        decoded(true, file) == gunzipped(file),
        decoded(false, file) == Some(file),
{
    let name = path.subrange(start, end);
    law_text_without_surrogates_is_kept(name);
    let suffix = ".gz".spec_bytes();
    reveal_strlit(".gz");
    assert(".gz".is_ascii());
    is_ascii_spec_bytes(".gz");
    assert(suffix =~= seq![0x2eu8, 0x67u8, 0x7au8]);
    let n = name.len() as int;
    if suffix.is_suffix_of(name) {
        let tail = name.subrange(n - 3, n);
        assert(tail[0] == path[end - 3] && tail[1] == path[end - 2] && tail[2] == path[end - 1]);
        assert(suffix[0] == tail[0] && suffix[1] == tail[1] && suffix[2] == tail[2]);
    }
    if end - start >= 3 && path[end - 3] == 0x2e && path[end - 2] == 0x67 && path[end - 1] == 0x7a {
        assert(suffix =~= name.subrange(n - 3, n));
    }
}

} // verus!
