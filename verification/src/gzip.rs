//! Gzip framing of output packs through `libdeflater`, and the handling of
//! output paths and compression levels.

use vstd::prelude::*;

verus! {

/// The gzip member that encodes `data` at compression level `level`: the
/// deterministic output of libdeflate's gzip compressor. The header carries
/// no timestamp, so the bytes depend on the level and the data alone —
/// though, as with any compressor, they may differ across library versions.
pub uninterp spec fn gzip_member_of(level: int, data: Seq<u8>) -> Seq<u8>;

/// The compressor could not produce the pack.
#[derive(Debug, Clone, PartialEq, Eq)]
pub struct GzipError;

/// An invocation option is out of range.
#[derive(Debug, Clone, PartialEq, Eq)]
pub enum ConfigError {
    /// The gzip level is outside the range the compressor accepts.
    InvalidCompressionLevel { level: i32 },
}

/// The range of gzip levels that libdeflate accepts.
pub open spec fn valid_compression_level(level: i32) -> bool {
    0 <= level <= 12
}

/// Checks a gzip level at entry, as the compressor will see it.
pub fn validate_compression_level(level: i32) -> (r: Result<i32, ConfigError>)
    ensures
        r matches Ok(l) ==> l == level && valid_compression_level(level),
        r is Err ==> !valid_compression_level(level) && r == Err::<i32, _>(
            ConfigError::InvalidCompressionLevel { level },
        ),
{
    if 0 <= level && level <= 12 {
        Ok(level)
    } else {
        Err(ConfigError::InvalidCompressionLevel { level })
    }
}

/// Relies on `libdeflater`: `CompressionLvl::new` accepts exactly the levels
/// 0 through 12, and `Compressor::gzip_compress` writes one gzip member that
/// is a function of the level and the input bytes alone. With a buffer of
/// `gzip_compress_bound` bytes the compressor cannot run out of space, so on
/// a valid level the call succeeds.
#[verifier::external_body]
fn gzip_pack_raw(data: &[u8], level: i32) -> (r: Result<Vec<u8>, GzipError>)
    requires
        valid_compression_level(level),
    ensures
        r is Ok,
        r matches Ok(pack) ==> pack@ == gzip_member_of(level as int, data@),
{
    let lvl = match libdeflater::CompressionLvl::new(level) {
        Ok(lvl) => lvl,
        Err(_) => return Err(GzipError),
    };
    let mut compressor = libdeflater::Compressor::new(lvl);
    let bound = compressor.gzip_compress_bound(data.len());
    let mut pack = vec![0u8; bound];
    match compressor.gzip_compress(data, &mut pack) {
        Ok(size) => {
            pack.truncate(size);
            Ok(pack)
        },
        Err(_) => Err(GzipError),
    }
}

/// Encodes one output pack for its sink: the gzip member of its bytes when
/// the output is gzip-compressed, the bytes themselves otherwise.
pub fn encode_pack(pack: Vec<u8>, gzip: bool, level: i32) -> (r: Result<Vec<u8>, GzipError>)
    requires
        valid_compression_level(level),
    ensures
        !gzip ==> (r matches Ok(out) && out@ == pack@),
        gzip ==> (r matches Ok(out) && out@ == gzip_member_of(level as int, pack@)),
{
    if gzip {
        gzip_pack_raw(pack.as_slice(), level)
    } else {
        Ok(pack)
    }
}

/// Whether a path names a gzip-compressed file: it ends in `.gz`, compared
/// without regard to ASCII case.
pub fn gz_compressed(path: &[u8]) -> (r: bool)
    ensures
        r == spec_gz_compressed(path@),
{
    let n = path.len();
    if n < 3 {
        return false;
    }
    let dot = path[n - 3];
    let g = path[n - 2];
    let z = path[n - 1];
    dot == 46 && (g == 103 || g == 71) && (z == 122 || z == 90)
}

/// A path names a gzip-compressed file when its last three bytes are `.gz`
/// in any ASCII case.
pub open spec fn spec_gz_compressed(path: Seq<u8>) -> bool {
    &&& path.len() >= 3
    &&& path[path.len() - 3] == 46
    &&& (path[path.len() - 2] == 103 || path[path.len() - 2] == 71)
    &&& (path[path.len() - 1] == 122 || path[path.len() - 1] == 90)
}

}
