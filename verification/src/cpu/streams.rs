//! The compressed streams that other libraries read and write.
use vstd::prelude::*;

verus! {

/// What `flate2::read::MultiGzDecoder` makes of the gzip members that `data`
/// consists of; `None` where it fails.
pub uninterp spec fn gz_all(data: Seq<u8>) -> Option<Seq<u8>>;

/// The gzip member that `flate2::write::GzEncoder` makes of `data`.
pub uninterp spec fn gz_member(level: u32, data: Seq<u8>) -> Seq<u8>;

/// What `flate2::read::DeflateDecoder` makes of a raw DEFLATE stream; `None`
/// where it fails.
pub uninterp spec fn deflate_content(data: Seq<u8>) -> Option<Seq<u8>>;

/// The raw DEFLATE stream that `flate2::write::DeflateEncoder` makes of `data`.
pub uninterp spec fn deflate_stream(level: u32, data: Seq<u8>) -> Seq<u8>;

/// What `zstd::stream::read::Decoder` makes of the frames that `data` consists
/// of; `None` where they are malformed.
pub uninterp spec fn zstd_all(data: Seq<u8>) -> Option<Seq<u8>>;

/// The frame that `zstd::stream::write::Encoder` makes of `data`.
pub uninterp spec fn zstd_frame(level: i32, data: Seq<u8>) -> Seq<u8>;

/// What `xz2::read::XzDecoder` makes of an xz stream; `None` where it is
/// malformed.
pub uninterp spec fn xz_content(data: Seq<u8>) -> Option<Seq<u8>>;

/// What `bzip2::read::BzDecoder` makes of a bzip2 stream; `None` where it is
/// malformed.
pub uninterp spec fn bzip2_content(data: Seq<u8>) -> Option<Seq<u8>>;

/// `data` in front of what follows, if that could be read.
pub open spec fn prepended(data: Seq<u8>, more: Option<Seq<u8>>) -> Option<Seq<u8>> {
    match more {
        Some(d) => Some(data + d),
        None => None,
    }
}

/// Gzip members that stand for `data`, alone and in front of others. With
/// anything behind them that is no gzip stream, they cannot be read.
pub open spec fn is_gz_stream(stream: Seq<u8>, data: Seq<u8>) -> bool {
    &&& gz_all(stream) == Some(data)
    &&& forall|rest: Seq<u8>|
        rest.len() > 0 ==> #[trigger] gz_all(stream + rest) == prepended(data, gz_all(rest))
}

/// A zstd frame that stands for `data`, alone and in front of other frames.
pub open spec fn is_zstd_frame(frame: Seq<u8>, data: Seq<u8>) -> bool {
    &&& zstd_all(frame) == Some(data)
    &&& forall|rest: Seq<u8>|
        zstd_all(rest) is Some ==> #[trigger] zstd_all(frame + rest) == prepended(
            data,
            zstd_all(rest),
        )
}

/// Reads gzip members with `flate2::read::MultiGzDecoder` up to the end or to
/// the first failure. What it reads to the end is complete, so that it reads on
/// where more follows. Where it fails, it has handed out what the complete
/// members in front stand for. Nothing is said of the text of a failure.
#[verifier::external_body]
pub(crate) fn read_gz_all(data: &[u8]) -> (r: (Vec<u8>, Option<String>))
    ensures
        match gz_all(data@) {
            Some(content) => r.1 is None && r.0@ == content,
            None => r.1 is Some,
        },
        r.1 is None ==> is_gz_stream(data@, r.0@),
        forall|a: Seq<u8>, d: Seq<u8>| #[trigger]
            is_gz_stream(a, d) && a.is_prefix_of(data@) ==> d.is_prefix_of(r.0@),
{
    let mut out = Vec::new();
    match std::io::Read::read_to_end(&mut flate2::read::MultiGzDecoder::new(data), &mut out) {
        Ok(_) => (out, None),
        Err(e) => (out, Some(e.to_string())),
    }
}

/// Makes a gzip member with `flate2::write::GzEncoder`, which does not fail when
/// it writes to memory. The member stands for `data`, and the decoder of the
/// same library reads it as such, also in front of other members. Its header has
/// no optional fields, no time and no system; between the fastest and the best
/// level it says nothing of the level either.
#[verifier::external_body]
pub(crate) fn write_gz(level: u32, data: &[u8]) -> (r: Result<Vec<u8>, String>)
    requires
        level <= 9,
    ensures
        r is Ok,
        r matches Ok(m) ==> {
            &&& m@ == gz_member(level, data@)
            &&& is_gz_stream(m@, data@)
            &&& m@.len() >= 18
            &&& 2 <= level <= 8 ==> m@.take(10) == crate::gzip::GZIP_HEADER@
        },
{
    let mut encoder = flate2::write::GzEncoder::new(Vec::new(), flate2::Compression::new(level));
    if let Err(e) = std::io::Write::write_all(&mut encoder, data) {
        return Err(e.to_string());
    }
    match encoder.finish() {
        Ok(m) => Ok(m),
        Err(e) => Err(e.to_string()),
    }
}

/// Reads a raw DEFLATE stream with `flate2::read::DeflateDecoder` up to the end
/// or to the first failure. Nothing is said of what was read before a failure,
/// nor of its text.
#[verifier::external_body]
pub(crate) fn read_deflate(data: &[u8]) -> (r: (Vec<u8>, Option<String>))
    ensures
        match deflate_content(data@) {
            Some(content) => r.1 is None && r.0@ == content,
            None => r.1 is Some,
        },
{
    let mut out = Vec::new();
    match std::io::Read::read_to_end(&mut flate2::read::DeflateDecoder::new(data), &mut out) {
        Ok(_) => (out, None),
        Err(e) => (out, Some(e.to_string())),
    }
}

/// Makes a raw DEFLATE stream with `flate2::write::DeflateEncoder`, which does
/// not fail when it writes to memory. The decoder of the same library reads the
/// stream back.
#[verifier::external_body]
pub(crate) fn write_deflate(level: u32, data: &[u8]) -> (r: Result<Vec<u8>, String>)
    requires
        level <= 9,
    ensures
        r is Ok,
        r matches Ok(s) ==> s@ == deflate_stream(level, data@) && deflate_content(s@) == Some(
            data@,
        ),
{
    let mut encoder = flate2::write::DeflateEncoder::new(Vec::new(), flate2::Compression::new(level));
    if let Err(e) = std::io::Write::write_all(&mut encoder, data) {
        return Err(e.to_string());
    }
    match encoder.finish() {
        Ok(s) => Ok(s),
        Err(e) => Err(e.to_string()),
    }
}

/// Reads zstd frames with `zstd::stream::read::Decoder` up to the end or to the
/// first failure. A failure is always possible, for the decoder allocates memory
/// of its own; what it reads to the end is the content.
#[verifier::external_body]
pub(crate) fn read_zstd(data: &[u8]) -> (r: (Vec<u8>, Option<String>))
    ensures
        r.1 is None ==> zstd_all(data@) == Some(r.0@),
{
    let mut out = Vec::new();
    let mut decoder = match zstd::stream::read::Decoder::new(data) {
        Ok(d) => d,
        Err(e) => return (out, Some(e.to_string())),
    };
    match std::io::Read::read_to_end(&mut decoder, &mut out) {
        Ok(_) => (out, None),
        Err(e) => (out, Some(e.to_string())),
    }
}

/// Makes a zstd frame with `zstd::stream::write::Encoder`, which the decoder
/// of the same library reads back, also in front of other frames. That the
/// encoder succeeds is not promised.
#[verifier::external_body]
pub(crate) fn write_zstd(level: i32, data: &[u8]) -> (r: Result<Vec<u8>, String>)
    requires
        1 <= level <= 22,
    ensures
        r matches Ok(f) ==> f@ == zstd_frame(level, data@) && is_zstd_frame(f@, data@),
{
    let mut encoder = match zstd::stream::write::Encoder::new(Vec::new(), level) {
        Ok(e) => e,
        Err(e) => return Err(e.to_string()),
    };
    if let Err(e) = std::io::Write::write_all(&mut encoder, data) {
        return Err(e.to_string());
    }
    match encoder.finish() {
        Ok(f) => Ok(f),
        Err(e) => Err(e.to_string()),
    }
}

/// Reads an xz stream with `xz2::read::XzDecoder` up to the end or to the first
/// failure. A failure is always possible, for the decoder allocates memory of
/// its own.
#[verifier::external_body]
pub(crate) fn read_xz(data: &[u8]) -> (r: (Vec<u8>, Option<String>))
    ensures
        r.1 is None ==> xz_content(data@) == Some(r.0@),
{
    let mut out = Vec::new();
    match std::io::Read::read_to_end(&mut xz2::read::XzDecoder::new(data), &mut out) {
        Ok(_) => (out, None),
        Err(e) => (out, Some(e.to_string())),
    }
}

/// Reads a bzip2 stream with `bzip2::read::BzDecoder` up to the end or to the
/// first failure. A failure is always possible, for the decoder allocates memory
/// of its own.
#[verifier::external_body]
pub(crate) fn read_bzip2(data: &[u8]) -> (r: (Vec<u8>, Option<String>))
    ensures
        r.1 is None ==> bzip2_content(data@) == Some(r.0@),
{
    let mut out = Vec::new();
    match std::io::Read::read_to_end(&mut bzip2::read::BzDecoder::new(data), &mut out) {
        Ok(_) => (out, None),
        Err(e) => (out, Some(e.to_string())),
    }
}

} // verus!
