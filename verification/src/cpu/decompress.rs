//! The decompressors of the host.
use crate::algorithm::Algorithm;
use crate::codec;
use crate::codec::{Decoded, Decompressor};
use crate::cpu::streams;
use crate::error::Error;
use vstd::prelude::*;

verus! {

/// The outcome is one that the raw DEFLATE decoder had when it was given the stream:
/// what it read, and its failure if it had one.
pub closed spec fn deflate_decoder_gave(stream: Seq<u8>, outcome: (Vec<u8>, Option<String>)) -> bool {
    exists|s: &[u8]| s@ == stream && #[trigger] call_ensures(streams::read_deflate, (s,), outcome)
}

/// The outcome is one that the gzip decoder had when it was given the stream:
/// what it read, and its failure if it had one.
pub closed spec fn gz_decoder_gave(stream: Seq<u8>, outcome: (Vec<u8>, Option<String>)) -> bool {
    exists|s: &[u8]| s@ == stream && #[trigger] call_ensures(streams::read_gz_all, (s,), outcome)
}

/// The outcome is one that the zstd decoder had when it was given the stream:
/// what it read, and its failure if it had one.
pub closed spec fn zstd_decoder_gave(stream: Seq<u8>, outcome: (Vec<u8>, Option<String>)) -> bool {
    exists|s: &[u8]| s@ == stream && #[trigger] call_ensures(streams::read_zstd, (s,), outcome)
}

/// The outcome is one that the xz decoder had when it was given the stream:
/// what it read, and its failure if it had one.
pub closed spec fn xz_decoder_gave(stream: Seq<u8>, outcome: (Vec<u8>, Option<String>)) -> bool {
    exists|s: &[u8]| s@ == stream && #[trigger] call_ensures(streams::read_xz, (s,), outcome)
}

/// The outcome is one that the bzip2 decoder had when it was given the stream:
/// what it read, and its failure if it had one.
pub closed spec fn bzip2_decoder_gave(stream: Seq<u8>, outcome: (Vec<u8>, Option<String>)) -> bool {
    exists|s: &[u8]| s@ == stream && #[trigger] call_ensures(streams::read_bzip2, (s,), outcome)
}

/// What a decoder gave, as it is handed on: all that it read, and its failure.
pub open spec fn handed_on(outcome: (Vec<u8>, Option<String>), r: Decoded) -> bool {
    &&& r.bytes == outcome.0
    &&& r.failure == (match outcome.1 {
        Some(m) => Some(Error::Io(m)),
        None => None,
    })
}

/// What a decoder gave, as a whole: all that it read, or its failure.
pub open spec fn whole_of(
    outcome: (Vec<u8>, Option<String>),
    r: Result<Vec<u8>, Error>,
) -> bool {
    r == (match outcome.1 {
        Some(m) => Err::<Vec<u8>, Error>(Error::Io(m)),
        None => Ok::<Vec<u8>, Error>(outcome.0),
    })
}

/// What was decoded, with its failure as an error of the library.
fn told(bytes: Vec<u8>, failure: Option<String>) -> (r: Decoded)
    ensures
        handed_on((bytes, failure), r),
{
    match failure {
        Some(m) => Decoded { bytes, failure: Some(Error::Io(m)) },
        None => Decoded { bytes, failure: None },
    }
}

#[derive(Debug, Clone, Copy)]
pub struct DeflateDecompressor;

impl Decompressor for DeflateDecompressor {
    open spec fn algorithm_spec(&self) -> Algorithm {
        Algorithm::Deflate
    }

    open spec fn decodes(&self, stream: Seq<u8>, data: Seq<u8>) -> bool {
        streams::deflate_content(stream) == Some(data)
    }

    fn algorithm(&self) -> (r: Algorithm) {
        Algorithm::Deflate
    }

    fn decode(&self, stream: &[u8]) -> (r: Decoded)
        ensures
            r.failure matches Some(e) ==> e is Io,
            exists|o: (Vec<u8>, Option<String>)| #[trigger]
                deflate_decoder_gave(stream@, o) && handed_on(o, r),
            r.failure is None <==> streams::deflate_content(stream@) is Some,
    {
        let (bytes, failure) = streams::read_deflate(stream);
        assert(deflate_decoder_gave(stream@, (bytes, failure)));
        told(bytes, failure)
    }

    fn decompress(&self, stream: &[u8]) -> (r: Result<Vec<u8>, Error>)
        ensures
            r matches Err(e) ==> e is Io,
            exists|o: (Vec<u8>, Option<String>)| #[trigger]
                deflate_decoder_gave(stream@, o) && whole_of(o, r),
            r is Ok <==> streams::deflate_content(stream@) is Some,
    {
        codec::whole(self.decode(stream))
    }
}

/// Reads concatenated gzip members too, which `.tar.gz` files may consist of.
#[derive(Debug, Clone, Copy)]
pub struct GzipDecompressor;

impl Decompressor for GzipDecompressor {
    open spec fn algorithm_spec(&self) -> Algorithm {
        Algorithm::Gzip
    }

    open spec fn decodes(&self, stream: Seq<u8>, data: Seq<u8>) -> bool {
        streams::gz_all(stream) == Some(data)
    }

    fn algorithm(&self) -> (r: Algorithm) {
        Algorithm::Gzip
    }

    fn decode(&self, stream: &[u8]) -> (r: Decoded)
        ensures
            r.failure matches Some(e) ==> e is Io,
            exists|o: (Vec<u8>, Option<String>)| #[trigger]
                gz_decoder_gave(stream@, o) && handed_on(o, r),
            r.failure is None <==> streams::gz_all(stream@) is Some,
            forall|a: Seq<u8>, d: Seq<u8>| #[trigger]
                streams::is_gz_stream(a, d) && a.is_prefix_of(stream@) ==> d.is_prefix_of(
                    r.bytes@,
                ),
    {
        let (bytes, failure) = streams::read_gz_all(stream);
        assert(gz_decoder_gave(stream@, (bytes, failure)));
        told(bytes, failure)
    }

    fn decompress(&self, stream: &[u8]) -> (r: Result<Vec<u8>, Error>)
        ensures
            r matches Err(e) ==> e is Io,
            exists|o: (Vec<u8>, Option<String>)| #[trigger]
                gz_decoder_gave(stream@, o) && whole_of(o, r),
            r is Ok <==> streams::gz_all(stream@) is Some,
    {
        codec::whole(self.decode(stream))
    }
}

#[derive(Debug, Clone, Copy)]
pub struct ZstdDecompressor;

impl Decompressor for ZstdDecompressor {
    open spec fn algorithm_spec(&self) -> Algorithm {
        Algorithm::Zstd
    }

    open spec fn decodes(&self, stream: Seq<u8>, data: Seq<u8>) -> bool {
        streams::zstd_all(stream) == Some(data)
    }

    fn algorithm(&self) -> (r: Algorithm) {
        Algorithm::Zstd
    }

    fn decode(&self, stream: &[u8]) -> (r: Decoded)
        ensures
            r.failure matches Some(e) ==> e is Io,
            exists|o: (Vec<u8>, Option<String>)| #[trigger]
                zstd_decoder_gave(stream@, o) && handed_on(o, r),
    {
        let (bytes, failure) = streams::read_zstd(stream);
        assert(zstd_decoder_gave(stream@, (bytes, failure)));
        told(bytes, failure)
    }

    fn decompress(&self, stream: &[u8]) -> (r: Result<Vec<u8>, Error>)
        ensures
            r matches Err(e) ==> e is Io,
            exists|o: (Vec<u8>, Option<String>)| #[trigger]
                zstd_decoder_gave(stream@, o) && whole_of(o, r),
    {
        codec::whole(self.decode(stream))
    }
}

#[derive(Debug, Clone, Copy)]
pub struct LzmaDecompressor;

impl Decompressor for LzmaDecompressor {
    open spec fn algorithm_spec(&self) -> Algorithm {
        Algorithm::Lzma
    }

    open spec fn decodes(&self, stream: Seq<u8>, data: Seq<u8>) -> bool {
        streams::xz_content(stream) == Some(data)
    }

    fn algorithm(&self) -> (r: Algorithm) {
        Algorithm::Lzma
    }

    fn decode(&self, stream: &[u8]) -> (r: Decoded)
        ensures
            r.failure matches Some(e) ==> e is Io,
            exists|o: (Vec<u8>, Option<String>)| #[trigger]
                xz_decoder_gave(stream@, o) && handed_on(o, r),
    {
        let (bytes, failure) = streams::read_xz(stream);
        assert(xz_decoder_gave(stream@, (bytes, failure)));
        told(bytes, failure)
    }

    fn decompress(&self, stream: &[u8]) -> (r: Result<Vec<u8>, Error>)
        ensures
            r matches Err(e) ==> e is Io,
            exists|o: (Vec<u8>, Option<String>)| #[trigger]
                xz_decoder_gave(stream@, o) && whole_of(o, r),
    {
        codec::whole(self.decode(stream))
    }
}

#[derive(Debug, Clone, Copy)]
pub struct Bzip2Decompressor;

impl Decompressor for Bzip2Decompressor {
    open spec fn algorithm_spec(&self) -> Algorithm {
        Algorithm::Bzip2
    }

    open spec fn decodes(&self, stream: Seq<u8>, data: Seq<u8>) -> bool {
        streams::bzip2_content(stream) == Some(data)
    }

    fn algorithm(&self) -> (r: Algorithm) {
        Algorithm::Bzip2
    }

    fn decode(&self, stream: &[u8]) -> (r: Decoded)
        ensures
            r.failure matches Some(e) ==> e is Io,
            exists|o: (Vec<u8>, Option<String>)| #[trigger]
                bzip2_decoder_gave(stream@, o) && handed_on(o, r),
    {
        let (bytes, failure) = streams::read_bzip2(stream);
        assert(bzip2_decoder_gave(stream@, (bytes, failure)));
        told(bytes, failure)
    }

    fn decompress(&self, stream: &[u8]) -> (r: Result<Vec<u8>, Error>)
        ensures
            r matches Err(e) ==> e is Io,
            exists|o: (Vec<u8>, Option<String>)| #[trigger]
                bzip2_decoder_gave(stream@, o) && whole_of(o, r),
    {
        codec::whole(self.decode(stream))
    }
}

/// RAR has no streams of its own: its archives are read as a whole. This
/// decompressor exists so that a lookup finds one; it only fails.
#[derive(Debug, Clone, Copy)]
pub struct RarDecompressor;

impl Decompressor for RarDecompressor {
    open spec fn algorithm_spec(&self) -> Algorithm {
        Algorithm::Rar
    }

    open spec fn decodes(&self, stream: Seq<u8>, data: Seq<u8>) -> bool {
        false
    }

    fn algorithm(&self) -> (r: Algorithm) {
        Algorithm::Rar
    }

    fn decode(&self, stream: &[u8]) -> (r: Decoded)
        ensures
            r.bytes@.len() == 0,
            r.failure matches Some(Error::Io(m)) && m@
                == "RAR is not a streaming codec; use the archive-layer extractor"@,
    {
        Decoded {
            bytes: Vec::new(),
            failure: Some(
                Error::Io(
                    "RAR is not a streaming codec; use the archive-layer extractor".to_owned(),
                ),
            ),
        }
    }

    fn decompress(&self, stream: &[u8]) -> (r: Result<Vec<u8>, Error>)
        ensures
            r matches Err(Error::Io(m)) && m@
                == "RAR is not a streaming codec; use the archive-layer extractor"@,
    {
        codec::whole(self.decode(stream))
    }
}

} // verus!
