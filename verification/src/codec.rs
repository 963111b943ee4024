//! What codecs and backends offer.
use crate::algorithm::{Algorithm, Capability, Level};
use crate::cpu::compress;
use crate::cpu::compress::{DeflateCompressor, GzipCompressor, ZstdCompressor};
use crate::cpu::decompress;
use crate::cpu::decompress::{
    Bzip2Decompressor, DeflateDecompressor, GzipDecompressor, LzmaDecompressor, RarDecompressor,
    ZstdDecompressor,
};
use crate::cpu::streams;
use crate::error::Error;
use crate::hybrid::HybridGzipCompressor;
use vstd::prelude::*;

verus! {

/// Turns bytes into a stream of its format.
pub trait Compressor {
    spec fn algorithm_spec(&self) -> Algorithm;

    /// The stream is one that this compressor makes of the bytes.
    spec fn encodes(&self, data: Seq<u8>, stream: Seq<u8>) -> bool;

    fn algorithm(&self) -> (r: Algorithm)
        ensures
            r == self.algorithm_spec(),
    ;

    /// Compresses bytes to a stream that is complete in itself.
    fn compress(&self, data: &[u8]) -> (r: Result<Vec<u8>, Error>)
        ensures
            r matches Ok(stream) ==> self.encodes(data@, stream@),
    ;
}

/// What was decoded of a stream, and the failure that kept it from its end, if
/// there was one.
#[derive(Debug)]
pub struct Decoded {
    pub bytes: Vec<u8>,
    pub failure: Option<Error>,
}

/// All that was decoded, or the failure.
pub fn whole(decoded: Decoded) -> (r: Result<Vec<u8>, Error>)
    ensures
        match decoded.failure {
            None => r == Ok::<Vec<u8>, Error>(decoded.bytes),
            Some(e) => r == Err::<Vec<u8>, Error>(e),
        },
{
    match decoded.failure {
        None => Ok(decoded.bytes),
        Some(e) => Err(e),
    }
}

/// Turns a stream of its format back into bytes.
pub trait Decompressor {
    spec fn algorithm_spec(&self) -> Algorithm;

    /// The bytes are those that the stream stands for.
    spec fn decodes(&self, stream: Seq<u8>, data: Seq<u8>) -> bool;

    fn algorithm(&self) -> (r: Algorithm)
        ensures
            r == self.algorithm_spec(),
    ;

    /// Decompresses a stream up to its end or to the first failure. A reader of
    /// what is inside may have seen enough before that.
    fn decode(&self, stream: &[u8]) -> (r: Decoded)
        ensures
            r.failure is None ==> self.decodes(stream@, r.bytes@),
    ;

    /// Decompresses a whole stream.
    fn decompress(&self, stream: &[u8]) -> (r: Result<Vec<u8>, Error>)
        ensures
            r matches Ok(data) ==> self.decodes(stream@, data@),
    ;
}

/// The compressors that backends hand out.
pub enum StreamCompressor {
    Deflate(DeflateCompressor),
    Gzip(GzipCompressor),
    Zstd(ZstdCompressor),
    HybridGzip(HybridGzipCompressor),
}

impl Compressor for StreamCompressor {
    open spec fn algorithm_spec(&self) -> Algorithm {
        match self {
            StreamCompressor::Deflate(c) => c.algorithm_spec(),
            StreamCompressor::Gzip(c) => c.algorithm_spec(),
            StreamCompressor::Zstd(c) => c.algorithm_spec(),
            StreamCompressor::HybridGzip(c) => c.algorithm_spec(),
        }
    }

    open spec fn encodes(&self, data: Seq<u8>, stream: Seq<u8>) -> bool {
        match self {
            StreamCompressor::Deflate(c) => c.encodes(data, stream),
            StreamCompressor::Gzip(c) => c.encodes(data, stream),
            StreamCompressor::Zstd(c) => c.encodes(data, stream),
            StreamCompressor::HybridGzip(c) => c.encodes(data, stream),
        }
    }

    fn algorithm(&self) -> (r: Algorithm) {
        match self {
            StreamCompressor::Deflate(c) => c.algorithm(),
            StreamCompressor::Gzip(c) => c.algorithm(),
            StreamCompressor::Zstd(c) => c.algorithm(),
            StreamCompressor::HybridGzip(c) => c.algorithm(),
        }
    }

    fn compress(&self, data: &[u8]) -> (r: Result<Vec<u8>, Error>)
        ensures
            !(self is Zstd) ==> r is Ok,
            r matches Err(e) ==> e is Io,
            self matches StreamCompressor::Zstd(c) ==> exists|o: Result<Vec<u8>, String>|
                #[trigger]
                compress::zstd_encoder_gave(
                    compress::zstd_level(c.level_spec()),
                    data@,
                    o,
                ) && compress::passed_on(o, r),
    {
        match self {
            StreamCompressor::Deflate(c) => c.compress(data),
            StreamCompressor::Gzip(c) => c.compress(data),
            StreamCompressor::Zstd(c) => c.compress(data),
            StreamCompressor::HybridGzip(c) => c.compress(data),
        }
    }
}

/// The decompressors that backends hand out.
pub enum StreamDecompressor {
    Deflate(DeflateDecompressor),
    Gzip(GzipDecompressor),
    Zstd(ZstdDecompressor),
    Lzma(LzmaDecompressor),
    Bzip2(Bzip2Decompressor),
    Rar(RarDecompressor),
}

impl StreamDecompressor {
    /// The outcome is one that the decoder for the format had when it was given
    /// the stream: what it read, and its failure if it had one. RAR has none.
    pub open spec fn gave(&self, stream: Seq<u8>, outcome: (Vec<u8>, Option<String>)) -> bool {
        match self {
            StreamDecompressor::Deflate(_) => decompress::deflate_decoder_gave(stream, outcome),
            StreamDecompressor::Gzip(_) => decompress::gz_decoder_gave(stream, outcome),
            StreamDecompressor::Zstd(_) => decompress::zstd_decoder_gave(stream, outcome),
            StreamDecompressor::Lzma(_) => decompress::xz_decoder_gave(stream, outcome),
            StreamDecompressor::Bzip2(_) => decompress::bzip2_decoder_gave(stream, outcome),
            StreamDecompressor::Rar(_) => false,
        }
    }
}

proof fn lemma_gave(d: StreamDecompressor, stream: Seq<u8>)
    ensures
        d is Deflate ==> forall|o: (Vec<u8>, Option<String>)| #[trigger]
            decompress::deflate_decoder_gave(stream, o) ==> d.gave(stream, o),
        d is Gzip ==> forall|o: (Vec<u8>, Option<String>)| #[trigger]
            decompress::gz_decoder_gave(stream, o) ==> d.gave(stream, o),
        d is Zstd ==> forall|o: (Vec<u8>, Option<String>)| #[trigger]
            decompress::zstd_decoder_gave(stream, o) ==> d.gave(stream, o),
        d is Lzma ==> forall|o: (Vec<u8>, Option<String>)| #[trigger]
            decompress::xz_decoder_gave(stream, o) ==> d.gave(stream, o),
        d is Bzip2 ==> forall|o: (Vec<u8>, Option<String>)| #[trigger]
            decompress::bzip2_decoder_gave(stream, o) ==> d.gave(stream, o),
{
}

impl Decompressor for StreamDecompressor {
    open spec fn algorithm_spec(&self) -> Algorithm {
        match self {
            StreamDecompressor::Deflate(d) => d.algorithm_spec(),
            StreamDecompressor::Gzip(d) => d.algorithm_spec(),
            StreamDecompressor::Zstd(d) => d.algorithm_spec(),
            StreamDecompressor::Lzma(d) => d.algorithm_spec(),
            StreamDecompressor::Bzip2(d) => d.algorithm_spec(),
            StreamDecompressor::Rar(d) => d.algorithm_spec(),
        }
    }

    open spec fn decodes(&self, stream: Seq<u8>, data: Seq<u8>) -> bool {
        match self {
            StreamDecompressor::Deflate(d) => d.decodes(stream, data),
            StreamDecompressor::Gzip(d) => d.decodes(stream, data),
            StreamDecompressor::Zstd(d) => d.decodes(stream, data),
            StreamDecompressor::Lzma(d) => d.decodes(stream, data),
            StreamDecompressor::Bzip2(d) => d.decodes(stream, data),
            StreamDecompressor::Rar(d) => d.decodes(stream, data),
        }
    }

    fn algorithm(&self) -> (r: Algorithm) {
        match self {
            StreamDecompressor::Deflate(d) => d.algorithm(),
            StreamDecompressor::Gzip(d) => d.algorithm(),
            StreamDecompressor::Zstd(d) => d.algorithm(),
            StreamDecompressor::Lzma(d) => d.algorithm(),
            StreamDecompressor::Bzip2(d) => d.algorithm(),
            StreamDecompressor::Rar(d) => d.algorithm(),
        }
    }

    fn decode(&self, stream: &[u8]) -> (r: Decoded)
        ensures
            r.failure matches Some(e) ==> e is Io,
            !(self is Rar) ==> exists|o: (Vec<u8>, Option<String>)|
                #[trigger] self.gave(stream@, o) && decompress::handed_on(o, r),
            self is Rar ==> r.bytes@.len() == 0 && (r.failure matches Some(Error::Io(m)) && m@
                == "RAR is not a streaming codec; use the archive-layer extractor"@),
            self is Deflate ==> (r.failure is None <==> streams::deflate_content(
                stream@,
            ) is Some),
            self is Gzip ==> (r.failure is None <==> streams::gz_all(stream@) is Some),
            self is Gzip ==> forall|a: Seq<u8>, d: Seq<u8>| #[trigger]
                streams::is_gz_stream(a, d) && a.is_prefix_of(stream@) ==> d.is_prefix_of(
                    r.bytes@,
                ),
    {
        proof {
            lemma_gave(*self, stream@);
        }
        match self {
            StreamDecompressor::Deflate(d) => d.decode(stream),
            StreamDecompressor::Gzip(d) => d.decode(stream),
            StreamDecompressor::Zstd(d) => d.decode(stream),
            StreamDecompressor::Lzma(d) => d.decode(stream),
            StreamDecompressor::Bzip2(d) => d.decode(stream),
            StreamDecompressor::Rar(d) => d.decode(stream),
        }
    }

    fn decompress(&self, stream: &[u8]) -> (r: Result<Vec<u8>, Error>)
        ensures
            r matches Err(e) ==> e is Io,
            !(self is Rar) ==> exists|o: (Vec<u8>, Option<String>)|
                #[trigger] self.gave(stream@, o) && decompress::whole_of(o, r),
            self is Rar ==> (r matches Err(Error::Io(m)) && m@
                == "RAR is not a streaming codec; use the archive-layer extractor"@),
            self is Deflate ==> (r is Ok <==> streams::deflate_content(stream@) is Some),
            self is Gzip ==> (r is Ok <==> streams::gz_all(stream@) is Some),
    {
        proof {
            lemma_gave(*self, stream@);
        }
        match self {
            StreamDecompressor::Deflate(d) => d.decompress(stream),
            StreamDecompressor::Gzip(d) => d.decompress(stream),
            StreamDecompressor::Zstd(d) => d.decompress(stream),
            StreamDecompressor::Lzma(d) => d.decompress(stream),
            StreamDecompressor::Bzip2(d) => d.decompress(stream),
            StreamDecompressor::Rar(d) => d.decompress(stream),
        }
    }
}

/// A codec backend. It only makes compressors and decompressors.
pub trait CodecBackend {
    /// The name. A verified backend says what it is.
    open spec fn name_spec(&self) -> Seq<char> {
        arbitrary()
    }

    /// What the backend can do with an algorithm. A verified backend says what
    /// it is.
    open spec fn supports_spec(&self, algo: Algorithm) -> Capability {
        arbitrary()
    }

    fn name(&self) -> (r: &'static str)
        ensures
            r@ == self.name_spec(),
    ;

    /// What the backend can do with an algorithm.
    fn supports(&self, algo: Algorithm) -> (r: Capability)
        ensures
            r == self.supports_spec(algo),
    ;

    /// A compressor for the algorithm, at the given level.
    fn compressor(&self, algo: Algorithm, level: Level) -> (r: Result<StreamCompressor, Error>)
        ensures
            r matches Ok(c) ==> c.algorithm_spec() == algo,
    ;

    /// A decompressor for the algorithm.
    fn decompressor(&self, algo: Algorithm) -> (r: Result<StreamDecompressor, Error>)
        ensures
            r matches Ok(d) ==> d.algorithm_spec() == algo,
    ;
}

/// Decompression undoes compression: whatever a compressor makes of some bytes,
/// a decompressor for the same algorithm turns into these bytes and no others.
pub proof fn law_decompression_undoes_compression(
    c: StreamCompressor,
    d: StreamDecompressor,
    data: Seq<u8>,
    stream: Seq<u8>,
    out: Seq<u8>,
)
    requires
        c.algorithm_spec() == d.algorithm_spec(),
        c.encodes(data, stream),
        d.decodes(stream, out),
    ensures
        out == data,
{
}

/// Reading fails only where the decoder for the format itself fails on the
/// stream, and with its message; all that the decoder read is handed on. What it
/// reads to the end is all there, however long the stream is.
pub proof fn law_reading_is_the_decoder(
    d: StreamDecompressor,
    stream: &[u8],
    part: Decoded,
    all: Result<Vec<u8>, Error>,
)
    requires
        !(d is Rar),
        call_ensures(StreamDecompressor::decode, (&d, stream), part),
        call_ensures(StreamDecompressor::decompress, (&d, stream), all),
    ensures
        exists|o: (Vec<u8>, Option<String>)|
            {
                &&& #[trigger] d.gave(stream@, o)
                &&& part.bytes@ == o.0@
                &&& o.1 is None ==> part.failure is None
                &&& o.1 matches Some(m) ==> (part.failure matches Some(Error::Io(e)) && e@ == m@)
            },
        exists|o: (Vec<u8>, Option<String>)|
            {
                &&& #[trigger] d.gave(stream@, o)
                &&& o.1 is None ==> (all matches Ok(bytes) && bytes@ == o.0@)
                &&& o.1 matches Some(m) ==> (all matches Err(Error::Io(e)) && e@ == m@)
            },
        part.failure is None ==> d.decodes(stream@, part.bytes@),
        all matches Ok(bytes) ==> d.decodes(stream@, bytes@),
{
    let o = choose|o: (Vec<u8>, Option<String>)|
        #[trigger] d.gave(stream@, o) && decompress::handed_on(o, part);
    assert(d.gave(stream@, o));
    let w = choose|w: (Vec<u8>, Option<String>)|
        #[trigger] d.gave(stream@, w) && decompress::whole_of(w, all);
    assert(d.gave(stream@, w));
}

/// A stream stands for one sequence of bytes only: whoever reads it to its end,
/// piece by piece or as a whole, reads the same.
pub proof fn law_readers_agree(
    d: StreamDecompressor,
    stream: &[u8],
    one: Decoded,
    other: Result<Vec<u8>, Error>,
)
    requires
        call_ensures(StreamDecompressor::decode, (&d, stream), one),
        call_ensures(StreamDecompressor::decompress, (&d, stream), other),
        one.failure is None,
        other is Ok,
    ensures
        other matches Ok(bytes) && bytes@ == one.bytes@,
{
}

} // verus!
