//! The host backend.
use crate::algorithm::{Algorithm, Capability, Level};
use crate::codec::{CodecBackend, Compressor, Decompressor, StreamCompressor, StreamDecompressor};
use crate::cpu::compress::{DeflateCompressor, GzipCompressor, ZstdCompressor};
use crate::cpu::decompress::{
    Bzip2Decompressor, DeflateDecompressor, GzipDecompressor, LzmaDecompressor, RarDecompressor,
    ZstdDecompressor,
};
use crate::error::Error;
use vstd::prelude::*;

verus! {

/// Default chunk size for parallel compression: 2 MiB. Large enough that little
/// of the ratio is lost, small enough that even small files get chunks.
pub const DEFAULT_CHUNK_SIZE: usize = 2097152;

/// `num_cpus::get` counts the processors available to the program. Nothing is
/// claimed of the number.
pub assume_specification[ num_cpus::get ]() -> (r: usize);

/// How many chunks to work on at a time by default: what `threads_for` gives
/// for the processors that are found. How many these are rests on the machine.
pub fn default_threads() -> (r: usize)
    ensures
        r >= 1,
        exists|n: usize| #[trigger]
            call_ensures(num_cpus::get, (), n) && call_ensures(threads_for, (n,), r),
{
    threads_for(num_cpus::get())
}

/// How many chunks to work on at a time with so many processors: one on each,
/// and one where none was found.
pub fn threads_for(processors: usize) -> (r: usize)
    ensures
        processors > 0 ==> r == processors,
        processors == 0 ==> r == 1,
{
    if processors == 0 {
        1
    } else {
        processors
    }
}

#[derive(Debug, Clone, Copy)]
pub struct CpuBackend {
    chunk_size: usize,
    max_in_flight: usize,
}

impl Default for CpuBackend {
    fn default() -> (r: Self)
        ensures
            r.wf(),
            r.chunk_size_spec() == DEFAULT_CHUNK_SIZE,
            call_ensures(default_threads, (), r.max_in_flight_spec()),
    {
        CpuBackend::new()
    }
}

impl CpuBackend {
    pub const NAME: &'static str = "cpu";

    pub closed spec fn chunk_size_spec(&self) -> usize {
        self.chunk_size
    }

    pub closed spec fn max_in_flight_spec(&self) -> usize {
        self.max_in_flight
    }

    pub open spec fn wf(&self) -> bool {
        self.chunk_size_spec() > 0 && self.max_in_flight_spec() > 0
    }

    /// What this backend gives to one who asks for a compressor: raw DEFLATE in
    /// one piece, gzip and zstd in chunks, and an error for the rest.
    pub open spec fn gives(
        &self,
        algo: Algorithm,
        level: Level,
        r: Result<StreamCompressor, Error>,
    ) -> bool {
        match algo {
            Algorithm::Deflate => r matches Ok(StreamCompressor::Deflate(c)) && c.level_spec()
                == level,
            Algorithm::Gzip => r matches Ok(StreamCompressor::Gzip(c)) && c.level_spec() == level
                && c.layout_spec() == (self.chunk_size_spec(), self.max_in_flight_spec()),
            Algorithm::Zstd => r matches Ok(StreamCompressor::Zstd(c)) && c.level_spec() == level
                && c.layout_spec() == (self.chunk_size_spec(), self.max_in_flight_spec()),
            Algorithm::Lzma | Algorithm::Bzip2 | Algorithm::Rar => r matches Err(
                Error::CompressionUnsupported { backend, algo: a },
            ) && backend@ == "cpu"@ && a == algo,
        }
    }

    /// Default chunks, and one chunk under way per processor.
    pub fn new() -> (r: Self)
        ensures
            r.wf(),
            r.chunk_size_spec() == DEFAULT_CHUNK_SIZE,
            call_ensures(default_threads, (), r.max_in_flight_spec()),
    {
        CpuBackend { chunk_size: DEFAULT_CHUNK_SIZE, max_in_flight: default_threads() }
    }

    /// Sets the chunk size and how many chunks may be under way. With one the
    /// work is serial.
    pub fn with_config(chunk_size: usize, max_in_flight: usize) -> (r: Self)
        requires
            chunk_size > 0,
            max_in_flight > 0,
        ensures
            r.wf(),
            r.chunk_size_spec() == chunk_size,
            r.max_in_flight_spec() == max_in_flight,
    {
        CpuBackend { chunk_size, max_in_flight }
    }

    pub fn chunk_size(&self) -> (r: usize)
        ensures
            r == self.chunk_size_spec(),
    {
        self.chunk_size
    }

    pub fn max_in_flight(&self) -> (r: usize)
        ensures
            r == self.max_in_flight_spec(),
    {
        self.max_in_flight
    }
}

/// What the host can do with an algorithm.
pub open spec fn host_capability(algo: Algorithm) -> Capability {
    match algo {
        Algorithm::Deflate | Algorithm::Gzip | Algorithm::Zstd => Capability::Both,
        Algorithm::Lzma | Algorithm::Bzip2 | Algorithm::Rar => Capability::DecompressOnly,
    }
}

impl CodecBackend for CpuBackend {
    open spec fn name_spec(&self) -> Seq<char> {
        "cpu"@
    }

    open spec fn supports_spec(&self, algo: Algorithm) -> Capability {
        host_capability(algo)
    }

    fn name(&self) -> (r: &'static str) {
        "cpu"
    }

    fn supports(&self, algo: Algorithm) -> (r: Capability) {
        match algo {
            Algorithm::Deflate => Capability::Both,
            Algorithm::Gzip => Capability::Both,
            Algorithm::Zstd => Capability::Both,
            Algorithm::Lzma => Capability::DecompressOnly,
            Algorithm::Bzip2 => Capability::DecompressOnly,
            Algorithm::Rar => Capability::DecompressOnly,
        }
    }

    /// Raw DEFLATE has no framing, so it is compressed in one piece. Gzip and
    /// zstd streams may consist of several members or frames, one per chunk.
    fn compressor(&self, algo: Algorithm, level: Level) -> (r: Result<StreamCompressor, Error>)
        ensures
            self.gives(algo, level, r),
    {
        match algo {
            Algorithm::Deflate => Ok(StreamCompressor::Deflate(DeflateCompressor::new(level))),
            Algorithm::Gzip => Ok(
                StreamCompressor::Gzip(
                    GzipCompressor::new(level, self.chunk_size, self.max_in_flight),
                ),
            ),
            Algorithm::Zstd => Ok(
                StreamCompressor::Zstd(
                    ZstdCompressor::new(level, self.chunk_size, self.max_in_flight),
                ),
            ),
            Algorithm::Lzma | Algorithm::Bzip2 | Algorithm::Rar => Err(
                Error::CompressionUnsupported { backend: "cpu", algo },
            ),
        }
    }

    fn decompressor(&self, algo: Algorithm) -> (r: Result<StreamDecompressor, Error>)
        ensures
            r is Ok,
    {
        match algo {
            Algorithm::Deflate => Ok(StreamDecompressor::Deflate(DeflateDecompressor)),
            Algorithm::Gzip => Ok(StreamDecompressor::Gzip(GzipDecompressor)),
            Algorithm::Zstd => Ok(StreamDecompressor::Zstd(ZstdDecompressor)),
            Algorithm::Lzma => Ok(StreamDecompressor::Lzma(LzmaDecompressor)),
            Algorithm::Bzip2 => Ok(StreamDecompressor::Bzip2(Bzip2Decompressor)),
            Algorithm::Rar => Ok(StreamDecompressor::Rar(RarDecompressor)),
        }
    }
}

/// By default there is one chunk under way for each processor that is found, and
/// one where none is found.
pub proof fn law_default_threads_are_the_processors(r: usize)
    requires
        call_ensures(default_threads, (), r),
    ensures
        exists|n: usize| #[trigger]
            call_ensures(num_cpus::get, (), n) && (if n == 0 {
                r == 1
            } else {
                r == n
            }),
{
    let n = choose|n: usize| #[trigger]
        call_ensures(num_cpus::get, (), n) && call_ensures(threads_for, (n,), r);
    assert(call_ensures(num_cpus::get, (), n));
    assert(call_ensures(threads_for, (n,), r));
}

/// The host hands out a compressor for raw DEFLATE, gzip and zstd and for nothing
/// else, with the level that was asked for and its own chunks. It hands out a
/// decompressor for every algorithm. What it says that it supports is what it
/// hands out.
pub proof fn law_host_hands_out_what_it_supports(
    b: CpuBackend,
    algo: Algorithm,
    level: Level,
    writer: Result<StreamCompressor, Error>,
    reader: Result<StreamDecompressor, Error>,
    supports: Capability,
)
    requires
        call_ensures(CpuBackend::compressor, (&b, algo, level), writer),
        call_ensures(CpuBackend::decompressor, (&b, algo), reader),
        call_ensures(CpuBackend::supports, (&b, algo), supports),
    ensures
        writer is Ok <==> algo is Deflate || algo is Gzip || algo is Zstd,
        writer is Ok <==> supports.can_compress(),
        writer matches Ok(c) ==> c.algorithm_spec() == algo,
        writer matches Ok(StreamCompressor::Deflate(c)) ==> c.level_spec() == level,
        writer matches Ok(StreamCompressor::Gzip(c)) ==> c.level_spec() == level
            && c.layout_spec() == (b.chunk_size_spec(), b.max_in_flight_spec()),
        writer matches Ok(StreamCompressor::Zstd(c)) ==> c.level_spec() == level
            && c.layout_spec() == (b.chunk_size_spec(), b.max_in_flight_spec()),
        !(writer matches Ok(StreamCompressor::HybridGzip(_))),
        reader matches Ok(d) && d.algorithm_spec() == algo,
        supports.can_decompress(),
{
}

/// Chunks have two mebibytes unless another size is given.
pub proof fn law_default_chunks(b: CpuBackend)
    requires
        call_ensures(CpuBackend::new, (), b),
    ensures
        b.chunk_size_spec() == 2 * 1024 * 1024,
        b.max_in_flight_spec() > 0,
{
}

} // verus!
