//! Host and device together: every chunk goes to whichever is free first.
use crate::algorithm::{Algorithm, Capability, Level};
use crate::codec::{CodecBackend, Compressor, Decompressor, StreamCompressor, StreamDecompressor};
use crate::cpu::backend;
use crate::cpu::backend::CpuBackend;
use crate::cpu::compress;
use crate::cpu::compress::{GzipCompressor, ZstdCompressor};
use crate::error::Error;
use crate::gpu::stub::GpuBackend;
use std::sync::Arc;
use vstd::prelude::*;

verus! {

/// A host backend, and a device backend where there is one.
pub struct HybridBackend {
    cpu: Arc<CpuBackend>,
    gpu: Option<Arc<GpuBackend>>,
}

impl HybridBackend {
    pub const NAME: &'static str = "hybrid";

    pub closed spec fn cpu_spec(&self) -> CpuBackend {
        *self.cpu
    }

    pub closed spec fn gpu_spec(&self) -> Option<GpuBackend> {
        match self.gpu {
            Some(g) => Some(*g),
            None => None,
        }
    }

    /// What this backend gives to one who asks for a compressor: with a device,
    /// gzip whose chunks go to both; in all else, what the host gives.
    pub open spec fn gives(
        &self,
        algo: Algorithm,
        level: Level,
        r: Result<StreamCompressor, Error>,
    ) -> bool {
        match (algo, self.gpu_spec()) {
            (Algorithm::Gzip, Some(gpu)) => r matches Ok(StreamCompressor::HybridGzip(c))
                && c.level_spec() == level && c.chunk_size_spec()
                == self.cpu_spec().chunk_size_spec() && c.workers_spec() == (
                self.cpu_spec().max_in_flight_spec(),
                gpu.max_in_flight_spec(),
            ),
            _ => self.cpu_spec().gives(algo, level, r),
        }
    }

    pub fn new(cpu: Arc<CpuBackend>, gpu: Option<Arc<GpuBackend>>) -> (r: Self)
        ensures
            r.cpu_spec() == *cpu,
            match gpu {
                Some(g) => r.gpu_spec() == Some(*g),
                None => r.gpu_spec() is None,
            },
    {
        HybridBackend { cpu, gpu }
    }
}

impl CodecBackend for HybridBackend {
    open spec fn name_spec(&self) -> Seq<char> {
        "hybrid"@
    }

    /// The value lies in the compressor: the host covers the rest.
    open spec fn supports_spec(&self, algo: Algorithm) -> Capability {
        backend::host_capability(algo)
    }

    fn name(&self) -> (r: &'static str) {
        "hybrid"
    }

    fn supports(&self, algo: Algorithm) -> (r: Capability) {
        self.cpu.supports(algo)
    }

    /// With a device, gzip chunks go to both. All else is left to the host.
    fn compressor(&self, algo: Algorithm, level: Level) -> (r: Result<StreamCompressor, Error>)
        ensures
            self.gives(algo, level, r),
    {
        match (algo, &self.gpu) {
            (Algorithm::Gzip, Some(gpu)) => Ok(
                StreamCompressor::HybridGzip(
                    HybridGzipCompressor {
                        level,
                        chunk_size: self.cpu.chunk_size(),
                        cpu_workers: self.cpu.max_in_flight(),
                        gpu_workers: gpu.max_in_flight(),
                    },
                ),
            ),
            (Algorithm::Zstd, _) => Ok(
                StreamCompressor::Zstd(
                    ZstdCompressor::new(level, self.cpu.chunk_size(), self.cpu.max_in_flight()),
                ),
            ),
            _ => self.cpu.compressor(algo, level),
        }
    }

    fn decompressor(&self, algo: Algorithm) -> (r: Result<StreamDecompressor, Error>)
        ensures
            r is Ok,
    {
        self.cpu.decompressor(algo)
    }
}

/// Gzip whose chunks go to the device while it has permits left, and to the
/// host otherwise. Either makes one member of each chunk.
#[derive(Debug, Clone, Copy)]
pub struct HybridGzipCompressor {
    level: Level,
    chunk_size: usize,
    cpu_workers: usize,
    gpu_workers: usize,
}

impl HybridGzipCompressor {
    pub closed spec fn level_spec(&self) -> Level {
        self.level
    }

    pub closed spec fn chunk_size_spec(&self) -> usize {
        self.chunk_size
    }

    /// How many chunks the host and the device work on at a time.
    pub closed spec fn workers_spec(&self) -> (usize, usize) {
        (self.cpu_workers, self.gpu_workers)
    }

    /// How many permits the device starts with.
    pub fn permits(&self) -> (r: usize)
        ensures
            r == self.workers_spec().1,
    {
        self.gpu_workers
    }

    /// The size of chunks, and how many may be under way: as many as host and
    /// device together take, so that neither is idle while the other is busy.
    pub fn layout(&self) -> (r: (usize, usize))
        requires
            self.workers_spec().0 + self.workers_spec().1 <= usize::MAX,
        ensures
            r.0 == self.chunk_size_spec(),
            r.1 == self.workers_spec().0 + self.workers_spec().1,
    {
        (self.chunk_size, self.cpu_workers + self.gpu_workers)
    }
}

impl Compressor for HybridGzipCompressor {
    open spec fn algorithm_spec(&self) -> Algorithm {
        Algorithm::Gzip
    }

    open spec fn encodes(&self, data: Seq<u8>, stream: Seq<u8>) -> bool {
        compress::host_member(compress::deflate_level(self.level_spec()), data, stream)
    }

    fn algorithm(&self) -> (r: Algorithm) {
        Algorithm::Gzip
    }

    /// Compresses one chunk on the host.
    fn compress(&self, data: &[u8]) -> (r: Result<Vec<u8>, Error>)
        ensures
            r is Ok,
    {
        GzipCompressor::new(self.level, self.chunk_size, self.cpu_workers).compress(data)
    }
}

/// What becomes of the permits when a chunk asks for one: the new number if one
/// is taken, `None` if there is none.
pub fn take_permit(permits: usize) -> (r: Option<usize>)
    ensures
        permits == 0 ==> r is None,
        permits > 0 ==> r == Some((permits - 1) as usize),
{
    if permits == 0 {
        None
    } else {
        Some(permits - 1)
    }
}

/// With a device, gzip goes to host and device together, at the level that was
/// asked for, in the chunks of the host, with the workers of both. All else is as
/// on the host.
pub proof fn law_hybrid_shares_gzip_alone(
    b: HybridBackend,
    algo: Algorithm,
    level: Level,
    writer: Result<StreamCompressor, Error>,
    reader: Result<StreamDecompressor, Error>,
    supports: Capability,
)
    requires
        call_ensures(HybridBackend::compressor, (&b, algo, level), writer),
        call_ensures(HybridBackend::decompressor, (&b, algo), reader),
        call_ensures(HybridBackend::supports, (&b, algo), supports),
    ensures
        (writer matches Ok(StreamCompressor::HybridGzip(_))) <==> algo is Gzip
            && b.gpu_spec() is Some,
        writer matches Ok(StreamCompressor::HybridGzip(c)) ==> {
            &&& c.level_spec() == level
            &&& c.chunk_size_spec() == b.cpu_spec().chunk_size_spec()
            &&& c.workers_spec().0 == b.cpu_spec().max_in_flight_spec()
            &&& c.workers_spec().1 == (b.gpu_spec()->0).max_in_flight_spec()
        },
        writer is Ok <==> algo is Deflate || algo is Gzip || algo is Zstd,
        writer matches Ok(c) ==> c.algorithm_spec() == algo,
        writer matches Ok(StreamCompressor::Deflate(c)) ==> c.level_spec() == level,
        writer matches Ok(StreamCompressor::Gzip(c)) ==> c.level_spec() == level
            && c.layout_spec() == (
            b.cpu_spec().chunk_size_spec(),
            b.cpu_spec().max_in_flight_spec(),
        ),
        writer matches Ok(StreamCompressor::Zstd(c)) ==> c.level_spec() == level
            && c.layout_spec() == (
            b.cpu_spec().chunk_size_spec(),
            b.cpu_spec().max_in_flight_spec(),
        ),
        reader matches Ok(d) && d.algorithm_spec() == algo,
        writer is Ok <==> supports.can_compress(),
        supports.can_decompress(),
{
}

/// A chunk that the host compresses for the hybrid compressor is the member that
/// the host makes of it alone, at the level that was asked for.
pub proof fn law_hybrid_host_member(
    h: HybridGzipCompressor,
    g: GzipCompressor,
    data: &[u8],
    hybrid: Result<Vec<u8>, Error>,
    host: Result<Vec<u8>, Error>,
)
    requires
        h.level_spec() == g.level_spec(),
        call_ensures(HybridGzipCompressor::compress, (&h, data), hybrid),
        call_ensures(GzipCompressor::compress, (&g, data), host),
    ensures
        hybrid matches Ok(a) && (host matches Ok(b) && a@ == b@),
{
}

/// Host and device together take as many chunks as each of them alone.
pub proof fn law_hybrid_layout(h: HybridGzipCompressor, r: (usize, usize), permits: usize)
    requires
        h.workers_spec().0 + h.workers_spec().1 <= usize::MAX,
        call_ensures(HybridGzipCompressor::layout, (&h,), r),
        call_ensures(HybridGzipCompressor::permits, (&h,), permits),
    ensures
        r.0 == h.chunk_size_spec(),
        r.1 == h.workers_spec().0 + permits,
        permits == h.workers_spec().1,
{
}

} // verus!
