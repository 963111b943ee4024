//! What the command line decides before an archive is touched.
use crate::algorithm::{Algorithm, Capability, Level};
use crate::archive::format::{detect_format, ArchiveFormat};
use crate::codec::{CodecBackend, StreamCompressor, StreamDecompressor};
use crate::cpu::backend;
use crate::cpu::backend::CpuBackend;
use crate::error::Error;
use crate::gpu::stub::GpuBackend;
use crate::hybrid::HybridBackend;
use crate::registry;
use crate::registry::BackendRegistry;
use std::sync::Arc;
use vstd::prelude::*;

verus! {

/// Which backends the user wants.
#[derive(Debug, Clone, Copy, PartialEq, Eq, Structural)]
pub enum BackendChoice {
    /// Host and device together, where there is a device.
    Auto,
    /// The host alone.
    Cpu,
    /// The device wherever it has a part in the work, alone or with the host,
    /// and the host for the rest.
    Gpu,
}

/// How the work is cut up.
#[derive(Debug, Clone, Copy)]
pub struct Settings {
    pub threads: usize,
    pub chunk_size: usize,
}

impl Settings {
    /// At least one worker, and chunks that are not empty.
    pub open spec fn wf(&self) -> bool {
        self.threads > 0 && self.chunk_size > 0
    }

    /// Takes what the user asked for. No threads stand for one per processor;
    /// empty chunks are refused.
    pub fn resolve(threads: usize, chunk_size: usize) -> (r: Result<Self, &'static str>)
        ensures
            chunk_size == 0 ==> (r matches Err(m) && m@ == "--chunk-size must be > 0"@),
            chunk_size > 0 ==> (r matches Ok(s) && s.wf() && s.chunk_size == chunk_size && (threads
                > 0 ==> s.threads == threads) && (threads == 0 ==> call_ensures(
                backend::default_threads,
                (),
                s.threads,
            ))),
    {
        let threads: usize = if threads == 0 {
            backend::default_threads()
        } else {
            threads
        };
        if chunk_size == 0 {
            return Err("--chunk-size must be > 0");
        }
        Ok(Settings { threads, chunk_size })
    }
}

/// The backends that the command line chooses from.
pub enum Backend {
    Cpu(CpuBackend),
    Gpu(GpuBackend),
    Hybrid(HybridBackend),
}

impl CodecBackend for Backend {
    open spec fn name_spec(&self) -> Seq<char> {
        match self {
            Backend::Cpu(b) => b.name_spec(),
            Backend::Gpu(b) => b.name_spec(),
            Backend::Hybrid(b) => b.name_spec(),
        }
    }

    open spec fn supports_spec(&self, algo: Algorithm) -> Capability {
        match self {
            Backend::Cpu(b) => b.supports_spec(algo),
            Backend::Gpu(b) => b.supports_spec(algo),
            Backend::Hybrid(b) => b.supports_spec(algo),
        }
    }

    fn name(&self) -> (r: &'static str) {
        match self {
            Backend::Cpu(b) => b.name(),
            Backend::Gpu(b) => b.name(),
            Backend::Hybrid(b) => b.name(),
        }
    }

    fn supports(&self, algo: Algorithm) -> (r: Capability) {
        match self {
            Backend::Cpu(b) => b.supports(algo),
            Backend::Gpu(b) => b.supports(algo),
            Backend::Hybrid(b) => b.supports(algo),
        }
    }

    fn compressor(&self, algo: Algorithm, level: Level) -> (r: Result<StreamCompressor, Error>)
        ensures
            match *self {
                Backend::Cpu(b) => b.gives(algo, level, r),
                Backend::Gpu(b) => b.gives(algo, level, r),
                Backend::Hybrid(b) => b.gives(algo, level, r),
            },
    {
        match self {
            Backend::Cpu(b) => b.compressor(algo, level),
            Backend::Gpu(b) => b.compressor(algo, level),
            Backend::Hybrid(b) => b.compressor(algo, level),
        }
    }

    fn decompressor(&self, algo: Algorithm) -> (r: Result<StreamDecompressor, Error>)
        ensures
            !(self is Gpu) ==> r is Ok,
            self is Gpu ==> (r matches Err(Error::DecompressionUnsupported { backend, algo: a })
                && backend@ == "gpu"@ && a == algo),
    {
        match self {
            Backend::Cpu(b) => b.decompressor(algo),
            Backend::Gpu(b) => b.decompressor(algo),
            Backend::Hybrid(b) => b.decompressor(algo),
        }
    }
}

/// A host backend with the given settings.
pub open spec fn is_host(b: Backend, settings: Settings) -> bool {
    b matches Backend::Cpu(c) && c.chunk_size_spec() == settings.chunk_size
        && c.max_in_flight_spec() == settings.threads
}

/// A hybrid of a host backend with the given settings and the device.
pub open spec fn is_hybrid(b: Backend, settings: Settings, gpu: GpuBackend) -> bool {
    b matches Backend::Hybrid(h) && is_host(Backend::Cpu(h.cpu_spec()), settings) && h.gpu_spec()
        == Some(gpu)
}

/// The backends to try, the preferred ones first. `gpu` is the device backend,
/// if a device could be opened. The host always comes last, so that whatever it
/// can do is done: every format is read, and raw DEFLATE, gzip and zstd are
/// written. Where a device is wanted and there is one, gzip is written by host
/// and device together.
pub fn build_registry(choice: BackendChoice, settings: Settings, gpu: Option<GpuBackend>) -> (r:
    BackendRegistry<Backend>)
    requires
        settings.wf(),
    ensures
        match (choice, gpu) {
            (BackendChoice::Gpu, Some(g)) => r@.len() == 3 && *r@[0] == Backend::Gpu(g)
                && is_hybrid(*r@[1], settings, g) && is_host(*r@[2], settings),
            (BackendChoice::Auto, Some(g)) => r@.len() == 2 && is_hybrid(*r@[0], settings, g)
                && is_host(*r@[1], settings),
            _ => r@.len() == 1 && is_host(*r@[0], settings),
        },
        choice != BackendChoice::Cpu && gpu is Some ==> {
            let first = registry::first_compressor(r@, Algorithm::Gzip, 0);
            first < r@.len() && *r@[first] is Hybrid
        },
        forall|algo: Algorithm|
            (#[trigger] registry::first_decompressor(r@, algo, 0)) < r@.len(),
        forall|algo: Algorithm|
            (#[trigger] registry::first_compressor(r@, algo, 0)) < r@.len()
                <==> backend::host_capability(algo).can_compress(),
{
    let mut r: BackendRegistry<Backend> = BackendRegistry::new();
    let cpu = CpuBackend::with_config(settings.chunk_size, settings.threads);
    match choice {
        BackendChoice::Cpu => {},
        BackendChoice::Gpu => {
            if let Some(g) = gpu {
                let both = HybridBackend::new(Arc::new(cpu), Some(Arc::new(g)));
                r.push(Arc::new(Backend::Gpu(g)));
                r.push(Arc::new(Backend::Hybrid(both)));
            }
        },
        BackendChoice::Auto => {
            if let Some(g) = gpu {
                let both = HybridBackend::new(Arc::new(cpu), Some(Arc::new(g)));
                r.push(Arc::new(Backend::Hybrid(both)));
            }
        },
    }
    r.push(Arc::new(Backend::Cpu(cpu)));
    proof {
        reveal_with_fuel(registry::first_compressor, 3);
        assert forall|algo: Algorithm|
            (#[trigger] registry::first_decompressor(r@, algo, 0)) < r@.len() by {
            reveal_with_fuel(registry::first_decompressor, 4);
        }
        assert forall|algo: Algorithm|
            (#[trigger] registry::first_compressor(r@, algo, 0)) < r@.len()
                <==> backend::host_capability(algo).can_compress() by {
            reveal_with_fuel(registry::first_compressor, 4);
        }
    }
    r
}

/// Who lists and unpacks an archive.
#[derive(Debug, Clone, Copy, PartialEq, Eq, Structural)]
pub enum Extractor {
    /// The archive functions of this library.
    Archive,
    /// The RAR library.
    Rar,
    /// The 7z library.
    SevenZ,
}

/// Who lists and unpacks the archive at a path.
pub fn extractor(path: &str) -> (r: Extractor)
    ensures
        match crate::archive::format::detected(path@) {
            Some(ArchiveFormat::Rar) => r is Rar,
            Some(ArchiveFormat::SevenZ) => r is SevenZ,
            _ => r is Archive,
        },
{
    match detect_format(path) {
        Some(ArchiveFormat::Rar) => Extractor::Rar,
        Some(ArchiveFormat::SevenZ) => Extractor::SevenZ,
        _ => Extractor::Archive,
    }
}

/// The host is always there, last, with the settings. Where a device is wanted and
/// there is one, host and device together come before it, and where only the
/// device is wanted, that comes first of all.
pub proof fn law_registry_follows_the_choice(
    choice: BackendChoice,
    settings: Settings,
    gpu: Option<GpuBackend>,
    r: BackendRegistry<Backend>,
)
    requires
        settings.wf(),
        call_ensures(build_registry, (choice, settings, gpu), r),
    ensures
        r@.len() > 0,
        *r@.last() matches Backend::Cpu(c) && c.chunk_size_spec() == settings.chunk_size
            && c.max_in_flight_spec() == settings.threads,
        choice is Cpu || gpu is None ==> r@.len() == 1,
        !(choice is Cpu) && gpu is Some ==> {
            let n = r@.len();
            &&& n >= 2
            &&& *r@[n - 2] matches Backend::Hybrid(h) && h.gpu_spec() == gpu
                && h.cpu_spec().chunk_size_spec() == settings.chunk_size
                && h.cpu_spec().max_in_flight_spec() == settings.threads
        },
        choice is Auto && gpu is Some ==> r@.len() == 2,
        choice is Gpu && gpu is Some ==> r@.len() == 3 && *r@[0] == Backend::Gpu(gpu->0),
{
}

} // verus!
