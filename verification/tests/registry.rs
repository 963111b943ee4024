use gpzip::algorithm::{Algorithm, Capability, Level};
use gpzip::cli::{build_registry, extractor, Backend, BackendChoice, Extractor, Settings};
use gpzip::codec::{
    CodecBackend, Compressor, Decompressor, StreamCompressor, StreamDecompressor,
};
use gpzip::cpu::backend::{default_threads, threads_for, CpuBackend, DEFAULT_CHUNK_SIZE};
use gpzip::error::Error;
use gpzip::gpu::stub::{GpuBackend, StubBackend};
use gpzip::hybrid::{take_permit, HybridBackend};
use gpzip::registry::BackendRegistry;
use std::sync::Arc;

struct MockBackend {
    name: &'static str,
    cap: Capability,
    supported: Algorithm,
}

impl CodecBackend for MockBackend {
    fn name(&self) -> &'static str {
        self.name
    }
    fn supports(&self, algo: Algorithm) -> Capability {
        if algo == self.supported {
            self.cap
        } else {
            Capability::Unsupported
        }
    }
    fn compressor(&self, _: Algorithm, _: Level) -> Result<StreamCompressor, Error> {
        unreachable!()
    }
    fn decompressor(&self, _: Algorithm) -> Result<StreamDecompressor, Error> {
        unreachable!()
    }
}

#[test]
fn picks_first_capable_backend() {
    let mut reg = BackendRegistry::new();
    reg.push(Arc::new(MockBackend {
        name: "gpu",
        cap: Capability::Both,
        supported: Algorithm::Deflate,
    }));
    reg.push(Arc::new(MockBackend {
        name: "cpu",
        cap: Capability::Both,
        supported: Algorithm::Deflate,
    }));
    let chosen = reg.pick_compressor(Algorithm::Deflate).unwrap();
    assert_eq!(chosen.name(), "gpu");
}

#[test]
fn falls_back_when_first_does_not_support() {
    let mut reg = BackendRegistry::new();
    reg.push(Arc::new(MockBackend {
        name: "gpu",
        cap: Capability::Unsupported,
        supported: Algorithm::Deflate,
    }));
    reg.push(Arc::new(MockBackend {
        name: "cpu",
        cap: Capability::Both,
        supported: Algorithm::Deflate,
    }));
    let chosen = reg.pick_compressor(Algorithm::Deflate).unwrap();
    assert_eq!(chosen.name(), "cpu");
}

#[test]
fn decompress_only_backend_cannot_compress() {
    let mut reg = BackendRegistry::new();
    reg.push(Arc::new(MockBackend {
        name: "cpu",
        cap: Capability::DecompressOnly,
        supported: Algorithm::Rar,
    }));
    assert!(reg.pick_compressor(Algorithm::Rar).is_err());
    assert!(reg.pick_decompressor(Algorithm::Rar).is_ok());
}

#[test]
fn no_backend_returns_error() {
    let reg: BackendRegistry<MockBackend> = BackendRegistry::new();
    match reg.pick_compressor(Algorithm::Zstd) {
        Err(Error::NoBackend {
            algo: Algorithm::Zstd,
        }) => {}
        other => panic!("expected NoBackend(Zstd), got {:?}", other.is_err()),
    }
}

#[test]
fn backends_are_found_by_name() {
    let mut reg = BackendRegistry::new();
    for name in ["a", "b"] {
        reg.push(Arc::new(MockBackend {
            name,
            cap: Capability::CompressOnly,
            supported: Algorithm::Gzip,
        }));
    }
    assert_eq!(reg.names(), vec!["a", "b"]);
    assert_eq!(reg.by_name("b").unwrap().name(), "b");
    assert!(reg.by_name("c").is_none());
    assert!(reg.pick_decompressor(Algorithm::Gzip).is_err());
    assert_eq!(reg.pick_compressor(Algorithm::Gzip).unwrap().name(), "a");
}

#[test]
fn capabilities() {
    assert!(Capability::Both.can_compress() && Capability::Both.can_decompress());
    assert!(!Capability::DecompressOnly.can_compress());
    assert!(Capability::DecompressOnly.can_decompress());
    assert!(Capability::CompressOnly.can_compress());
    assert!(!Capability::CompressOnly.can_decompress());
    assert!(!Capability::Unsupported.can_compress());
    assert!(!Capability::Unsupported.can_decompress());
}

#[test]
fn levels_are_clamped() {
    assert_eq!(Level::default().0, 5);
    assert_eq!(Level(200).clamp_to(0, 9), 9);
    assert_eq!(Level(0).clamp_to(1, 22), 1);
    assert_eq!(Level(7).clamp_to(0, 9), 7);
}

#[test]
fn host_backend_offers() {
    let b = CpuBackend::with_config(100, 3);
    assert_eq!(b.chunk_size(), 100);
    assert_eq!(b.max_in_flight(), 3);
    assert_eq!(b.name(), CpuBackend::NAME);
    assert_eq!(CpuBackend::new().chunk_size(), DEFAULT_CHUNK_SIZE);
    assert!(CpuBackend::default().max_in_flight() >= 1);
    match b.compressor(Algorithm::Gzip, Level(9)) {
        Ok(StreamCompressor::Gzip(c)) => assert_eq!(c.layout(), (100, 3)),
        _ => panic!("gzip expected"),
    }
    match b.compressor(Algorithm::Zstd, Level(9)) {
        Ok(StreamCompressor::Zstd(c)) => assert_eq!(c.layout(), (100, 3)),
        _ => panic!("zstd expected"),
    }
    match b.compressor(Algorithm::Bzip2, Level(9)) {
        Err(e) => assert_eq!(e.message(), "backend `cpu` cannot compress with Bzip2 (decompress-only)"),
        Ok(_) => panic!("no bzip2 compressor expected"),
    }
    for algo in [
        Algorithm::Deflate,
        Algorithm::Gzip,
        Algorithm::Zstd,
        Algorithm::Lzma,
        Algorithm::Bzip2,
        Algorithm::Rar,
    ] {
        assert!(b.supports(algo).can_decompress());
        assert_eq!(b.supports(algo).can_compress(), b.compressor(algo, Level(5)).is_ok());
        assert!(b.decompressor(algo).unwrap().algorithm() == algo);
    }
}

#[test]
fn device_backends_offer_nothing_by_themselves() {
    let stub = StubBackend::try_init().unwrap();
    assert_eq!(stub.name(), "gpu");
    assert!(matches!(stub.supports(Algorithm::Gzip), Capability::Unsupported));
    match stub.compressor(Algorithm::Gzip, Level(5)) {
        Err(e) => assert_eq!(e.message(), "backend `gpu` does not support algorithm Gzip"),
        Ok(_) => panic!("nothing expected"),
    }
    assert!(stub.decompressor(Algorithm::Zstd).is_err());
    let gpu = GpuBackend::new(3);
    assert_eq!(gpu.max_in_flight(), 3);
    match gpu.compressor(Algorithm::Deflate, Level(5)) {
        Err(e) => assert_eq!(
            e.message(),
            "codec error: GPU Deflate compressor not yet implemented (task #10)"
        ),
        Ok(_) => panic!("nothing expected"),
    }
    match gpu.decompressor(Algorithm::Lzma) {
        Err(e) => assert_eq!(e.message(), "backend `gpu` cannot decompress Lzma (compress-only)"),
        Ok(_) => panic!("nothing expected"),
    }
}

#[test]
fn hybrid_backend_sends_gzip_to_both() {
    let cpu = Arc::new(CpuBackend::with_config(64, 4));
    let both = HybridBackend::new(Arc::clone(&cpu), Some(Arc::new(GpuBackend::new(2))));
    assert_eq!(both.name(), "hybrid");
    match both.compressor(Algorithm::Gzip, Level(5)) {
        Ok(StreamCompressor::HybridGzip(c)) => {
            assert_eq!(c.layout(), (64, 6));
            assert_eq!(c.permits(), 2);
        }
        _ => panic!("hybrid gzip expected"),
    }
    assert!(matches!(
        both.compressor(Algorithm::Zstd, Level(5)),
        Ok(StreamCompressor::Zstd(_))
    ));
    let alone = HybridBackend::new(cpu, None);
    assert!(matches!(
        alone.compressor(Algorithm::Gzip, Level(5)),
        Ok(StreamCompressor::Gzip(_))
    ));
    assert!(alone.compressor(Algorithm::Lzma, Level(5)).is_err());
    assert_eq!(take_permit(2), Some(1));
    assert_eq!(take_permit(0), None);
}

#[test]
fn host_and_hybrid_chunks_are_read_back() {
    let cpu = Arc::new(CpuBackend::with_config(64, 4));
    let both = HybridBackend::new(cpu, Some(Arc::new(GpuBackend::new(2))));
    let data: Vec<u8> = b"the same bytes ".repeat(40);
    for algo in [Algorithm::Deflate, Algorithm::Gzip, Algorithm::Zstd] {
        for level in [0u8, 1, 4, 5, 6, 7, 8, 9, 255] {
            let c = both.compressor(algo, Level(level)).unwrap();
            assert!(c.algorithm() == algo);
            let stream = c.compress(&data).unwrap();
            assert_ne!(stream, data);
            assert_eq!(both.decompressor(algo).unwrap().decompress(&stream).unwrap(), data);
        }
    }
}

#[test]
fn registry_for_each_choice() {
    let settings = Settings::resolve(3, 1000).unwrap();
    let gpu = Some(GpuBackend::new(2));
    assert_eq!(build_registry(BackendChoice::Cpu, settings, gpu).names(), vec!["cpu"]);
    assert_eq!(build_registry(BackendChoice::Gpu, settings, gpu).names(), vec!["gpu", "hybrid", "cpu"]);
    assert_eq!(
        build_registry(BackendChoice::Auto, settings, gpu).names(),
        vec!["hybrid", "cpu"]
    );
    assert_eq!(build_registry(BackendChoice::Gpu, settings, None).names(), vec!["cpu"]);
    assert_eq!(build_registry(BackendChoice::Auto, settings, None).names(), vec!["cpu"]);
    let reg = build_registry(BackendChoice::Gpu, settings, gpu);
    let host = build_registry(BackendChoice::Cpu, settings, gpu);
    match &*host.pick_compressor(Algorithm::Gzip).unwrap() {
        Backend::Cpu(b) => {
            assert_eq!(b.chunk_size(), 1000);
            assert_eq!(b.max_in_flight(), 3);
        }
        _ => panic!("the host compresses"),
    }
    let chosen = reg.pick_compressor(Algorithm::Gzip).unwrap();
    assert_eq!(chosen.name(), "hybrid");
    assert!(matches!(
        chosen.compressor(Algorithm::Gzip, Level(5)),
        Ok(StreamCompressor::HybridGzip(_))
    ));
    assert!(reg.pick_compressor(Algorithm::Rar).is_err());
    assert!(reg.pick_decompressor(Algorithm::Rar).is_ok());
    let auto = build_registry(BackendChoice::Auto, settings, gpu);
    let chosen = auto.pick_compressor(Algorithm::Gzip).unwrap();
    assert!(matches!(
        chosen.compressor(Algorithm::Gzip, Level(5)),
        Ok(StreamCompressor::HybridGzip(_))
    ));
}

#[test]
fn settings_are_resolved() {
    assert_eq!(Settings::resolve(1, 0).unwrap_err(), "--chunk-size must be > 0");
    let s = Settings::resolve(0, 7).unwrap();
    assert_eq!(s.chunk_size, 7);
    assert_eq!(s.threads, num_cpus::get());
}

#[test]
fn threads_follow_the_processors() {
    assert_eq!(threads_for(0), 1);
    assert_eq!(threads_for(1), 1);
    assert_eq!(threads_for(12), 12);
    assert_eq!(default_threads(), threads_for(num_cpus::get()));
}

#[test]
fn extractors_by_format() {
    assert!(extractor("x.rar") == Extractor::Rar);
    assert!(extractor("x.7z") == Extractor::SevenZ);
    assert!(extractor("x.zip") == Extractor::Archive);
    assert!(extractor("x") == Extractor::Archive);
}

#[test]
fn messages_of_errors() {
    assert_eq!(Error::Io("x".to_string()).message(), "I/O error: x");
    assert_eq!(
        Error::NoBackend { algo: Algorithm::Zstd }.message(),
        "no backend available for Zstd"
    );
    assert_eq!(
        Error::InvalidArchive("x".to_string()).message(),
        "invalid archive: x"
    );
    assert_eq!(Error::Zip("x".to_string()).message(), "zip error: x");
    assert_eq!(Algorithm::Lzma.display(), "lzma");
}
