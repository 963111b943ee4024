//! The device backends as the registry sees them.
use crate::algorithm::{Algorithm, Capability, Level};
use crate::codec::{CodecBackend, StreamCompressor, StreamDecompressor};
use crate::error::Error;
use vstd::prelude::*;

verus! {

/// Stands in for the device backend where none is built in. It supports
/// nothing, so that the registry falls through to the host.
#[derive(Debug, Clone, Copy)]
pub struct StubBackend;

impl Default for StubBackend {
    fn default() -> (r: Self)
        ensures
            r == StubBackend,
    {
        StubBackend
    }
}

impl StubBackend {
    pub const NAME: &'static str = "gpu";

    pub fn try_init() -> (r: Result<Self, Error>)
        ensures
            r == Ok::<StubBackend, Error>(StubBackend),
    {
        Ok(StubBackend)
    }
}

impl CodecBackend for StubBackend {
    open spec fn name_spec(&self) -> Seq<char> {
        "gpu"@
    }

    open spec fn supports_spec(&self, algo: Algorithm) -> Capability {
        Capability::Unsupported
    }

    fn name(&self) -> (r: &'static str) {
        "gpu"
    }

    fn supports(&self, algo: Algorithm) -> (r: Capability) {
        Capability::Unsupported
    }

    fn compressor(&self, algo: Algorithm, level: Level) -> (r: Result<StreamCompressor, Error>)
        ensures
            r matches Err(Error::UnsupportedAlgorithm { backend, algo: a }) && backend@ == "gpu"@
                && a == algo,
    {
        Err(Error::UnsupportedAlgorithm { backend: "gpu", algo })
    }

    fn decompressor(&self, algo: Algorithm) -> (r: Result<StreamDecompressor, Error>)
        ensures
            r matches Err(Error::UnsupportedAlgorithm { backend, algo: a }) && backend@ == "gpu"@
                && a == algo,
    {
        Err(Error::UnsupportedAlgorithm { backend: "gpu", algo })
    }
}

/// What the device backend offers by itself. Its DEFLATE compressor is still to
/// come, so it reports no capability and the registry falls through to the
/// host.
#[derive(Debug, Clone, Copy)]
pub struct GpuBackend {
    max_in_flight: usize,
}

impl GpuBackend {
    pub const NAME: &'static str = "gpu";

    pub closed spec fn max_in_flight_spec(&self) -> usize {
        self.max_in_flight
    }

    /// What this backend gives to one who asks for a compressor: an error.
    pub open spec fn gives(
        &self,
        algo: Algorithm,
        level: Level,
        r: Result<StreamCompressor, Error>,
    ) -> bool {
        if algo is Deflate {
            r matches Err(Error::Codec(m)) && m@
                == "GPU Deflate compressor not yet implemented (task #10)"@
        } else {
            r matches Err(Error::UnsupportedAlgorithm { backend, algo: a }) && backend@ == "gpu"@
                && a == algo
        }
    }

    /// A backend whose device works on so many chunks at a time.
    pub fn new(max_in_flight: usize) -> (r: Self)
        ensures
            r.max_in_flight_spec() == max_in_flight,
    {
        GpuBackend { max_in_flight }
    }

    pub fn max_in_flight(&self) -> (r: usize)
        ensures
            r == self.max_in_flight_spec(),
    {
        self.max_in_flight
    }
}

impl CodecBackend for GpuBackend {
    open spec fn name_spec(&self) -> Seq<char> {
        "gpu"@
    }

    open spec fn supports_spec(&self, algo: Algorithm) -> Capability {
        Capability::Unsupported
    }

    fn name(&self) -> (r: &'static str) {
        "gpu"
    }

    fn supports(&self, algo: Algorithm) -> (r: Capability) {
        Capability::Unsupported
    }

    fn compressor(&self, algo: Algorithm, level: Level) -> (r: Result<StreamCompressor, Error>)
        ensures
            self.gives(algo, level, r),
    {
        match algo {
            Algorithm::Deflate => Err(
                Error::Codec("GPU Deflate compressor not yet implemented (task #10)".to_owned()),
            ),
            other => Err(Error::UnsupportedAlgorithm { backend: "gpu", algo: other }),
        }
    }

    fn decompressor(&self, algo: Algorithm) -> (r: Result<StreamDecompressor, Error>)
        ensures
            r matches Err(Error::DecompressionUnsupported { backend, algo: a }) && backend@
                == "gpu"@ && a == algo,
    {
        Err(Error::DecompressionUnsupported { backend: "gpu", algo })
    }
}

/// The device backend alone offers nothing, whatever it is asked for, and says so.
pub proof fn law_device_alone_offers_nothing(
    g: GpuBackend,
    algo: Algorithm,
    level: Level,
    writer: Result<StreamCompressor, Error>,
    reader: Result<StreamDecompressor, Error>,
    supports: Capability,
    name: &'static str,
)
    requires
        call_ensures(GpuBackend::compressor, (&g, algo, level), writer),
        call_ensures(GpuBackend::decompressor, (&g, algo), reader),
        call_ensures(GpuBackend::supports, (&g, algo), supports),
        call_ensures(GpuBackend::name, (&g,), name),
    ensures
        supports is Unsupported,
        algo is Deflate ==> (writer matches Err(Error::Codec(m)) && m@
            == "GPU Deflate compressor not yet implemented (task #10)"@),
        !(algo is Deflate) ==> (writer matches Err(Error::UnsupportedAlgorithm { backend, algo: a })
            && backend@ == "gpu"@ && a == algo),
        reader matches Err(Error::DecompressionUnsupported { backend, algo: a }) && backend@
            == "gpu"@ && a == algo,
        name@ == "gpu"@,
{
}

} // verus!
