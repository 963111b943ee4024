//! The errors of the library and their messages.
use crate::algorithm::Algorithm;
use vstd::prelude::*;
use vstd::string::StringExecFns;

verus! {

#[derive(Debug)]
pub enum Error {
    Io(String),
    UnsupportedAlgorithm { backend: &'static str, algo: Algorithm },
    CompressionUnsupported { backend: &'static str, algo: Algorithm },
    DecompressionUnsupported { backend: &'static str, algo: Algorithm },
    NoBackend { algo: Algorithm },
    InvalidArchive(String),
    Codec(String),
    Zip(String),
}

impl Error {
    /// The message shown to users.
    pub open spec fn message_spec(self) -> Seq<char> {
        match self {
            Error::Io(e) => "I/O error: "@ + e@,
            Error::UnsupportedAlgorithm { backend, algo } => "backend `"@ + backend@
                + "` does not support algorithm "@ + algo.variant_spec(),
            Error::CompressionUnsupported { backend, algo } => "backend `"@ + backend@
                + "` cannot compress with "@ + algo.variant_spec() + " (decompress-only)"@,
            Error::DecompressionUnsupported { backend, algo } => "backend `"@ + backend@
                + "` cannot decompress "@ + algo.variant_spec() + " (compress-only)"@,
            Error::NoBackend { algo } => "no backend available for "@ + algo.variant_spec(),
            Error::InvalidArchive(m) => "invalid archive: "@ + m@,
            Error::Codec(m) => "codec error: "@ + m@,
            Error::Zip(m) => "zip error: "@ + m@,
        }
    }

    pub fn message(&self) -> (r: String)
        ensures
            r@ == self.message_spec(),
    {
        match self {
            Error::Io(e) => "I/O error: ".to_owned().concat(e.as_str()),
            Error::UnsupportedAlgorithm { backend, algo } => "backend `".to_owned().concat(
                backend,
            ).concat("` does not support algorithm ").concat(algo.variant()),
            Error::CompressionUnsupported { backend, algo } => "backend `".to_owned().concat(
                backend,
            ).concat("` cannot compress with ").concat(algo.variant()).concat(" (decompress-only)"),
            Error::DecompressionUnsupported { backend, algo } => "backend `".to_owned().concat(
                backend,
            ).concat("` cannot decompress ").concat(algo.variant()).concat(" (compress-only)"),
            Error::NoBackend { algo } => "no backend available for ".to_owned().concat(
                algo.variant(),
            ),
            Error::InvalidArchive(m) => "invalid archive: ".to_owned().concat(m.as_str()),
            Error::Codec(m) => "codec error: ".to_owned().concat(m.as_str()),
            Error::Zip(m) => "zip error: ".to_owned().concat(m.as_str()),
        }
    }
}

/// A message says what kind of error it is, and then all that is known of it.
pub proof fn law_messages(e: Error, r: String)
    requires
        call_ensures(Error::message, (&e,), r),
    ensures
        e matches Error::Io(m) ==> r@ == "I/O error: "@ + m@,
        e matches Error::InvalidArchive(m) ==> r@ == "invalid archive: "@ + m@,
        e matches Error::Codec(m) ==> r@ == "codec error: "@ + m@,
        e matches Error::Zip(m) ==> r@ == "zip error: "@ + m@,
        e matches Error::NoBackend { algo } ==> r@ == "no backend available for "@
            + algo.variant_spec(),
        e matches Error::UnsupportedAlgorithm { backend, algo } ==> r@ == "backend `"@ + backend@
            + "` does not support algorithm "@ + algo.variant_spec(),
        e matches Error::CompressionUnsupported { backend, algo } ==> r@ == "backend `"@
            + backend@ + "` cannot compress with "@ + algo.variant_spec()
            + " (decompress-only)"@,
        e matches Error::DecompressionUnsupported { backend, algo } ==> r@ == "backend `"@
            + backend@ + "` cannot decompress "@ + algo.variant_spec() + " (compress-only)"@,
{
}

} // verus!
