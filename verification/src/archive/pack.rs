//! Making archives.
use crate::algorithm::{Algorithm, Level};
use crate::archive::format::ArchiveFormat;
use crate::codec::{CodecBackend, Compressor, StreamCompressor};
use crate::error::Error;
use crate::registry;
use crate::registry::BackendRegistry;
use crate::text;
use vstd::prelude::*;
use vstd::string::StringExecFns;

verus! {

/// How an archive is made.
#[derive(Debug, Clone, Copy, PartialEq, Eq, Structural)]
pub enum PackPlan {
    /// A zip archive.
    Zip,
    /// A tar archive, with its bytes compressed or not.
    Tar(Option<Algorithm>),
}

/// Says how the archive at a path is made, or why it is not.
pub fn plan_pack(path: &str) -> (r: Result<PackPlan, Error>)
    ensures
        match crate::archive::format::detected(path@) {
            Some(f) => if !f.writable_spec() {
                r matches Err(Error::InvalidArchive(m)) && m@ == f.variant_spec()
                    + " is not writable; gpzip can only produce zip / tar / tar.gz / tar.zst"@
            } else if f is Zip {
                r == Ok::<PackPlan, Error>(PackPlan::Zip)
            } else {
                r == Ok::<PackPlan, Error>(PackPlan::Tar(f.payload_spec()))
            },
            None => r matches Err(Error::InvalidArchive(m)) && m@ == "unknown format: "@ + path@,
        },
{
    let f = match crate::archive::format::known_format(path) {
        Ok(f) => f,
        Err(e) => return Err(e),
    };
    if !f.is_writable() {
        return Err(
            Error::InvalidArchive(
                f.variant().to_owned().concat(
                    " is not writable; gpzip can only produce zip / tar / tar.gz / tar.zst",
                ),
            ),
        );
    }
    match f {
        ArchiveFormat::Zip => Ok(PackPlan::Zip),
        _ => Ok(PackPlan::Tar(f.payload_algorithm())),
    }
}

/// The compressor that the bytes of a tar archive go through, if any: what the
/// first backend that can compress with the algorithm gives for it at the level.
pub fn open_tar_writer<B: CodecBackend>(
    algo: Option<Algorithm>,
    level: Level,
    registry: &BackendRegistry<B>,
) -> (r: Result<Option<StreamCompressor>, Error>)
    ensures
        algo is None ==> r == Ok::<Option<StreamCompressor>, Error>(None),
        algo matches Some(a) ==> registry::first_compressor(registry@, a, 0) >= registry@.len()
            ==> r == Err::<Option<StreamCompressor>, Error>(Error::NoBackend { algo: a }),
        algo matches Some(a) ==> registry::first_compressor(registry@, a, 0) < registry@.len()
            ==> exists|g: Result<StreamCompressor, Error>|
            #[trigger]
            call_ensures(
                B::compressor,
                (&*registry@[registry::first_compressor(registry@, a, 0)], a, level),
                g,
            ) && match g {
                Ok(c) => r == Ok::<Option<StreamCompressor>, Error>(Some(c)),
                Err(e) => r == Err::<Option<StreamCompressor>, Error>(e),
            },
        algo matches Some(a) ==> (r matches Ok(c) ==> c matches Some(comp)
            && comp.algorithm_spec() == a),
{
    let a = match algo {
        None => return Ok(None),
        Some(a) => a,
    };
    match registry.pick_compressor(a) {
        Ok(backend) => match backend.compressor(a, level) {
            Ok(comp) => Ok(Some(comp)),
            Err(e) => Err(e),
        },
        Err(e) => Err(e),
    }
}

/// The name that an input has at the top of a tar archive. An input without a
/// file name, which is shown as `shown`, is refused.
pub fn tar_name(name: Option<String>, shown: &str) -> (r: Result<String, Error>)
    ensures
        match name {
            Some(n) => r == Ok::<String, Error>(n),
            None => r matches Err(Error::InvalidArchive(m)) && m@ == "input has no file name: "@
                + shown@,
        },
{
    match name {
        Some(n) => Ok(n),
        None => Err(Error::InvalidArchive("input has no file name: ".to_owned().concat(shown))),
    }
}

/// The name of a directory in a zip archive, or `None` where the directory is
/// the root of the archive, which has no entry.
pub fn zip_directory_name(path: &str) -> (r: Option<String>)
    ensures
        if path@.len() == 0 {
            r is None
        } else {
            r matches Some(n) && n@ == path@ + "/"@
        },
{
    let name = path.to_owned().concat("/");
    proof {
        reveal_strlit("/");
        if name@ == "/"@ {
            assert(name@.len() == path@.len() + 1);
        } else if path@.len() == 0 {
            assert(name@ =~= "/"@);
        }
    }
    if text::same_text(name.as_str(), "/") {
        None
    } else {
        Some(name)
    }
}

} // verus!
