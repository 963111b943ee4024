//! Taking archives apart.
use crate::archive::list;
use crate::archive::list::Container;
use crate::error::Error;
use vstd::prelude::*;
use vstd::string::StringExecFns;

verus! {

/// Says what the archive at a path is unpacked as, or why it is not. That the
/// format is unknown is said at once; that it is left to another library, only
/// when the unpacking starts.
pub fn plan_unpack(path: &str) -> (r: Result<Result<Container, Error>, Error>)
    ensures
        match crate::archive::format::detected(path@) {
            Some(f) => r matches Ok(plan) && match list::container_of(f) {
                Some(c) => plan == Ok::<Container, Error>(c),
                None => plan matches Err(Error::InvalidArchive(m)) && m@ == f.variant_spec()
                    + " extraction must be invoked via gpzip-codec-cpu"@,
            },
            None => r matches Err(Error::InvalidArchive(m)) && m@ == "unknown format: "@ + path@,
        },
{
    match crate::archive::format::known_format(path) {
        Ok(f) => match list::container(f) {
            Some(c) => Ok(Ok(c)),
            None => Ok(
                Err(
                    Error::InvalidArchive(
                        f.variant().to_owned().concat(
                            " extraction must be invoked via gpzip-codec-cpu",
                        ),
                    ),
                ),
            ),
        },
        Err(e) => Err(e),
    }
}

} // verus!
