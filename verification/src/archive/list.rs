//! Listing archives, and reading what is inside a compressed tar.
use crate::archive::entry::Entry;
use crate::archive::format::ArchiveFormat;
use crate::archive::tar_list;
use crate::archive::zip_read;
use crate::codec::{CodecBackend, Decoded, Decompressor, StreamDecompressor};
use crate::cpu::decompress;
use crate::cpu::streams;
use crate::error::Error;
use crate::registry;
use crate::registry::BackendRegistry;
use vstd::prelude::*;
use vstd::string::StringExecFns;

verus! {

/// What an archive is walked as.
#[derive(Debug, Clone, Copy, PartialEq, Eq, Structural)]
pub enum Container {
    /// A zip archive: its entries are found through its directory.
    Zip,
    /// A tar archive inside a stream of the format.
    Tar(ArchiveFormat),
}

/// The container of a format. RAR and 7z have libraries of their own.
pub open spec fn container_of(format: ArchiveFormat) -> Option<Container> {
    match format {
        ArchiveFormat::Zip => Some(Container::Zip),
        ArchiveFormat::Rar | ArchiveFormat::SevenZ => None,
        _ => Some(Container::Tar(format)),
    }
}

/// The container of a format.
pub fn container(format: ArchiveFormat) -> (r: Option<Container>)
    ensures
        r == container_of(format),
{
    match format {
        ArchiveFormat::Zip => Some(Container::Zip),
        ArchiveFormat::Tar
        | ArchiveFormat::TarGz
        | ArchiveFormat::TarZst
        | ArchiveFormat::TarXz
        | ArchiveFormat::TarBz2 => Some(Container::Tar(format)),
        ArchiveFormat::Rar | ArchiveFormat::SevenZ => None,
    }
}

/// Says how the archive at a path is listed, or why it is not.
pub fn plan_list(path: &str) -> (r: Result<Container, Error>)
    ensures
        match crate::archive::format::detected(path@) {
            Some(f) => match container_of(f) {
                Some(c) => r == Ok::<Container, Error>(c),
                None => r matches Err(Error::InvalidArchive(m)) && m@ == f.variant_spec()
                    + " listing not yet wired (use the codec-cpu archive extractor)"@,
            },
            None => r matches Err(Error::InvalidArchive(m)) && m@ == "unknown format: "@ + path@,
        },
{
    match crate::archive::format::known_format(path) {
        Ok(f) => match container(f) {
            Some(c) => Ok(c),
            None => Err(
                Error::InvalidArchive(
                    f.variant().to_owned().concat(
                        " listing not yet wired (use the codec-cpu archive extractor)",
                    ),
                ),
            ),
        },
        Err(e) => Err(e),
    }
}

/// What a decompressor that a backend gave, or its error, leads to: what it
/// decodes the data to, or the error.
pub open spec fn read_with(
    given: Result<StreamDecompressor, Error>,
    data: Seq<u8>,
    r: Result<Decoded, Error>,
) -> bool {
    match given {
        Ok(d) => r matches Ok(decoded) && decoded_by(d, data, decoded),
        Err(e) => r == Err::<Decoded, Error>(e),
    }
}

/// What decoding with a decompressor leads to: what the decoder of its format
/// gave. DEFLATE and gzip say when it comes to the end; of gzip, what complete members in front stand for is there
/// in any case.
pub open spec fn decoded_by(decoder: StreamDecompressor, data: Seq<u8>, r: Decoded) -> bool {
    &&& r.failure is None ==> decoder.decodes(data, r.bytes@)
    &&& r.failure matches Some(e) ==> e is Io
    &&& !(decoder is Rar) ==> exists|o: (Vec<u8>, Option<String>)|
        #[trigger] decoder.gave(data, o) && decompress::handed_on(o, r)
    &&& decoder is Rar ==> r.bytes@.len() == 0 && r.failure is Some
    &&& decoder is Deflate ==> (r.failure is None <==> streams::deflate_content(data) is Some)
    &&& decoder is Gzip ==> (r.failure is None <==> streams::gz_all(data) is Some)
    &&& decoder is Gzip ==> forall|a: Seq<u8>, d: Seq<u8>| #[trigger]
        streams::is_gz_stream(a, d) && a.is_prefix_of(data) ==> d.is_prefix_of(r.bytes@)
}

/// The tar archive in a file of the format: the file itself, or what it is
/// decompressed to by what the first capable backend gives. A failure is handed
/// on with what was read before it: the archive may have ended there already.
pub fn open_tar_reader<B: CodecBackend>(
    format: ArchiveFormat,
    registry: &BackendRegistry<B>,
    data: Vec<u8>,
) -> (r: Result<Decoded, Error>)
    ensures
        format.payload_spec() is None ==> r == Ok::<Decoded, Error>(
            Decoded { bytes: data, failure: None },
        ),
        format.payload_spec() matches Some(algo) ==> registry::first_decompressor(
            registry@,
            algo,
            0,
        ) >= registry@.len() ==> r == Err::<Decoded, Error>(Error::NoBackend { algo }),
        format.payload_spec() matches Some(algo) ==> registry::first_decompressor(
            registry@,
            algo,
            0,
        ) < registry@.len() ==> exists|g: Result<StreamDecompressor, Error>|
            #[trigger]
            call_ensures(
                B::decompressor,
                (&*registry@[registry::first_decompressor(registry@, algo, 0)], algo),
                g,
            ) && read_with(g, data@, r),
{
    let algo = match format.payload_algorithm() {
        None => return Ok(Decoded { bytes: data, failure: None }),
        Some(algo) => algo,
    };
    let backend = match registry.pick_decompressor(algo) {
        Ok(backend) => backend,
        Err(e) => return Err(e),
    };
    match backend.decompressor(algo) {
        Ok(decoder) => Ok(decode_payload(&decoder, data.as_slice())),
        Err(e) => Err(e),
    }
}

/// What a decompressor makes of a payload.
pub fn decode_payload(decoder: &StreamDecompressor, data: &[u8]) -> (r: Decoded)
    ensures
        decoded_by(*decoder, data@, r),
{
    decoder.decode(data)
}

/// What listing a tar archive leads to, given what was read of it.
pub open spec fn tar_listed(source: Result<Decoded, Error>, r: Result<Vec<Entry>, Error>) -> bool {
    match source {
        Ok(decoded) => tar_list::listed(decoded, r),
        Err(e) => r == Err::<Vec<Entry>, Error>(e),
    }
}

/// Lists the tar archive in a file of the format.
pub fn list_tar<B: CodecBackend>(
    format: ArchiveFormat,
    registry: &BackendRegistry<B>,
    data: Vec<u8>,
) -> (r: Result<Vec<Entry>, Error>)
    ensures
        exists|o: Result<Decoded, Error>|
            #[trigger]
            call_ensures(open_tar_reader::<B>, (format, registry, data), o) && tar_listed(o, r),
{
    match open_tar_reader(format, registry, data) {
        Ok(decoded) => tar_list::tar_entries(decoded),
        Err(e) => Err(e),
    }
}

/// Lists the archive at a path, given the bytes of the file.
pub fn list_archive<B: CodecBackend>(
    path: &str,
    registry: &BackendRegistry<B>,
    data: Vec<u8>,
) -> (r: Result<Vec<Entry>, Error>)
    ensures
        match crate::archive::format::detected(path@) {
            Some(f) => match container_of(f) {
                Some(Container::Zip) => zip_read::listed(data@, r),
                Some(Container::Tar(t)) => exists|o: Result<Decoded, Error>|
                    #[trigger]
                    call_ensures(open_tar_reader::<B>, (t, registry, data), o) && tar_listed(o, r),
                None => r matches Err(Error::InvalidArchive(m)) && m@ == f.variant_spec()
                    + " listing not yet wired (use the codec-cpu archive extractor)"@,
            },
            None => r matches Err(Error::InvalidArchive(m)) && m@ == "unknown format: "@ + path@,
        },
{
    match plan_list(path) {
        Ok(Container::Zip) => zip_read::zip_entries(data.as_slice()),
        Ok(Container::Tar(format)) => list_tar(format, registry, data),
        Err(e) => Err(e),
    }
}

/// Zip archives and the tar formats are read here; of RAR and 7z it is said that
/// another library reads them. Each tar format is read as itself.
pub proof fn law_containers(f: ArchiveFormat)
    ensures
        container_of(f) == Some(Container::Zip) <==> f is Zip,
        container_of(f) is None <==> f is Rar || f is SevenZ,
        f is Tar || f is TarGz || f is TarZst || f is TarXz || f is TarBz2 <==> container_of(f)
            == Some(Container::Tar(f)),
{
}

} // verus!
