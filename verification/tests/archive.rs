use gpzip::algorithm::Algorithm;
use gpzip::archive::entry::Entry;
use gpzip::archive::format::{detect_format, known_format, ArchiveFormat};
use gpzip::archive::list::{
    container, decode_payload, list_archive, list_tar, open_tar_reader, plan_list, Container,
};
use gpzip::archive::pack::{open_tar_writer, plan_pack, tar_name, zip_directory_name, PackPlan};
use gpzip::archive::path::{file_name, mangled_name, safe_join};
use gpzip::archive::sevenz_list::{list_sevenz, listing_of};
use gpzip::archive::tar_list::{entries_of, overclaims, tar_entries};
use gpzip::archive::unpack::plan_unpack;
use gpzip::archive::zip_read;
use gpzip::archive::zip_read::{zip_entries, zip_entry_content, zip_rows};
use gpzip::algorithm::Level;
use gpzip::codec::{CodecBackend, Compressor, Decoded, StreamCompressor, StreamDecompressor};
use gpzip::cpu::backend::CpuBackend;
use gpzip::cpu::compress::GzipCompressor;
use gpzip::cpu::decompress::RarDecompressor;
use gpzip::error::Error;
use gpzip::gpu::stub::StubBackend;
use gpzip::progress::{outcome, BarAction, ProgressEvent};
use gpzip::registry::BackendRegistry;
use std::sync::Arc;

fn detect(s: &str) -> Option<ArchiveFormat> {
    detect_format(s)
}

#[test]
fn detects_zip() {
    assert_eq!(detect("foo.zip"), Some(ArchiveFormat::Zip));
    assert_eq!(detect("FOO.ZIP"), Some(ArchiveFormat::Zip));
}

#[test]
fn detects_compound_tar_extensions() {
    assert_eq!(detect("a.tar.gz"), Some(ArchiveFormat::TarGz));
    assert_eq!(detect("a.tgz"), Some(ArchiveFormat::TarGz));
    assert_eq!(detect("a.tar.zst"), Some(ArchiveFormat::TarZst));
    assert_eq!(detect("a.tar.xz"), Some(ArchiveFormat::TarXz));
    assert_eq!(detect("a.tar.bz2"), Some(ArchiveFormat::TarBz2));
    assert_eq!(detect("a.tar"), Some(ArchiveFormat::Tar));
}

#[test]
fn detects_rar_and_7z() {
    assert_eq!(detect("a.rar"), Some(ArchiveFormat::Rar));
    assert_eq!(detect("a.7z"), Some(ArchiveFormat::SevenZ));
}

#[test]
fn unknown_returns_none() {
    assert_eq!(detect("a.unknown"), None);
    assert_eq!(detect("noext"), None);
}

#[test]
fn writable_set_is_minimal() {
    assert!(ArchiveFormat::Zip.is_writable());
    assert!(ArchiveFormat::TarGz.is_writable());
    assert!(ArchiveFormat::TarZst.is_writable());
    assert!(!ArchiveFormat::TarXz.is_writable());
    assert!(!ArchiveFormat::Rar.is_writable());
    assert!(!ArchiveFormat::SevenZ.is_writable());
}

#[test]
fn payload_algorithm_mapping() {
    assert_eq!(
        ArchiveFormat::Zip.payload_algorithm(),
        Some(Algorithm::Deflate)
    );
    assert_eq!(
        ArchiveFormat::TarGz.payload_algorithm(),
        Some(Algorithm::Gzip)
    );
    assert_eq!(
        ArchiveFormat::TarZst.payload_algorithm(),
        Some(Algorithm::Zstd)
    );
    assert_eq!(ArchiveFormat::Tar.payload_algorithm(), None);
}

#[test]
fn the_remaining_formats() {
    assert_eq!(detect("a.tzst"), Some(ArchiveFormat::TarZst));
    assert_eq!(detect("a.TXZ"), Some(ArchiveFormat::TarXz));
    assert_eq!(detect("a.tbz2"), Some(ArchiveFormat::TarBz2));
    assert_eq!(detect("a.tbz"), Some(ArchiveFormat::TarBz2));
    assert!(ArchiveFormat::Tar.is_writable());
    assert!(!ArchiveFormat::TarBz2.is_writable());
    assert_eq!(ArchiveFormat::TarXz.payload_algorithm(), Some(Algorithm::Lzma));
    assert_eq!(ArchiveFormat::SevenZ.payload_algorithm(), Some(Algorithm::Lzma));
    assert_eq!(ArchiveFormat::TarBz2.payload_algorithm(), Some(Algorithm::Bzip2));
    assert_eq!(ArchiveFormat::Rar.payload_algorithm(), Some(Algorithm::Rar));
}

#[test]
fn only_the_file_name_counts() {
    assert_eq!(detect("dir.zip/file"), None);
    assert_eq!(detect("dir/x.tar.gz"), Some(ArchiveFormat::TarGz));
    assert_eq!(detect("x.zip/"), Some(ArchiveFormat::Zip));
    assert_eq!(detect("x.zip/."), Some(ArchiveFormat::Zip));
    assert_eq!(detect("x.zip/.."), None);
    assert_eq!(detect(""), None);
    assert_eq!(detect("/"), None);
}

#[test]
fn file_names_agree_with_the_standard_library() {
    for p in [
        "a", "a/b", "/a/b/", "a//b", "a/./b", "a/.", "./a", ".", "..", "a/..", "a/../b", "", "/",
        "//", "a/...", ".hidden", "\u{e4}/\u{f6}.zip",
    ] {
        let expected: Option<String> = std::path::Path::new(p)
            .file_name()
            .map(|n| n.to_str().unwrap().to_string());
        assert_eq!(file_name(p), expected, "{p:?}");
    }
}

#[test]
fn safe_join_rejects_traversal() {
    assert!(safe_join("/tmp", "../etc/passwd").is_err());
    assert!(safe_join("/tmp", "/etc/passwd").is_err());
}

#[test]
fn safe_join_accepts_normal_paths() {
    let p = safe_join("/tmp", "a/b/c.txt").unwrap();
    assert_eq!(p, "/tmp/a/b/c.txt");
}

#[test]
fn safe_join_handles_odd_paths() {
    assert_eq!(safe_join("/tmp/", "a").unwrap(), "/tmp/a");
    assert_eq!(safe_join("", "a/b").unwrap(), "a/b");
    assert_eq!(safe_join("/tmp", "./a//b/./c/").unwrap(), "/tmp/a/b/c");
    assert_eq!(safe_join("/tmp", "").unwrap(), "/tmp");
    assert_eq!(safe_join("/tmp", "...").unwrap(), "/tmp/...");
    match safe_join("/tmp", "a/../b") {
        Err(e) => assert_eq!(e.message(), "invalid archive: unsafe entry path: a/../b"),
        Ok(p) => panic!("{p}"),
    }
}

#[test]
fn joined_paths_stay_below_the_destination() {
    for entry in ["a", "a/b", "./x", "a//b", "a/./b/", "..a/b..", "...", ""] {
        let joined = safe_join("dest/dir", entry).unwrap();
        assert!(joined.starts_with("dest/dir"));
        assert!(!joined["dest/dir".len()..].split('/').any(|part| part == ".."));
    }
}

fn invalid(e: Error) -> String {
    match e {
        Error::InvalidArchive(m) => m,
        other => panic!("{}", other.message()),
    }
}

#[test]
fn listing_is_left_to_the_right_reader() {
    assert_eq!(plan_list("x/a.zip").ok(), Some(Container::Zip));
    assert_eq!(
        plan_list("a.tar.xz").ok(),
        Some(Container::Tar(ArchiveFormat::TarXz))
    );
    assert_eq!(
        invalid(plan_list("a.rar").unwrap_err()),
        "Rar listing not yet wired (use the codec-cpu archive extractor)"
    );
    assert_eq!(
        invalid(plan_list("a.7z").unwrap_err()),
        "SevenZ listing not yet wired (use the codec-cpu archive extractor)"
    );
    assert_eq!(invalid(plan_list("x/a.b").unwrap_err()), "unknown format: x/a.b");
    assert_eq!(
        invalid(list_archive("x/a.b", &host(), Vec::new()).unwrap_err()),
        "unknown format: x/a.b"
    );
    assert_eq!(
        invalid(list_archive("a.7z", &host(), Vec::new()).unwrap_err()),
        "SevenZ listing not yet wired (use the codec-cpu archive extractor)"
    );
    assert_eq!(container(ArchiveFormat::Rar), None);
    assert_eq!(container(ArchiveFormat::Tar), Some(Container::Tar(ArchiveFormat::Tar)));
}

#[test]
fn unpacking_is_planned_by_format() {
    assert_eq!(plan_unpack("a.zip").unwrap().ok(), Some(Container::Zip));
    assert_eq!(
        plan_unpack("a.tgz").unwrap().ok(),
        Some(Container::Tar(ArchiveFormat::TarGz))
    );
    assert_eq!(
        invalid(plan_unpack("a.7z").unwrap().unwrap_err()),
        "SevenZ extraction must be invoked via gpzip-codec-cpu"
    );
    assert_eq!(
        invalid(plan_unpack("file.unknownext").unwrap_err()),
        "unknown format: file.unknownext"
    );
    assert!(known_format("file.unknownext").is_err());
}

#[test]
fn unpacking_unknown_format_errors() {
    let err = plan_unpack("file.unknownext").unwrap_err();
    assert!(matches!(err, Error::InvalidArchive(_)));
}

#[test]
fn writable_formats_are_those_the_host_compresses() {
    let host = CpuBackend::new();
    for f in [
        ArchiveFormat::Zip,
        ArchiveFormat::Tar,
        ArchiveFormat::TarGz,
        ArchiveFormat::TarZst,
        ArchiveFormat::TarXz,
        ArchiveFormat::TarBz2,
        ArchiveFormat::Rar,
        ArchiveFormat::SevenZ,
    ] {
        let compresses: bool = match f.payload_algorithm() {
            Some(algo) => host.supports(algo).can_compress(),
            None => true,
        };
        assert_eq!(f.is_writable(), compresses);
    }
}

#[test]
fn packing_is_planned_by_format() {
    assert_eq!(plan_pack("a.zip").ok(), Some(PackPlan::Zip));
    assert_eq!(plan_pack("a.tar").ok(), Some(PackPlan::Tar(None)));
    assert_eq!(plan_pack("a.tar.gz").ok(), Some(PackPlan::Tar(Some(Algorithm::Gzip))));
    assert_eq!(plan_pack("a.tzst").ok(), Some(PackPlan::Tar(Some(Algorithm::Zstd))));
    assert_eq!(
        invalid(plan_pack("a.tar.xz").unwrap_err()),
        "TarXz is not writable; gpzip can only produce zip / tar / tar.gz / tar.zst"
    );
    assert_eq!(invalid(plan_pack("a").unwrap_err()), "unknown format: a");
}

#[test]
fn names_inside_archives() {
    assert_eq!(zip_directory_name("a/b"), Some("a/b/".to_string()));
    assert_eq!(zip_directory_name(""), None);
    assert_eq!(tar_name(Some("x".to_string()), "dir/x").unwrap(), "x");
    assert_eq!(
        invalid(tar_name(None, "dir/..").unwrap_err()),
        "input has no file name: dir/.."
    );
}

fn host() -> BackendRegistry<CpuBackend> {
    let mut r: BackendRegistry<CpuBackend> = BackendRegistry::new();
    r.push(Arc::new(CpuBackend::with_config(1024, 2)));
    r
}

#[test]
fn a_written_tar_is_read_back() {
    let tar: Vec<u8> = b"some tar bytes ".repeat(300);
    for (algo, format) in [
        (Some(Algorithm::Gzip), ArchiveFormat::TarGz),
        (Some(Algorithm::Zstd), ArchiveFormat::TarZst),
        (None, ArchiveFormat::Tar),
    ] {
        let file = match open_tar_writer(algo, Level(5), &host()).unwrap() {
            Some(c) => {
                assert_eq!(Some(c.algorithm()), algo);
                let packed = c.compress(&tar).unwrap();
                assert!(packed.len() < tar.len());
                packed
            }
            None => tar.clone(),
        };
        let source = open_tar_reader(format, &host(), file).unwrap();
        assert!(source.failure.is_none());
        assert_eq!(source.bytes, tar);
    }
}

fn tar_of(entries: &[(&[u8], &[u8], bool)]) -> Vec<u8> {
    let mut b = tar::Builder::new(Vec::new());
    for (name, content, is_dir) in entries {
        let mut h = tar::Header::new_gnu();
        h.as_mut_bytes()[..name.len()].copy_from_slice(name);
        h.set_size(content.len() as u64);
        h.set_entry_type(if *is_dir {
            tar::EntryType::Directory
        } else {
            tar::EntryType::Regular
        });
        h.set_cksum();
        b.append(&h, *content).unwrap();
    }
    b.into_inner().unwrap()
}

fn all(bytes: &[u8]) -> Decoded {
    Decoded { bytes: bytes.to_vec(), failure: None }
}

fn shown(entries: &[Entry]) -> Vec<(Vec<u8>, u64, bool)> {
    entries
        .iter()
        .map(|e| (e.path.clone(), e.size, e.is_dir))
        .collect()
}

#[test]
fn tar_archives_are_listed() {
    let tar = tar_of(&[
        (b"src/", b"", true),
        (b"src/a.txt", b"hello", false),
        (b"odd\xffname", b"12345678", false),
    ]);
    let expected = vec![
        (b"src/".to_vec(), 0, true),
        (b"src/a.txt".to_vec(), 5, false),
        (b"odd\xffname".to_vec(), 8, false),
    ];
    assert_eq!(shown(&tar_entries(all(&tar)).unwrap()), expected);
    assert_eq!(
        shown(&list_tar(ArchiveFormat::Tar, &host(), tar.clone()).unwrap()),
        expected
    );
    let gz = GzipCompressor::new(Level(5), 1000, 1).compress(&tar).unwrap();
    assert_eq!(
        shown(&list_tar(ArchiveFormat::TarGz, &host(), gz).unwrap()),
        expected
    );
    assert_eq!(
        shown(&list_archive("x/a.tar", &host(), tar.clone()).unwrap()),
        expected
    );
    assert!(tar_entries(all(b"")).unwrap().is_empty());
    let odd = &tar_entries(all(&tar)).unwrap()[2];
    assert_eq!(odd.line(), "-            8 odd\u{fffd}name");
}

#[test]
fn archives_that_cannot_be_listed() {
    let tar = tar_of(&[(b"a", b"some content", false), (b"b", b"", false)]);
    assert!(matches!(tar_entries(all(&tar[..700])), Err(Error::Io(_))));
    assert!(matches!(
        list_tar(ArchiveFormat::TarGz, &host(), tar.clone()),
        Err(Error::Io(_))
    ));
    let none: BackendRegistry<CpuBackend> = BackendRegistry::new();
    assert!(matches!(
        list_tar(ArchiveFormat::TarZst, &none, tar),
        Err(Error::NoBackend { algo: Algorithm::Zstd })
    ));
}

#[test]
fn a_tar_ends_before_what_follows_it() {
    let tar = tar_of(&[(b"a", b"some content", false), (b"b", b"", false)]);
    let expected = vec![(b"a".to_vec(), 12, false), (b"b".to_vec(), 0, false)];
    let mut file = GzipCompressor::new(Level(5), 100_000, 1).compress(&tar).unwrap();
    file.extend_from_slice(b"trailing bytes");
    let source = open_tar_reader(ArchiveFormat::TarGz, &host(), file.clone()).unwrap();
    assert!(source.failure.is_some());
    assert_eq!(source.bytes, tar);
    assert_eq!(
        shown(&list_tar(ArchiveFormat::TarGz, &host(), file.clone()).unwrap()),
        expected
    );
    assert_eq!(
        shown(&list_archive("a.tgz", &host(), file).unwrap()),
        expected
    );
}

#[test]
fn a_tar_that_breaks_off_is_an_error() {
    let tar = tar_of(&[(b"a", b"some content", false), (b"b", b"", false)]);
    // The second header is missing: with all of the file it is the end, with a
    // failure behind it is not.
    let part = &tar[..1024];
    assert_eq!(tar_entries(all(part)).unwrap().len(), 1);
    for n in [0, 100, 512, 600, 1024, 1100, 1536] {
        let broken = Decoded {
            bytes: tar[..n].to_vec(),
            failure: Some(Error::Io("it broke".to_string())),
        };
        match tar_entries(broken) {
            Err(Error::Io(m)) => assert_eq!(m, "it broke"),
            _ => panic!("the archive is not complete"),
        }
    }
    let ended = Decoded { bytes: tar, failure: Some(Error::Io("it broke".to_string())) };
    assert_eq!(tar_entries(ended).unwrap().len(), 2);
}

fn sparse_header(size: &[u8; 12]) -> Vec<u8> {
    let mut h = tar::Header::new_gnu();
    h.as_mut_bytes()[0] = b's';
    h.set_entry_type(tar::EntryType::GNUSparse);
    h.as_mut_bytes()[124..136].copy_from_slice(size);
    h.as_mut_bytes()[482] = 1;
    h.set_cksum();
    h.as_bytes().to_vec()
}

#[test]
fn sparse_files_that_claim_too_much_are_refused() {
    let mut huge = [0xffu8; 12];
    huge[0] = 0x80;
    let mut tar = tar_of(&[(b"a", b"x", false)]);
    tar.truncate(1024);
    tar.extend_from_slice(&sparse_header(&huge));
    tar.extend_from_slice(&[0; 1024]);
    assert!(overclaims(&tar));
    assert!(matches!(tar_entries(all(&tar)), Err(Error::Io(_))));
    let small = sparse_header(b"00000000010\0");
    assert!(!overclaims(&small));
    let mut with_record = small.clone();
    with_record.extend_from_slice(b"size=+1000000000000000000\n");
    assert!(overclaims(&with_record));
    let mut shorter = small;
    shorter.extend_from_slice(b"size=999999999999999999\n");
    assert!(!overclaims(&shorter));
    assert!(!overclaims(b"size=10000000000000000000"));
    assert!(!overclaims(b""));
}

type ZipFile<'a> = (&'a str, &'a [u8], bool);

fn zip_of(entries: &[ZipFile]) -> Vec<u8> {
    let opts = zip::write::SimpleFileOptions::default()
        .compression_method(zip::CompressionMethod::Deflated);
    let mut zw = zip::ZipWriter::new(std::io::Cursor::new(Vec::new()));
    for (name, content, is_dir) in entries {
        if *is_dir {
            zw.add_directory(*name, opts).unwrap();
        } else {
            zw.start_file(*name, opts).unwrap();
            std::io::Write::write_all(&mut zw, content).unwrap();
        }
    }
    zw.finish().unwrap().into_inner()
}

fn position(data: &[u8], what: &[u8]) -> usize {
    data.windows(what.len()).position(|w| w == what).unwrap()
}

#[test]
fn zip_archives_are_listed() {
    let text = b"some text, and some text again, and again some text".repeat(9);
    let zip = zip_of(&[
        ("src/", b"", true),
        ("/src/../a\\./b.txt", &text, false),
        ("e\u{fc}", b"", false),
    ]);
    let expected = vec![
        (b"src".to_vec(), 0, true),
        (b"src/a/b.txt".to_vec(), text.len() as u64, false),
        ("e\u{fc}".as_bytes().to_vec(), 0, false),
    ];
    assert_eq!(shown(&zip_entries(&zip).unwrap()), expected);
    assert_eq!(
        shown(&list_archive("x/a.zip", &host(), zip.clone()).unwrap()),
        expected
    );
    let content = zip_entry_content(&zip, 1);
    assert!(content.failure.is_none());
    assert_eq!(content.bytes, text);
    assert!(matches!(zip_entry_content(&zip, 3).failure, Some(Error::Io(_))));
    assert!(zip_entries(&zip_of(&[])).unwrap().is_empty());
}

#[test]
fn zip_names_are_those_of_the_zip_library() {
    let names = ["a\\b", "../../x", "/etc/passwd", "a/./b//c/", "a\0b", "..", "\\\\h\\s", "x..y"];
    for name in names {
        let zip = zip_of(&[(name, b"", false)]);
        let mut archive = zip::ZipArchive::new(std::io::Cursor::new(&zip)).unwrap();
        let expected = archive.by_index(0).unwrap().mangled_name();
        let listed = &zip_entries(&zip).unwrap()[0];
        assert_eq!(Some(listed.path.as_slice()), expected.to_str().map(str::as_bytes));
        assert!(safe_join("dest", &mangled_name(name)).is_ok());
    }
    assert_eq!(mangled_name("a\\..\\b/./c\0d"), "a/b/c");
    assert_eq!(mangled_name(""), "");
}

#[test]
fn zip_archives_that_cannot_be_read() {
    assert!(matches!(zip_entries(b"no zip at all"), Err(Error::Zip(_))));
    assert!(matches!(
        list_archive("a.zip", &host(), Vec::new()),
        Err(Error::Zip(_))
    ));
    let text = b"hello hello hello hello".to_vec();
    let zip = zip_of(&[("a", &text, false), ("b", b"", false)]);
    // The flag in the directory that says that an entry is encrypted.
    let mut locked = zip.clone();
    let at = position(&zip, b"PK\x01\x02");
    let second = at + 1 + position(&zip[at + 1..], b"PK\x01\x02");
    locked[second + 8] |= 1;
    let rows = zip_rows(&locked).unwrap();
    assert_eq!(rows.len(), 2);
    assert!(rows[0].is_ok());
    assert!(matches!(rows[1], Err(Error::Zip(_))));
    assert!(matches!(zip_entries(&locked), Err(Error::Zip(_))));
    // The checksum of the first entry in the directory.
    let mut damaged = zip;
    damaged[at + 16] ^= 1;
    assert_eq!(zip_entries(&damaged).unwrap().len(), 2);
    let content = zip_entry_content(&damaged, 0);
    assert!(matches!(content.failure, Some(Error::Io(_))));
}

#[test]
fn zip_rows_keep_their_order() {
    let rows = vec![
        Ok(("b/".to_string(), 0, true)),
        Err("locked".to_string()),
        Ok(("a".to_string(), 7, false)),
    ];
    match zip_read::listing_of(&rows) {
        Err(Error::Zip(m)) => assert_eq!(m, "locked"),
        _ => panic!("an entry is locked"),
    }
    let entries = zip_read::entries_of(&rows);
    assert_eq!(entries.len(), 3);
    match (&entries[0], &entries[1], &entries[2]) {
        (Ok(b), Err(Error::Zip(m)), Ok(a)) => {
            assert_eq!((b.path.as_slice(), b.size, b.is_dir), (b"b".as_slice(), 0, true));
            assert_eq!(m, "locked");
            assert_eq!((a.path.as_slice(), a.size, a.is_dir), (b"a".as_slice(), 7, false));
        }
        _ => panic!("one entry per row"),
    }
}

#[test]
fn sevenz_archives_are_listed() {
    let mut w = sevenz_rust2::ArchiveWriter::new(std::io::Cursor::new(Vec::new())).unwrap();
    let none: Option<&[u8]> = None;
    w.push_archive_entry(sevenz_rust2::ArchiveEntry::new_directory("src"), none).unwrap();
    let content: &[u8] = b"twelve bytes";
    w.push_archive_entry(sevenz_rust2::ArchiveEntry::new_file("src/a.txt"), Some(content))
        .unwrap();
    let file = w.finish().unwrap().into_inner();
    let mut listed = shown(&list_sevenz(&file).unwrap());
    listed.sort();
    assert_eq!(
        listed,
        vec![(b"src".to_vec(), 0, true), (b"src/a.txt".to_vec(), 12, false)]
    );
    match list_sevenz(b"no archive") {
        Err(Error::InvalidArchive(m)) => assert!(m.starts_with("7z open: ") && m.len() > 9),
        _ => panic!("there is no archive"),
    }
    assert_eq!(
        invalid(listing_of(Err("why".to_string())).unwrap_err()),
        "7z open: why"
    );
}

#[test]
fn a_size_that_cannot_be_read_is_shown_as_zero() {
    let rows = vec![(b"x".to_vec(), None, false), (b"y".to_vec(), Some(3), true)];
    assert_eq!(
        shown(&entries_of(&rows)),
        vec![(b"x".to_vec(), 0, false), (b"y".to_vec(), 3, true)]
    );
}

#[test]
fn the_writer_has_the_level_that_was_asked_for() {
    let data = b"a level decides how hard a compressor tries ".repeat(200);
    let at = |level: u8| -> Vec<u8> {
        match open_tar_writer(Some(Algorithm::Gzip), Level(level), &host()).unwrap() {
            Some(c) => c.compress(&data).unwrap(),
            None => panic!("a compressor is expected"),
        }
    };
    for level in [0u8, 5, 9] {
        let c = GzipCompressor::new(Level(level), 1024, 2);
        assert_eq!(at(level), c.compress(&data).unwrap());
    }
    assert!(at(0).len() > at(9).len());
}

#[test]
fn writing_needs_a_backend_that_can() {
    assert!(matches!(
        open_tar_writer(Some(Algorithm::Lzma), Level(5), &host()),
        Err(Error::NoBackend { algo: Algorithm::Lzma })
    ));
    let mut stub: BackendRegistry<StubBackend> = BackendRegistry::default();
    stub.push(Arc::new(StubBackend::try_init().unwrap()));
    assert!(matches!(
        open_tar_reader(ArchiveFormat::TarGz, &stub, vec![1, 2, 3]),
        Err(Error::NoBackend { algo: Algorithm::Gzip })
    ));
    assert_eq!(
        open_tar_reader(ArchiveFormat::Tar, &stub, vec![1, 2, 3]).unwrap().bytes,
        vec![1, 2, 3]
    );
}

#[test]
fn damaged_payloads_are_errors() {
    for format in [
        ArchiveFormat::TarGz,
        ArchiveFormat::TarZst,
        ArchiveFormat::TarXz,
        ArchiveFormat::TarBz2,
    ] {
        let data = b"not a stream of any kind".to_vec();
        let r = open_tar_reader(format, &host(), data.clone()).unwrap();
        assert!(matches!(r.failure, Some(Error::Io(_))));
        assert!(matches!(list_tar(format, &host(), data), Err(Error::Io(_))));
    }
    match decode_payload(&StreamDecompressor::Rar(RarDecompressor), b"x").failure {
        Some(Error::Io(m)) => {
            assert_eq!(m, "RAR is not a streaming codec; use the archive-layer extractor")
        }
        _ => panic!("RAR has no streams"),
    }
}

#[test]
fn hands_out_compressors_by_algorithm() {
    assert!(matches!(
        open_tar_writer(Some(Algorithm::Deflate), Level(1), &host()),
        Ok(Some(StreamCompressor::Deflate(_)))
    ));
}

#[test]
fn listing_lines() {
    let dir = Entry { path: b"src".to_vec(), size: 0, is_dir: true };
    let file = Entry { path: b"src/a b".to_vec(), size: 1234567, is_dir: false };
    let huge = Entry { path: b"h".to_vec(), size: 18446744073709551615, is_dir: false };
    for e in [&dir, &file, &huge] {
        let kind = if e.is_dir { "d" } else { "-" };
        let path = String::from_utf8_lossy(&e.path);
        assert_eq!(e.line(), format!("{kind} {:>12} {}", e.size, path));
    }
    assert_eq!(dir.line(), "d            0 src");
}

#[test]
fn progress_bar_follows_events() {
    let started = ProgressEvent::FileStarted { path: "a/b".to_string(), size: 7 };
    assert!(matches!(started.bar_action(), BarAction::NextFile(p) if p == "a/b"));
    assert!(matches!(ProgressEvent::Started { total_bytes: 3 }.bar_action(), BarAction::Keep));
    assert!(matches!(ProgressEvent::Bytes { delta: 3 }.bar_action(), BarAction::Keep));
    assert!(matches!(
        ProgressEvent::FileFinished { path: "a".to_string() }.bar_action(),
        BarAction::Keep
    ));
    assert!(matches!(ProgressEvent::Finished.bar_action(), BarAction::Finish(m) if m == "done"));
    assert!(matches!(
        ProgressEvent::Error("bad".to_string()).bar_action(),
        BarAction::Abandon(m) if m == "error: bad"
    ));
    assert!(matches!(outcome(&Ok(())), ProgressEvent::Finished));
    assert!(matches!(
        outcome(&Err(Error::Codec("x".to_string()))),
        ProgressEvent::Error(m) if m == "codec error: x"
    ));
}
