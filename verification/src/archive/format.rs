//! The formats of archives.
use crate::algorithm::Algorithm;
use crate::archive::path;
use crate::cpu::backend;
use crate::error::Error;
use crate::text;
use vstd::prelude::*;
use vstd::string::StringExecFns;

verus! {

#[derive(Debug, Clone, Copy, PartialEq, Eq, Structural)]
pub enum ArchiveFormat {
    Zip,
    Tar,
    TarGz,
    TarZst,
    TarXz,
    TarBz2,
    Rar,
    SevenZ,
}

impl ArchiveFormat {
    pub open spec fn payload_spec(self) -> Option<Algorithm> {
        match self {
            ArchiveFormat::Zip => Some(Algorithm::Deflate),
            ArchiveFormat::TarGz => Some(Algorithm::Gzip),
            ArchiveFormat::TarZst => Some(Algorithm::Zstd),
            ArchiveFormat::TarXz | ArchiveFormat::SevenZ => Some(Algorithm::Lzma),
            ArchiveFormat::TarBz2 => Some(Algorithm::Bzip2),
            ArchiveFormat::Rar => Some(Algorithm::Rar),
            ArchiveFormat::Tar => None,
        }
    }

    /// The algorithm of this container's payload, if it has one. Entries of a
    /// zip archive are raw DEFLATE; a `.tar.gz` file is a gzip stream.
    pub fn payload_algorithm(self) -> (r: Option<Algorithm>)
        ensures
            r == self.payload_spec(),
    {
        match self {
            ArchiveFormat::Zip => Some(Algorithm::Deflate),
            ArchiveFormat::TarGz => Some(Algorithm::Gzip),
            ArchiveFormat::TarZst => Some(Algorithm::Zstd),
            ArchiveFormat::TarXz | ArchiveFormat::SevenZ => Some(Algorithm::Lzma),
            ArchiveFormat::TarBz2 => Some(Algorithm::Bzip2),
            ArchiveFormat::Rar => Some(Algorithm::Rar),
            ArchiveFormat::Tar => None,
        }
    }

    pub open spec fn writable_spec(self) -> bool {
        self is Zip || self is Tar || self is TarGz || self is TarZst
    }

    /// Whether archives of this format can be made, not only read.
    pub fn is_writable(self) -> (r: bool)
        ensures
            r == self.writable_spec(),
    {
        match self {
            ArchiveFormat::Zip
            | ArchiveFormat::Tar
            | ArchiveFormat::TarGz
            | ArchiveFormat::TarZst => true,
            _ => false,
        }
    }

    pub open spec fn variant_spec(self) -> Seq<char> {
        match self {
            ArchiveFormat::Zip => "Zip"@,
            ArchiveFormat::Tar => "Tar"@,
            ArchiveFormat::TarGz => "TarGz"@,
            ArchiveFormat::TarZst => "TarZst"@,
            ArchiveFormat::TarXz => "TarXz"@,
            ArchiveFormat::TarBz2 => "TarBz2"@,
            ArchiveFormat::Rar => "Rar"@,
            ArchiveFormat::SevenZ => "SevenZ"@,
        }
    }

    /// The name of the variant, as messages have it.
    pub fn variant(self) -> (r: &'static str)
        ensures
            r@ == self.variant_spec(),
    {
        match self {
            ArchiveFormat::Zip => "Zip",
            ArchiveFormat::Tar => "Tar",
            ArchiveFormat::TarGz => "TarGz",
            ArchiveFormat::TarZst => "TarZst",
            ArchiveFormat::TarXz => "TarXz",
            ArchiveFormat::TarBz2 => "TarBz2",
            ArchiveFormat::Rar => "Rar",
            ArchiveFormat::SevenZ => "SevenZ",
        }
    }
}

/// A letter of ASCII in lower case; any other character as it is.
pub open spec fn lower(c: char) -> char {
    if 'A' <= c <= 'Z' {
        (c as u32 + 32) as char
    } else {
        c
    }
}

/// Text with the letters of ASCII in lower case.
pub open spec fn lowered(s: Seq<char>) -> Seq<char> {
    s.map_values(|c: char| lower(c))
}

/// `s` ends with `suffix`.
pub open spec fn ends_with(s: Seq<char>, suffix: Seq<char>) -> bool {
    s.len() >= suffix.len() && s.skip(s.len() - suffix.len()) == suffix
}

/// The format that a file name, in lower case, stands for.
pub open spec fn format_of_name(name: Seq<char>) -> Option<ArchiveFormat> {
    if ends_with(name, ".tar.gz"@) || ends_with(name, ".tgz"@) {
        Some(ArchiveFormat::TarGz)
    } else if ends_with(name, ".tar.zst"@) || ends_with(name, ".tzst"@) {
        Some(ArchiveFormat::TarZst)
    } else if ends_with(name, ".tar.xz"@) || ends_with(name, ".txz"@) {
        Some(ArchiveFormat::TarXz)
    } else if ends_with(name, ".tar.bz2"@) || ends_with(name, ".tbz2"@) || ends_with(
        name,
        ".tbz"@,
    ) {
        Some(ArchiveFormat::TarBz2)
    } else if ends_with(name, ".tar"@) {
        Some(ArchiveFormat::Tar)
    } else if ends_with(name, ".zip"@) {
        Some(ArchiveFormat::Zip)
    } else if ends_with(name, ".rar"@) {
        Some(ArchiveFormat::Rar)
    } else if ends_with(name, ".7z"@) {
        Some(ArchiveFormat::SevenZ)
    } else {
        None
    }
}

/// The format of the archive at a path, by the name of the file alone.
pub open spec fn detected(path: Seq<char>) -> Option<ArchiveFormat> {
    match path::file_name_spec(path) {
        Some(name) => format_of_name(lowered(name)),
        None => None,
    }
}

fn to_lower(c: char) -> (r: char)
    ensures
        r == lower(c),
{
    if 'A' <= c && c <= 'Z' {
        (c as u8 + 32) as char
    } else {
        c
    }
}

fn lower_chars(s: &str) -> (r: Vec<char>)
    ensures
        r@ == lowered(s@),
{
    let chars = text::chars_of(s);
    let mut out: Vec<char> = Vec::new();
    let mut i: usize = 0;
    while i < chars.len()
        invariant
            i <= chars@.len(),
            chars@ == s@,
            out@ == lowered(s@).take(i as int),
        decreases chars@.len() - i,
    {
        out.push(to_lower(chars[i]));
        i = i + 1;
        assert(out@ =~= lowered(s@).take(i as int));
    }
    assert(lowered(s@).take(s@.len() as int) =~= lowered(s@));
    out
}

fn has_suffix(name: &Vec<char>, suffix: &str) -> (r: bool)
    ensures
        r == ends_with(name@, suffix@),
{
    let tail = text::chars_of(suffix);
    let n: usize = name.len();
    if n < tail.len() {
        return false;
    }
    let from: usize = n - tail.len();
    let mut i: usize = 0;
    while i < tail.len()
        invariant
            i <= tail@.len(),
            tail@ == suffix@,
            from + tail@.len() == name@.len() == n,
            forall|k: int| 0 <= k < i ==> name@[from + k] == #[trigger] suffix@[k],
        decreases tail@.len() - i,
    {
        if name[from + i] != tail[i] {
            assert(name@.skip(from as int)[i as int] != suffix@[i as int]);
            return false;
        }
        i = i + 1;
    }
    assert(name@.skip(from as int) =~= suffix@);
    true
}

/// The format of the archive at a path, as far as its name tells. Extensions
/// made of two parts come before those of one.
pub fn detect_format(path: &str) -> (r: Option<ArchiveFormat>)
    ensures
        r == detected(path@),
{
    let file = match path::file_name(path) {
        Some(file) => file,
        None => return None,
    };
    let name = lower_chars(file.as_str());
    if has_suffix(&name, ".tar.gz") || has_suffix(&name, ".tgz") {
        return Some(ArchiveFormat::TarGz);
    }
    if has_suffix(&name, ".tar.zst") || has_suffix(&name, ".tzst") {
        return Some(ArchiveFormat::TarZst);
    }
    if has_suffix(&name, ".tar.xz") || has_suffix(&name, ".txz") {
        return Some(ArchiveFormat::TarXz);
    }
    if has_suffix(&name, ".tar.bz2") || has_suffix(&name, ".tbz2") || has_suffix(&name, ".tbz") {
        return Some(ArchiveFormat::TarBz2);
    }
    if has_suffix(&name, ".tar") {
        return Some(ArchiveFormat::Tar);
    }
    if has_suffix(&name, ".zip") {
        return Some(ArchiveFormat::Zip);
    }
    if has_suffix(&name, ".rar") {
        return Some(ArchiveFormat::Rar);
    }
    if has_suffix(&name, ".7z") {
        return Some(ArchiveFormat::SevenZ);
    }
    None
}

/// The format of the archive at a path, or the error that it has none.
pub fn known_format(path: &str) -> (r: Result<ArchiveFormat, Error>)
    ensures
        match detected(path@) {
            Some(format) => r == Ok::<ArchiveFormat, Error>(format),
            None => r matches Err(Error::InvalidArchive(m)) && m@ == "unknown format: "@ + path@,
        },
{
    match detect_format(path) {
        Some(format) => Ok(format),
        None => Err(Error::InvalidArchive("unknown format: ".to_owned().concat(path))),
    }
}

/// The host can make exactly the formats that are writable: those whose payload
/// it can compress, or that have none. It can read the payload of all formats.
pub proof fn law_writable_formats_are_those_the_host_compresses(f: ArchiveFormat)
    ensures
        f.writable_spec() <==> (match f.payload_spec() {
            Some(algo) => backend::host_capability(algo).can_compress(),
            None => true,
        }),
        f.payload_spec() matches Some(algo) ==> backend::host_capability(algo).can_decompress(),
{
}

/// The two characters are the same letter, the second in lower case; or the same
/// character.
pub open spec fn same_letter(a: char, b: char) -> bool {
    if 'A' <= a <= 'Z' {
        b == (a as u32 + 32) as char
    } else {
        a == b
    }
}

/// The name ends in the suffix, which is in lower case, in whatever case.
pub open spec fn ends_in(name: Seq<char>, suffix: Seq<char>) -> bool {
    &&& name.len() >= suffix.len()
    &&& forall|i: int|
        0 <= i < suffix.len() ==> same_letter(
            name[name.len() - suffix.len() + i],
            #[trigger] suffix[i],
        )
}

proof fn lemma_ends(name: Seq<char>, suffix: Seq<char>)
    requires
        suffix.len() >= 3,
    ensures
        ends_in(name, suffix) <==> ends_with(lowered(name), suffix),
        ends_with(lowered(name), suffix) ==> {
            let low = lowered(name);
            let n = low.len();
            let k = suffix.len();
            n >= 3 && low[n - 1] == suffix[k - 1] && low[n - 2] == suffix[k - 2] && low[n - 3]
                == suffix[k - 3]
        },
{
    let low = lowered(name);
    let n = name.len();
    let k = suffix.len();
    assert(low.len() == n);
    if n >= k {
        let tail = low.skip(n - k);
        assert forall|i: int| 0 <= i < k implies (same_letter(name[n - k + i], #[trigger] suffix[i])
            <==> tail[i] == suffix[i]) by {
            let a = name[n - k + i];
            assert(tail[i] == lower(a));
        }
        if ends_in(name, suffix) {
            assert forall|i: int| 0 <= i < k implies tail[i] == suffix[i] by {
                assert(same_letter(name[n - k + i], suffix[i]));
            }
            assert(tail =~= suffix);
        }
        if ends_with(low, suffix) {
            assert(tail == suffix);
            assert(tail[k - 1] == low[n - 1] && tail[k - 2] == low[n - 2] && tail[k - 3]
                == low[n - 3]);
            assert forall|i: int| 0 <= i < k implies same_letter(
                name[n - k + i],
                #[trigger] suffix[i],
            ) by {
                assert(tail[i] == suffix[i]);
            }
        }
    }
}

/// The file of this name has that format: there is one for each suffix, and none
/// without.
pub open spec fn has_format(name: Seq<char>, r: Option<ArchiveFormat>) -> bool {
    &&& r == Some(ArchiveFormat::TarGz) <==> ends_in(name, ".tar.gz"@) || ends_in(
        name,
        ".tgz"@,
    )
    &&& r == Some(ArchiveFormat::TarZst) <==> ends_in(name, ".tar.zst"@) || ends_in(
        name,
        ".tzst"@,
    )
    &&& r == Some(ArchiveFormat::TarXz) <==> ends_in(name, ".tar.xz"@) || ends_in(
        name,
        ".txz"@,
    )
    &&& r == Some(ArchiveFormat::TarBz2) <==> ends_in(name, ".tar.bz2"@) || ends_in(
        name,
        ".tbz2"@,
    ) || ends_in(name, ".tbz"@)
    &&& r == Some(ArchiveFormat::Tar) <==> ends_in(name, ".tar"@)
    &&& r == Some(ArchiveFormat::Zip) <==> ends_in(name, ".zip"@)
    &&& r == Some(ArchiveFormat::Rar) <==> ends_in(name, ".rar"@)
    &&& r == Some(ArchiveFormat::SevenZ) <==> ends_in(name, ".7z"@)
}

proof fn lemma_has_format(name: Seq<char>)
    ensures
        has_format(name, format_of_name(lowered(name))),
{
    reveal_strlit(".tar.gz");
    reveal_strlit(".tgz");
    reveal_strlit(".tar.zst");
    reveal_strlit(".tzst");
    reveal_strlit(".tar.xz");
    reveal_strlit(".txz");
    reveal_strlit(".tar.bz2");
    reveal_strlit(".tbz2");
    reveal_strlit(".tbz");
    reveal_strlit(".tar");
    reveal_strlit(".zip");
    reveal_strlit(".rar");
    reveal_strlit(".7z");
    lemma_ends(name, ".tar.gz"@);
    lemma_ends(name, ".tgz"@);
    lemma_ends(name, ".tar.zst"@);
    lemma_ends(name, ".tzst"@);
    lemma_ends(name, ".tar.xz"@);
    lemma_ends(name, ".txz"@);
    lemma_ends(name, ".tar.bz2"@);
    lemma_ends(name, ".tbz2"@);
    lemma_ends(name, ".tbz"@);
    lemma_ends(name, ".tar"@);
    lemma_ends(name, ".zip"@);
    lemma_ends(name, ".rar"@);
    lemma_ends(name, ".7z"@);
}

/// The format goes by the end of the file name alone, in whatever case, and
/// wherever the file is. Every suffix has one format, and there is a format only
/// where the name has one of the suffixes. The name is the last part of the path
/// that names something.
pub proof fn law_format_goes_by_the_suffix(
    path: &str,
    parts: Seq<Seq<char>>,
    r: Option<ArchiveFormat>,
)
    requires
        call_ensures(detect_format, (path,), r),
        parts.len() > 0,
        path::without_slashes(parts),
        path@ == path::joined(parts),
    ensures
        ({
            let named = parts.filter(|s: Seq<char>| s.len() > 0 && s != "."@);
            named.len() == 0 || named.last() == ".."@ ==> r is None
        }),
        ({
            let named = parts.filter(|s: Seq<char>| s.len() > 0 && s != "."@);
            named.len() > 0 && named.last() != ".."@ ==> has_format(named.last(), r)
        }),
{
    let named = parts.filter(|s: Seq<char>| s.len() > 0 && s != "."@);
    path::lemma_file_name(parts);
    if named.len() > 0 && named.last() != ".."@ {
        lemma_has_format(named.last());
    }
}

/// No two formats have the same payload but those of 7z and xz, and a tar archive
/// is the only one without.
pub proof fn law_payloads(f: ArchiveFormat, g: ArchiveFormat)
    ensures
        f.payload_spec() is None <==> f is Tar,
        f.payload_spec() == g.payload_spec() ==> f == g || ((f is TarXz || f is SevenZ) && (
        g is TarXz || g is SevenZ)),
        f.payload_spec() == Some(Algorithm::Deflate) <==> f is Zip,
        f.payload_spec() == Some(Algorithm::Gzip) <==> f is TarGz,
        f.payload_spec() == Some(Algorithm::Zstd) <==> f is TarZst,
        f.payload_spec() == Some(Algorithm::Lzma) <==> f is TarXz || f is SevenZ,
        f.payload_spec() == Some(Algorithm::Bzip2) <==> f is TarBz2,
        f.payload_spec() == Some(Algorithm::Rar) <==> f is Rar,
{
}

/// Every format has its own name in messages, and zip, tar, tar.gz and tar.zst are
/// the formats that can be written.
pub proof fn law_format_names(f: ArchiveFormat, named: &'static str, writable: bool)
    requires
        call_ensures(ArchiveFormat::variant, (f,), named),
        call_ensures(ArchiveFormat::is_writable, (f,), writable),
    ensures
        f is Zip ==> named@ == "Zip"@ && writable,
        f is Tar ==> named@ == "Tar"@ && writable,
        f is TarGz ==> named@ == "TarGz"@ && writable,
        f is TarZst ==> named@ == "TarZst"@ && writable,
        f is TarXz ==> named@ == "TarXz"@ && !writable,
        f is TarBz2 ==> named@ == "TarBz2"@ && !writable,
        f is Rar ==> named@ == "Rar"@ && !writable,
        f is SevenZ ==> named@ == "SevenZ"@ && !writable,
{
}

} // verus!
