//! Compression algorithms, what a backend can do with them, and levels.
use vstd::prelude::*;

verus! {

#[derive(Debug, Clone, Copy, PartialEq, Eq, Hash, Structural)]
pub enum Algorithm {
    /// Raw DEFLATE bitstream (used per entry inside ZIP).
    Deflate,
    /// Gzip-wrapped DEFLATE: header, raw deflate, checksum and size.
    Gzip,
    Zstd,
    Lzma,
    Bzip2,
    Rar,
}

impl Algorithm {
    /// The name under which the algorithm is shown to users.
    pub open spec fn display_spec(self) -> Seq<char> {
        match self {
            Algorithm::Deflate => "deflate"@,
            Algorithm::Gzip => "gzip"@,
            Algorithm::Zstd => "zstd"@,
            Algorithm::Lzma => "lzma"@,
            Algorithm::Bzip2 => "bzip2"@,
            Algorithm::Rar => "rar"@,
        }
    }

    pub fn display(self) -> (r: &'static str)
        ensures
            r@ == self.display_spec(),
    {
        match self {
            Algorithm::Deflate => "deflate",
            Algorithm::Gzip => "gzip",
            Algorithm::Zstd => "zstd",
            Algorithm::Lzma => "lzma",
            Algorithm::Bzip2 => "bzip2",
            Algorithm::Rar => "rar",
        }
    }

    /// The name under which the algorithm stands in error messages.
    pub open spec fn variant_spec(self) -> Seq<char> {
        match self {
            Algorithm::Deflate => "Deflate"@,
            Algorithm::Gzip => "Gzip"@,
            Algorithm::Zstd => "Zstd"@,
            Algorithm::Lzma => "Lzma"@,
            Algorithm::Bzip2 => "Bzip2"@,
            Algorithm::Rar => "Rar"@,
        }
    }

    pub fn variant(self) -> (r: &'static str)
        ensures
            r@ == self.variant_spec(),
    {
        match self {
            Algorithm::Deflate => "Deflate",
            Algorithm::Gzip => "Gzip",
            Algorithm::Zstd => "Zstd",
            Algorithm::Lzma => "Lzma",
            Algorithm::Bzip2 => "Bzip2",
            Algorithm::Rar => "Rar",
        }
    }
}

/// What a backend can do with an algorithm.
#[derive(Debug, Clone, Copy, PartialEq, Eq, Structural)]
pub enum Capability {
    Unsupported,
    DecompressOnly,
    CompressOnly,
    Both,
}

impl Capability {
    pub open spec fn can_decompress_spec(self) -> bool {
        self is DecompressOnly || self is Both
    }

    #[verifier::when_used_as_spec(can_decompress_spec)]
    pub fn can_decompress(self) -> (r: bool)
        ensures
            r == self.can_decompress_spec(),
    {
        match self {
            Capability::DecompressOnly => true,
            Capability::Both => true,
            _ => false,
        }
    }

    pub open spec fn can_compress_spec(self) -> bool {
        self is CompressOnly || self is Both
    }

    #[verifier::when_used_as_spec(can_compress_spec)]
    pub fn can_compress(self) -> (r: bool)
        ensures
            r == self.can_compress_spec(),
    {
        match self {
            Capability::CompressOnly => true,
            Capability::Both => true,
            _ => false,
        }
    }
}

/// Compression level. Backends interpret this as best they can: 0 is fastest,
/// 9 has the best ratio, and 5 is a sensible default.
#[derive(Debug, Clone, Copy, PartialEq, Eq, Structural)]
pub struct Level(pub u8);

impl Default for Level {
    fn default() -> (r: Self)
        ensures
            r == Level(5),
    {
        Level(5)
    }
}

impl Level {
    /// The level, or the end of the range `min..=max` that it lies beyond.
    pub open spec fn clamp_spec(self, min: int, max: int) -> int {
        if self.0 < min {
            min
        } else if self.0 > max {
            max
        } else {
            self.0 as int
        }
    }

    pub fn clamp_to(self, min: i32, max: i32) -> (r: i32)
        requires
            min <= max,
        ensures
            r == self.clamp_spec(min as int, max as int),
    {
        let v: i32 = self.0 as i32;
        if v < min {
            min
        } else if v > max {
            max
        } else {
            v
        }
    }
}

/// A level within the range is kept, and one beyond it becomes the nearest end.
pub proof fn law_clamping(level: Level, min: i32, max: i32, r: i32)
    requires
        min <= max,
        call_ensures(Level::clamp_to, (level, min, max), r),
    ensures
        min <= r <= max,
        min <= level.0 <= max ==> r == level.0,
        level.0 < min ==> r == min,
        level.0 > max ==> r == max,
{
}

/// Every algorithm has its own name, for users and in messages.
pub proof fn law_algorithm_names(a: Algorithm, shown: &'static str, named: &'static str)
    requires
        call_ensures(Algorithm::display, (a,), shown),
        call_ensures(Algorithm::variant, (a,), named),
    ensures
        a is Deflate ==> shown@ == "deflate"@ && named@ == "Deflate"@,
        a is Gzip ==> shown@ == "gzip"@ && named@ == "Gzip"@,
        a is Zstd ==> shown@ == "zstd"@ && named@ == "Zstd"@,
        a is Lzma ==> shown@ == "lzma"@ && named@ == "Lzma"@,
        a is Bzip2 ==> shown@ == "bzip2"@ && named@ == "Bzip2"@,
        a is Rar ==> shown@ == "rar"@ && named@ == "Rar"@,
{
}

} // verus!
