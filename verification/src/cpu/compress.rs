//! The compressors of the host.
use crate::algorithm::{Algorithm, Level};
use crate::codec::Compressor;
use crate::cpu::streams;
use crate::error::Error;
use vstd::prelude::*;

verus! {

/// The level at which DEFLATE runs: 0 to 9.
pub open spec fn deflate_level(level: Level) -> u32 {
    level.clamp_spec(0, 9) as u32
}

/// The level at which zstd runs. Its own levels go from 1 to 22, with 3 for the
/// default; the highest are left out.
pub open spec fn zstd_level(level: Level) -> i32 {
    if level.0 == 0 {
        1
    } else if level.0 <= 4 {
        2
    } else if level.0 == 5 {
        3
    } else if level.0 == 6 {
        6
    } else if level.0 == 7 {
        12
    } else if level.0 == 8 {
        17
    } else {
        19
    }
}

fn map_zstd_level(level: Level) -> (r: i32)
    ensures
        r == zstd_level(level),
{
    match level.0 {
        0 => 1,
        1..=4 => 2,
        5 => 3,
        6 => 6,
        7 => 12,
        8 => 17,
        _ => 19,
    }
}

/// Raw DEFLATE, in one piece.
#[derive(Debug, Clone, Copy)]
pub struct DeflateCompressor {
    level: Level,
}

impl DeflateCompressor {
    pub closed spec fn level_spec(&self) -> Level {
        self.level
    }

    pub fn new(level: Level) -> (r: Self)
        ensures
            r.level_spec() == level,
    {
        DeflateCompressor { level }
    }
}

impl Compressor for DeflateCompressor {
    open spec fn algorithm_spec(&self) -> Algorithm {
        Algorithm::Deflate
    }

    open spec fn encodes(&self, data: Seq<u8>, stream: Seq<u8>) -> bool {
        &&& stream == streams::deflate_stream(deflate_level(self.level_spec()), data)
        &&& streams::deflate_content(stream) == Some(data)
    }

    fn algorithm(&self) -> (r: Algorithm) {
        Algorithm::Deflate
    }

    fn compress(&self, data: &[u8]) -> (r: Result<Vec<u8>, Error>)
        ensures
            r is Ok,
    {
        match streams::write_deflate(self.level.clamp_to(0, 9) as u32, data) {
            Ok(stream) => Ok(stream),
            Err(e) => Err(Error::Io(e)),
        }
    }
}

/// Gzip, one member per chunk.
#[derive(Debug, Clone, Copy)]
pub struct GzipCompressor {
    level: Level,
    chunk_size: usize,
    max_in_flight: usize,
}

impl GzipCompressor {
    pub closed spec fn level_spec(&self) -> Level {
        self.level
    }

    /// The size of chunks, and how many may be under way.
    pub closed spec fn layout_spec(&self) -> (usize, usize) {
        (self.chunk_size, self.max_in_flight)
    }

    pub fn new(level: Level, chunk_size: usize, max_in_flight: usize) -> (r: Self)
        ensures
            r.level_spec() == level,
            r.layout_spec() == (chunk_size, max_in_flight),
    {
        GzipCompressor { level, chunk_size, max_in_flight }
    }

    /// The size of chunks, and how many may be under way.
    pub fn layout(&self) -> (r: (usize, usize))
        ensures
            r == self.layout_spec(),
    {
        (self.chunk_size, self.max_in_flight)
    }
}

/// A gzip member as the host makes it at a level: it stands for the bytes, alone
/// and in front of others. Away from the ends of the scale it has the plain header.
pub open spec fn host_member(level: u32, data: Seq<u8>, member: Seq<u8>) -> bool {
    &&& member == streams::gz_member(level, data)
    &&& streams::is_gz_stream(member, data)
    &&& member.len() >= 18
    &&& 2 <= level <= 8 ==> member.take(10) == crate::gzip::GZIP_HEADER@
}

impl Compressor for GzipCompressor {
    open spec fn algorithm_spec(&self) -> Algorithm {
        Algorithm::Gzip
    }

    open spec fn encodes(&self, data: Seq<u8>, stream: Seq<u8>) -> bool {
        host_member(deflate_level(self.level_spec()), data, stream)
    }

    fn algorithm(&self) -> (r: Algorithm) {
        Algorithm::Gzip
    }

    /// Compresses one chunk to one member.
    fn compress(&self, data: &[u8]) -> (r: Result<Vec<u8>, Error>)
        ensures
            r is Ok,
    {
        match streams::write_gz(self.level.clamp_to(0, 9) as u32, data) {
            Ok(member) => Ok(member),
            Err(e) => Err(Error::Io(e)),
        }
    }
}

/// The outcome is one that the zstd encoder had when it was given the bytes at
/// its own level.
pub closed spec fn zstd_encoder_gave(
    level: i32,
    data: Seq<u8>,
    outcome: Result<Vec<u8>, String>,
) -> bool {
    exists|d: &[u8]|
        d@ == data && #[trigger] call_ensures(streams::write_zstd, (level, d), outcome)
}

/// What an encoder gave, as a result of the library: its stream, or its failure.
pub open spec fn passed_on(
    outcome: Result<Vec<u8>, String>,
    r: Result<Vec<u8>, Error>,
) -> bool {
    match outcome {
        Ok(stream) => r == Ok::<Vec<u8>, Error>(stream),
        Err(m) => r == Err::<Vec<u8>, Error>(Error::Io(m)),
    }
}

/// Zstd, one frame per chunk.
#[derive(Debug, Clone, Copy)]
pub struct ZstdCompressor {
    level: Level,
    chunk_size: usize,
    max_in_flight: usize,
}

impl ZstdCompressor {
    pub closed spec fn level_spec(&self) -> Level {
        self.level
    }

    /// The size of chunks, and how many may be under way.
    pub closed spec fn layout_spec(&self) -> (usize, usize) {
        (self.chunk_size, self.max_in_flight)
    }

    pub fn new(level: Level, chunk_size: usize, max_in_flight: usize) -> (r: Self)
        ensures
            r.level_spec() == level,
            r.layout_spec() == (chunk_size, max_in_flight),
    {
        ZstdCompressor { level, chunk_size, max_in_flight }
    }

    /// The size of chunks, and how many may be under way.
    pub fn layout(&self) -> (r: (usize, usize))
        ensures
            r == self.layout_spec(),
    {
        (self.chunk_size, self.max_in_flight)
    }
}

impl Compressor for ZstdCompressor {
    open spec fn algorithm_spec(&self) -> Algorithm {
        Algorithm::Zstd
    }

    open spec fn encodes(&self, data: Seq<u8>, stream: Seq<u8>) -> bool {
        &&& stream == streams::zstd_frame(zstd_level(self.level_spec()), data)
        &&& streams::is_zstd_frame(stream, data)
    }

    fn algorithm(&self) -> (r: Algorithm) {
        Algorithm::Zstd
    }

    /// Compresses one chunk to one frame.
    fn compress(&self, data: &[u8]) -> (r: Result<Vec<u8>, Error>)
        ensures
            r matches Err(e) ==> e is Io,
            exists|o: Result<Vec<u8>, String>| #[trigger]
                zstd_encoder_gave(zstd_level(self.level_spec()), data@, o) && passed_on(o, r),
    {
        match streams::write_zstd(map_zstd_level(self.level), data) {
            Ok(frame) => {
                assert(zstd_encoder_gave(
                    zstd_level(self.level_spec()),
                    data@,
                    Ok::<Vec<u8>, String>(frame),
                ));
                Ok(frame)
            },
            Err(e) => {
                assert(zstd_encoder_gave(
                    zstd_level(self.level_spec()),
                    data@,
                    Err::<Vec<u8>, String>(e),
                ));
                Err(Error::Io(e))
            },
        }
    }
}

/// Zstd compression fails only where the zstd encoder itself fails on these
/// bytes at this level, and with its message. Where the encoder makes a frame,
/// that frame is the result, however long the bytes are.
pub proof fn law_zstd_compression_is_the_encoder(
    c: ZstdCompressor,
    data: &[u8],
    r: Result<Vec<u8>, Error>,
)
    requires
        call_ensures(ZstdCompressor::compress, (&c, data), r),
    ensures
        exists|o: Result<Vec<u8>, String>|
            {
                &&& #[trigger] zstd_encoder_gave(zstd_level(c.level_spec()), data@, o)
                &&& o matches Ok(frame) ==> r matches Ok(stream) && stream@ == frame@
                &&& o matches Err(m) ==> r matches Err(Error::Io(e)) && e@ == m@
            },
        r matches Ok(stream) ==> streams::is_zstd_frame(stream@, data@) && stream@
            == streams::zstd_frame(zstd_level(c.level_spec()), data@),
{
    let o = choose|o: Result<Vec<u8>, String>| #[trigger]
        zstd_encoder_gave(zstd_level(c.level_spec()), data@, o) && passed_on(o, r);
    assert(zstd_encoder_gave(zstd_level(c.level_spec()), data@, o));
}

/// DEFLATE and gzip always compress, at the level that was asked for or else the
/// highest, and what they make is read back as the bytes by the decoder of the
/// same library.
pub proof fn law_deflate_and_gzip_always_compress(
    d: DeflateCompressor,
    g: GzipCompressor,
    data: &[u8],
    raw: Result<Vec<u8>, Error>,
    member: Result<Vec<u8>, Error>,
)
    requires
        call_ensures(DeflateCompressor::compress, (&d, data), raw),
        call_ensures(GzipCompressor::compress, (&g, data), member),
    ensures
        raw matches Ok(s) && streams::deflate_content(s@) == Some(data@) && s@
            == streams::deflate_stream(
            if d.level_spec().0 <= 9 {
                d.level_spec().0 as u32
            } else {
                9
            },
            data@,
        ),
        member matches Ok(m) && streams::gz_all(m@) == Some(data@) && m@ == streams::gz_member(
            if g.level_spec().0 <= 9 {
                g.level_spec().0 as u32
            } else {
                9
            },
            data@,
        ),
{
}

/// A level up to 9 is that of DEFLATE and gzip itself, and any above is 9. For
/// zstd the scale is stretched: a higher level never means a lower one of zstd,
/// the default is the default of zstd, the lowest level is its lowest, and no
/// level comes to the three highest.
pub proof fn law_levels(level: Level, other: Level)
    ensures
        level.0 <= 9 ==> deflate_level(level) == level.0,
        level.0 >= 9 ==> deflate_level(level) == 9,
        level.0 <= other.0 ==> zstd_level(level) <= zstd_level(other),
        level.0 == 0 <==> zstd_level(level) == 1,
        1 <= level.0 <= 4 <==> zstd_level(level) == 2,
        level.0 == 5 <==> zstd_level(level) == 3,
        level.0 == 6 <==> zstd_level(level) == 6,
        level.0 == 7 <==> zstd_level(level) == 12,
        level.0 == 8 <==> zstd_level(level) == 17,
        level.0 >= 9 <==> zstd_level(level) == 19,
{
}

} // verus!
