use flate2::read::MultiGzDecoder;
use flate2::write::GzEncoder;
use flate2::{Compression, GzBuilder};
use gpzip::algorithm::{Algorithm, Level};
use gpzip::codec::{Compressor, Decompressor};
use gpzip::cpu::compress::{DeflateCompressor, GzipCompressor, ZstdCompressor};
use gpzip::cpu::decompress::{
    Bzip2Decompressor, DeflateDecompressor, GzipDecompressor, LzmaDecompressor, ZstdDecompressor,
};
use gpzip::cpu::parallel::{Action, ParallelChunkedWriter};
use gpzip::cpu::parallel_decompress::{find_member_starts, parallel_decompress};
use gpzip::error::Error;
use gpzip::gzip::GZIP_HEADER;
use std::io::{Read, Write};

type ChunkFn<'a> = &'a dyn Fn(&[u8]) -> Result<Vec<u8>, String>;

/// Workers that finish in the reverse of the order they started in.
struct Driver<'a> {
    writer: ParallelChunkedWriter<String>,
    chunk_fn: ChunkFn<'a>,
    jobs: Vec<(u32, Vec<u8>)>,
    most_jobs: usize,
    out: Vec<u8>,
}

impl<'a> Driver<'a> {
    fn new(chunk_size: usize, max_in_flight: usize, chunk_fn: ChunkFn<'a>) -> Self {
        Driver {
            writer: ParallelChunkedWriter::new(chunk_size, max_in_flight),
            chunk_fn,
            jobs: Vec::new(),
            most_jobs: 0,
            out: Vec::new(),
        }
    }

    fn step(&mut self, draining: bool) {
        loop {
            match self.writer.next_action(draining) {
                Action::Write(bytes) => {
                    self.out.extend_from_slice(&bytes);
                    self.writer.wrote();
                }
                Action::Wait => {
                    let (index, bytes) = self.jobs.pop().expect("a chunk is under way");
                    self.writer.complete(index, (self.chunk_fn)(&bytes));
                }
                Action::Idle => return,
            }
        }
    }

    fn dispatch(&mut self) {
        if let Some(job) = self.writer.dispatch_current() {
            self.jobs.push(job);
            self.most_jobs = self.most_jobs.max(self.jobs.len());
        }
    }

    fn write_all(&mut self, mut buf: &[u8]) -> Result<(), String> {
        while !buf.is_empty() {
            if let Some(e) = self.writer.check_sticky() {
                return Err(e.clone());
            }
            let taken: usize = self.writer.accept(buf);
            buf = &buf[taken..];
            if self.writer.chunk_full() {
                self.dispatch();
                self.step(false);
            }
        }
        Ok(())
    }

    fn finalize(&mut self) -> Result<(), String> {
        if self.writer.begin_finalize() {
            self.dispatch();
            self.step(true);
        }
        match self.writer.check_sticky() {
            Some(e) => Err(e.clone()),
            None => Ok(()),
        }
    }
}

fn identity_framer(bytes: &[u8]) -> Result<Vec<u8>, String> {
    let mut out: Vec<u8> = Vec::with_capacity(4 + bytes.len());
    out.extend_from_slice(&(bytes.len() as u32).to_le_bytes());
    out.extend_from_slice(bytes);
    Ok(out)
}

fn parse_frames(mut data: &[u8]) -> Vec<Vec<u8>> {
    let mut out: Vec<Vec<u8>> = Vec::new();
    while data.len() >= 4 {
        let len: usize = u32::from_le_bytes(data[..4].try_into().unwrap()) as usize;
        let payload = data[4..4 + len].to_vec();
        out.push(payload);
        data = &data[4 + len..];
    }
    out
}

fn capture_output(
    chunk_size: usize,
    max_in_flight: usize,
    chunk_fn: ChunkFn,
    writes: &[&[u8]],
) -> Vec<u8> {
    let mut d = Driver::new(chunk_size, max_in_flight, chunk_fn);
    for w in writes {
        d.write_all(w).unwrap();
    }
    d.finalize().unwrap();
    assert!(d.jobs.is_empty());
    assert!(d.most_jobs <= max_in_flight);
    d.out
}

#[test]
fn empty_input_writes_nothing() {
    let d = Driver::new(16, 4, &identity_framer);
    assert!(d.out.is_empty());
    assert!(d.jobs.is_empty());
}

#[test]
fn empty_finalize_emits_nothing() {
    let out = capture_output(16, 4, &identity_framer, &[]);
    assert!(out.is_empty());
}

#[test]
fn single_partial_chunk_emitted_on_finalize() {
    let out = capture_output(16, 4, &identity_framer, &[b"hello"]);
    let frames = parse_frames(&out);
    assert_eq!(frames, vec![b"hello".to_vec()]);
}

#[test]
fn many_chunks_are_in_input_order() {
    let chunk_size: usize = 8;
    let total: usize = 8 * 64;
    let input: Vec<u8> = (0..total as u32).map(|i| (i % 251) as u8).collect();
    let bursts: Vec<&[u8]> = input.chunks(7).collect();
    let out = capture_output(chunk_size, 4, &identity_framer, &bursts);
    let frames = parse_frames(&out);
    assert_eq!(frames.len(), 64);
    let rebuilt: Vec<u8> = frames.into_iter().flatten().collect();
    assert_eq!(rebuilt, input, "concatenated frames must match input");
}

#[test]
fn backpressure_does_not_deadlock() {
    let chunk_size: usize = 4;
    let total: usize = 4 * 200;
    let input: Vec<u8> = (0..total as u32).map(|i| i as u8).collect();
    let out = capture_output(chunk_size, 2, &identity_framer, &[&input]);
    let frames = parse_frames(&out);
    let rebuilt: Vec<u8> = frames.into_iter().flatten().collect();
    assert_eq!(rebuilt, input);
}

fn failing(_: &[u8]) -> Result<Vec<u8>, String> {
    Err("boom".to_string())
}

#[test]
fn chunk_fn_error_surfaces_through_finalize() {
    let mut d = Driver::new(4, 2, &failing);
    let _ = d.write_all(&[0u8; 32]);
    let err = d
        .finalize()
        .expect_err("finalize should surface chunk error");
    assert!(err.contains("boom"), "got: {err}");
}

#[test]
fn a_failure_stays() {
    let mut d = Driver::new(4, 1, &failing);
    let _ = d.write_all(&[0u8; 32]);
    assert_eq!(d.write_all(&[1u8; 4]), Err("boom".to_string()));
    d.writer.record("later".to_string());
    assert_eq!(d.finalize(), Err("boom".to_string()));
    assert_eq!(d.finalize(), Err("boom".to_string()));
    assert!(d.out.is_empty());
}

#[test]
fn gzip_chunked_output_is_valid_gzip() {
    let level: u32 = 5;
    let gz = move |bytes: &[u8]| -> Result<Vec<u8>, String> {
        let mut e = GzEncoder::new(Vec::new(), Compression::new(level));
        e.write_all(bytes).map_err(|e| e.to_string())?;
        e.finish().map_err(|e| e.to_string())
    };
    let chunk_size: usize = 1024;
    let total: usize = chunk_size * 7 + 100;
    let input: Vec<u8> = (0..total).map(|i| (i % 251) as u8).collect();
    let out = capture_output(chunk_size, 4, &gz, &[&input]);
    let mut decoded: Vec<u8> = Vec::new();
    MultiGzDecoder::new(&out[..])
        .read_to_end(&mut decoded)
        .expect("MultiGzDecoder must read concatenated members");
    assert_eq!(decoded, input);
}

#[test]
fn zstd_chunked_output_is_valid_zstd() {
    let level: i32 = 3;
    let zs = move |bytes: &[u8]| -> Result<Vec<u8>, String> {
        let mut e =
            zstd::stream::write::Encoder::new(Vec::new(), level).map_err(|e| e.to_string())?;
        e.write_all(bytes).map_err(|e| e.to_string())?;
        e.finish().map_err(|e| e.to_string())
    };
    let chunk_size: usize = 2048;
    let total: usize = chunk_size * 5 + 7;
    let input: Vec<u8> = (0..total).map(|i| (i % 211) as u8).collect();
    let out = capture_output(chunk_size, 3, &zs, &[&input]);
    let mut decoded: Vec<u8> = Vec::new();
    zstd::stream::read::Decoder::new(&out[..])
        .unwrap()
        .read_to_end(&mut decoded)
        .expect("zstd Decoder must read concatenated frames");
    assert_eq!(decoded, input);
}

#[test]
fn chunked_streams_of_the_library_are_read_back() {
    let input: Vec<u8> = (0..5000u32).map(|i| (i * i % 253) as u8).collect();
    for level in [0u8, 1, 2, 5, 8, 9] {
        let c = GzipCompressor::new(Level(level), 600, 3);
        let (size, in_flight) = c.layout();
        let gz = move |bytes: &[u8]| c.compress(bytes).map_err(|e| e.message());
        let out = capture_output(size, in_flight, &gz, &[&input]);
        assert_eq!(GzipDecompressor.decompress(&out).unwrap(), input);
        assert_eq!(parallel_decompress(&out).unwrap(), input);
        let z = ZstdCompressor::new(Level(level), 600, 3);
        let frame = move |bytes: &[u8]| z.compress(bytes).map_err(|e| e.message());
        let out = capture_output(600, 3, &frame, &[&input]);
        assert_eq!(ZstdDecompressor.decompress(&out).unwrap(), input);
    }
}

fn gz_one(bytes: &[u8]) -> Vec<u8> {
    let mut e = GzEncoder::new(Vec::new(), Compression::new(5));
    e.write_all(bytes).unwrap();
    e.finish().unwrap()
}

#[test]
fn single_member_falls_back_to_serial() {
    let input = b"hello world hello world hello world".repeat(100);
    let compressed = gz_one(&input);
    let starts = find_member_starts(&compressed);
    assert_eq!(starts.len(), 1, "single gpzip-style member");
    let decoded = parallel_decompress(&compressed).unwrap();
    assert_eq!(decoded, input);
}

#[test]
fn multiple_members_decode_in_parallel() {
    let mut compressed: Vec<u8> = Vec::new();
    let mut expected: Vec<u8> = Vec::new();
    for i in 0..16 {
        let chunk = format!("chunk {i} ").repeat(2000);
        expected.extend_from_slice(chunk.as_bytes());
        compressed.extend_from_slice(&gz_one(chunk.as_bytes()));
    }
    let starts = find_member_starts(&compressed);
    assert_eq!(starts.len(), 16, "should find 16 member starts");
    let decoded = parallel_decompress(&compressed).unwrap();
    assert_eq!(decoded, expected);
}

#[test]
fn parallel_decompress_empty_input() {
    let decoded = parallel_decompress(&[]).unwrap();
    assert!(decoded.is_empty());
}

#[test]
fn non_gpzip_header_falls_back() {
    let payload = b"some data".repeat(1000);
    let mut e = GzBuilder::new()
        .filename("foo.txt")
        .write(Vec::new(), Compression::new(5));
    e.write_all(&payload).unwrap();
    let compressed = e.finish().unwrap();
    let starts = find_member_starts(&compressed);
    assert_eq!(
        starts.len(),
        0,
        "FNAME-bearing header shouldn't match GPZIP_HEADER"
    );
    let decoded = parallel_decompress(&compressed).unwrap();
    assert_eq!(decoded, payload);
}

fn gz_at(level: u32, bytes: &[u8]) -> Vec<u8> {
    let mut e = GzEncoder::new(Vec::new(), Compression::new(level));
    e.write_all(bytes).unwrap();
    e.finish().unwrap()
}

fn gz_named(bytes: &[u8]) -> Vec<u8> {
    let mut e = GzBuilder::new()
        .filename("foo.txt")
        .write(Vec::new(), Compression::new(5));
    e.write_all(bytes).unwrap();
    e.finish().unwrap()
}

#[test]
fn a_header_inside_a_member_is_no_boundary() {
    let inner = gz_one(b"inner");
    assert_eq!(find_member_starts(&inner), vec![0]);
    let mut stream = gz_one(b"first");
    stream.extend_from_slice(&gz_at(0, &inner));
    assert_eq!(find_member_starts(&stream).len(), 2);
    let mut expected = b"first".to_vec();
    expected.extend_from_slice(&inner);
    assert_eq!(parallel_decompress(&stream).unwrap(), expected);
}

#[test]
fn stored_members_are_not_unwrapped() {
    let mut inner = gz_one(b"one");
    inner.extend_from_slice(&gz_one(b"two"));
    let outer = gz_at(0, &inner);
    assert_eq!(find_member_starts(&outer).len(), 2);
    assert_eq!(parallel_decompress(&outer).unwrap(), inner);
}

#[test]
fn members_with_other_headers_are_kept() {
    let parts: Vec<Vec<u8>> = vec![
        gz_named(b"named "),
        gz_one(b"plain "),
        gz_at(9, b"best "),
        gz_one(b"plain again "),
        gz_at(0, b"stored "),
        gz_one(b"last"),
    ];
    let texts: Vec<&[u8]> =
        vec![b"named ", b"plain ", b"best ", b"plain again ", b"stored ", b"last"];
    for first in 0..parts.len() {
        let stream: Vec<u8> = parts[first..].concat();
        let expected: Vec<u8> = texts[first..].concat();
        assert_eq!(parallel_decompress(&stream).unwrap(), expected);
        assert_eq!(GzipDecompressor.decompress(&stream).unwrap(), expected);
    }
    let mut spoiled: Vec<u8> = parts[1..4].concat();
    spoiled.extend_from_slice(b"no gzip");
    assert!(matches!(parallel_decompress(&spoiled), Err(Error::Io(_))));
}

#[test]
fn damaged_streams_are_errors() {
    let mut two = gz_one(b"one");
    two.extend_from_slice(&gz_one(b"two"));
    let short = &two[..two.len() - 3];
    assert!(matches!(parallel_decompress(short), Err(Error::Io(_))));
    assert!(matches!(parallel_decompress(b"junk"), Err(Error::Io(_))));
    assert!(matches!(DeflateDecompressor.decompress(&[7]), Err(Error::Io(_))));
    assert!(matches!(ZstdDecompressor.decompress(b"junk"), Err(Error::Io(_))));
    assert!(matches!(GzipDecompressor.decompress(b"junk"), Err(Error::Io(_))));
}

#[test]
fn members_have_the_plain_header() {
    for level in 2u8..=8 {
        let m = GzipCompressor::new(Level(level), 1, 1).compress(b"abc").unwrap();
        assert_eq!(m[..10], GZIP_HEADER);
        assert_eq!(find_member_starts(&m), vec![0]);
    }
    for level in [0u8, 1, 9] {
        let m = GzipCompressor::new(Level(level), 1, 1).compress(b"abc").unwrap();
        assert_eq!(m[..8], GZIP_HEADER[..8]);
        assert_ne!(m[..10], GZIP_HEADER);
    }
}

#[test]
fn finished_output_is_the_members_of_the_cut_input() {
    let input: Vec<u8> = (0..103u8).collect();
    let bursts: Vec<&[u8]> = input.chunks(5).collect();
    let out = capture_output(10, 3, &identity_framer, &bursts);
    let expected: Vec<u8> = input
        .chunks(10)
        .flat_map(|c| identity_framer(c).unwrap())
        .collect();
    assert_eq!(out, expected);
}

#[test]
fn raw_deflate_round_trip() {
    let c = DeflateCompressor::new(Level(9));
    assert!(c.algorithm() == Algorithm::Deflate);
    let data = b"raw deflate raw deflate".repeat(9);
    let stream = c.compress(&data).unwrap();
    assert!(stream.len() < data.len());
    assert_eq!(DeflateDecompressor.decompress(&stream).unwrap(), data);
}

#[test]
fn xz_streams_are_read() {
    let data = b"xz xz xz".repeat(50);
    let mut e = xz2::write::XzEncoder::new(Vec::new(), 6);
    e.write_all(&data).unwrap();
    let stream = e.finish().unwrap();
    assert_eq!(LzmaDecompressor.decompress(&stream).unwrap(), data);
}

#[test]
fn bzip2_streams_are_read() {
    let data = b"bzip2 bzip2".repeat(50);
    let mut e = bzip2::write::BzEncoder::new(Vec::new(), bzip2::Compression::best());
    e.write_all(&data).unwrap();
    let stream = e.finish().unwrap();
    assert_eq!(Bzip2Decompressor.decompress(&stream).unwrap(), data);
}
