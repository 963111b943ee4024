use flate2::read::{DeflateDecoder, MultiGzDecoder};
use gpzip::algorithm::Level;
use gpzip::codec::Compressor;
use gpzip::cpu::compress::GzipCompressor;
use gpzip::cpu::parallel_decompress::parallel_decompress;
use gpzip::gpu::canonical::canonical_codes;
use gpzip::gpu::chunk::plan_chunks;
use gpzip::gpu::context::{
    adapter_from_setting, backends_from_setting, check_index, AdapterChoice, BackendFilter,
    InitError,
};
use gpzip::gpu::deflate::{encode_block, encode_block_fast, encode_fixed_block};
use gpzip::gpu::dispatch::{div_ceil, trim_output};
use gpzip::gpu::gzip_chunk::{gzip_chunk, tokens_encodable};
use gpzip::gpu::huffman::{build_code_lengths, try_build_code_lengths};
use gpzip::gpu::huffman_emit::{build_atoms_fixed, plan_fixed_emit};
use gpzip::gpu::huffman_emit_v2::{
    build_dynamic_huffman, build_fixed_dist_codes_pre, build_fixed_dist_lens, build_fixed_lit_codes_pre,
    build_fixed_lit_lens, empty_fixed_block, finish_run, plan_dynamic_block_v3,
    plan_fixed_block_v2, total_bits_for_fixed, DynamicEmit, EmitRun, FixedEmit, HostTables,
};
use gpzip::gpu::identity::{finish_identity, pad_to_u32, plan_identity};
use gpzip::gpu::lz77::{greedy_walk, reconstruct, Token};
use gpzip::gpu::match_find::{
    buffer_sizes, plan_match_find, plan_match_find_batch, plan_search, read_tokens, takes_more,
    HASH_WINDOW,
};
use gpzip::gpu::pool::BufferPool;
use gpzip::gpu::rle::rle_encode_lengths;
use gpzip::gpu::tables::{distance_code, length_code, DistTables};
use gpzip::gpu::walk::{
    block_walk, finish_walk, host_strict_greedy, pack_per_position, plan_block_walk, plan_walk,
    serial_walk, unpack_walked,
};
use gpzip::gzip::gzip_wrap;
use std::io::Read;

/// Brute-force match search, with the result that the device gives.
fn cpu_lz77(input: &[u8], window: usize) -> Vec<Token> {
    let mut out: Vec<Token> = Vec::with_capacity(input.len());
    for pos in 0..input.len() {
        let mut best_len: usize = 0;
        let mut best_dist: usize = 0;
        let start: usize = pos.saturating_sub(window);
        for prev in start..pos {
            let mut len: usize = 0;
            while pos + len < input.len() && len < 258 && input[prev + len] == input[pos + len] {
                len += 1;
            }
            if len > best_len {
                best_len = len;
                best_dist = pos - prev;
            }
        }
        if best_len >= 3 {
            out.push(Token::back_ref(best_len as u32, best_dist as u32));
        } else {
            out.push(Token::literal(input[pos]));
        }
    }
    out
}

fn gunzip(gzipped: &[u8]) -> Vec<u8> {
    let mut decoded: Vec<u8> = Vec::new();
    MultiGzDecoder::new(gzipped)
        .read_to_end(&mut decoded)
        .expect("decode");
    decoded
}

fn inflate(deflate: &[u8]) -> Vec<u8> {
    let mut decoded: Vec<u8> = Vec::new();
    DeflateDecoder::new(deflate)
        .read_to_end(&mut decoded)
        .expect("flate2 should decode the block");
    decoded
}

fn round_trip(input: &[u8]) {
    let raw = cpu_lz77(input, 4096);
    let walked = greedy_walk(&raw, input);
    let deflate = encode_block(&walked).expect("encode");
    let gzipped = gzip_wrap(&deflate, input);
    assert_eq!(gunzip(&gzipped), input, "round trip mismatch");
    let fixed = encode_fixed_block(&walked).expect("encode_fixed");
    assert_eq!(inflate(&fixed), input);
    assert!(tokens_encodable(&raw));
    assert_eq!(gzip_chunk(&raw, input).expect("chunk"), gzipped);
}

#[test]
fn deflate_empty_input() {
    round_trip(b"");
}

#[test]
fn single_byte() {
    round_trip(b"a");
}

#[test]
fn no_matches() {
    let input: Vec<u8> = (0..32u8).collect();
    round_trip(&input);
}

#[test]
fn deflate_obvious_repeat() {
    round_trip(&b"abcabcabcabcabcabcabc".repeat(8));
}

#[test]
fn self_overlapping_match() {
    round_trip(&[b'x'; 64]);
}

#[test]
fn larger_realistic_data() {
    let mut input: Vec<u8> = Vec::new();
    for i in 0..256 {
        input.extend_from_slice(format!("line {i}: the quick brown fox\n").as_bytes());
    }
    round_trip(&input);
}

#[test]
fn deflate_pseudo_random() {
    let input: Vec<u8> = (0..1500u32)
        .map(|i| (i.wrapping_mul(2654435761)) as u8)
        .collect();
    round_trip(&input);
}

fn round_trip_fast(input: &[u8]) {
    let raw = cpu_lz77(input, 4096);
    let walked = greedy_walk(&raw, input);
    let deflate = encode_block_fast(&walked).expect("encode_fast");
    let gzipped = gzip_wrap(&deflate, input);
    assert_eq!(gunzip(&gzipped), input, "fast round trip mismatch");
    assert_eq!(deflate, encode_block(&walked).expect("encode"));
}

#[test]
fn fast_empty_input() {
    round_trip_fast(b"");
}

#[test]
fn fast_single_byte() {
    round_trip_fast(b"a");
}

#[test]
fn fast_no_matches() {
    let input: Vec<u8> = (0..32u8).collect();
    round_trip_fast(&input);
}

#[test]
fn fast_obvious_repeat() {
    round_trip_fast(&b"abcabcabcabcabcabcabc".repeat(8));
}

#[test]
fn fast_self_overlapping_match() {
    round_trip_fast(&[b'x'; 64]);
}

#[test]
fn fast_larger_realistic_data() {
    let mut input: Vec<u8> = Vec::new();
    for i in 0..256 {
        input.extend_from_slice(format!("line {i}: the quick brown fox\n").as_bytes());
    }
    round_trip_fast(&input);
}

#[test]
fn fast_pseudo_random() {
    let input: Vec<u8> = (0..1500u32)
        .map(|i| (i.wrapping_mul(2654435761)) as u8)
        .collect();
    round_trip_fast(&input);
}

#[test]
fn gzip_member_of_known_bytes() {
    let m = gzip_wrap(&[0x03, 0x00], b"123456789");
    assert_eq!(m[..10], [0x1f, 0x8b, 8, 0, 0, 0, 0, 0, 0, 0xff]);
    assert_eq!(m[10..12], [0x03, 0x00]);
    assert_eq!(m[12..], [0x26, 0x39, 0xf4, 0xcb, 9, 0, 0, 0]);
}

#[test]
fn fixed_block_of_known_bytes() {
    let tokens = vec![Token::literal(b'a')];
    assert_eq!(encode_fixed_block(&tokens).unwrap(), vec![0x4b, 0x04, 0x00]);
    assert_eq!(empty_fixed_block(), vec![0x03, 0x00]);
    assert_eq!(encode_fixed_block(&[]).unwrap(), vec![0x03, 0x00]);
}

#[test]
fn tokens_that_no_block_can_hold() {
    assert!(tokens_encodable(&[Token::literal(255), Token::back_ref(258, 32768)]));
    for (length, distance) in [(2u32, 1u32), (259, 1), (3, 0), (3, 32769), (0, 256)] {
        assert!(!tokens_encodable(&[Token { length, distance }]));
    }
}

#[test]
fn device_and_host_members_make_one_stream() {
    for level in [0u8, 1, 5, 9] {
        let mut stream: Vec<u8> = Vec::new();
        let mut expected: Vec<u8> = Vec::new();
        for i in 0..7u32 {
            let chunk = format!("chunk {i} of a mixed stream ").repeat(40).into_bytes();
            let member: Vec<u8> = if i % 3 != 0 {
                gzip_chunk(&cpu_lz77(&chunk, 4096), &chunk).unwrap()
            } else {
                GzipCompressor::new(Level(level), 4096, 1).compress(&chunk).unwrap()
            };
            stream.extend_from_slice(&member);
            expected.extend_from_slice(&chunk);
        }
        assert_eq!(gunzip(&stream), expected);
        assert_eq!(parallel_decompress(&stream).unwrap(), expected);
    }
}

#[test]
fn dynamic_tables_are_filled_up() {
    let h = build_dynamic_huffman(&many_back_refs()).unwrap();
    assert_eq!(h.lit_lens_u32.len(), 288);
    assert_eq!(h.dist_lens_u32.len(), 32);
    assert_eq!(h.lit_lens_u32[286..], [0, 0]);
    assert_eq!(h.dist_lens_u32[30..], [0, 0]);
    assert!(h.lit_lens_u32[256] > 0);
}

#[test]
fn lazy_walk_prefers_the_longer_match() {
    let input = b"abcxabcxabcx";
    let mut raw: Vec<Token> = input.iter().map(|&b| Token::literal(b)).collect();
    raw[4] = Token::back_ref(3, 4);
    raw[5] = Token::back_ref(7, 4);
    let walked = greedy_walk(&raw, input);
    assert_eq!(walked.len(), 6);
    assert!(walked[4] == Token::literal(b'a'));
    assert!(walked[5] == Token::back_ref(7, 4));
    assert_eq!(reconstruct(&walked), input);
    assert_eq!(host_strict_greedy(&raw)[4], Token::back_ref(3, 4));
}

#[test]
fn empty_input_yields_no_chunks() {
    assert!(plan_chunks(&[], 1024).is_empty());
}

#[test]
fn chunks_are_indexed_in_order() {
    let input = vec![0u8; 5000];
    let jobs = plan_chunks(&input, 2048);
    assert_eq!(jobs.len(), 3);
    assert_eq!(jobs[0].index, 0);
    assert_eq!(jobs[1].index, 1);
    assert_eq!(jobs[2].index, 2);
    assert_eq!(jobs[0].bytes.len(), 2048);
    assert_eq!(jobs[2].bytes.len(), 5000 - 4096);
}

#[test]
fn empty_frequencies() {
    let lens = build_code_lengths(&[0; 10], 15);
    assert!(lens.iter().all(|&l| l == 0));
}

#[test]
fn single_symbol_gets_one_bit() {
    let mut freq = vec![0u32; 10];
    freq[3] = 100;
    let lens = build_code_lengths(&freq, 15);
    assert_eq!(lens[3], 1);
    for (i, &l) in lens.iter().enumerate() {
        if i != 3 {
            assert_eq!(l, 0);
        }
    }
}

#[test]
fn balanced_frequencies_balanced_lengths() {
    let freq = vec![1u32; 8];
    let lens = build_code_lengths(&freq, 15);
    assert!(lens.iter().all(|&l| l == 3), "got {:?}", lens);
}

#[test]
fn skewed_frequencies_skewed_lengths() {
    let freq: Vec<u32> = vec![100, 50, 25, 10, 5, 2, 1, 1];
    let lens = build_code_lengths(&freq, 15);
    assert!(lens[0] <= lens[7], "lens: {:?}", lens);
    for s in 0..freq.len() {
        for t in 0..freq.len() {
            if freq[s] > freq[t] {
                assert!(lens[s] <= lens[t]);
            }
        }
    }
}

#[test]
fn length_limit_enforced() {
    let freq: Vec<u32> = (1..=20).map(|i| i as u32).collect();
    let lens = build_code_lengths(&freq, 6);
    assert!(
        lens.iter().all(|&l| l <= 6),
        "max length exceeded: {:?}",
        lens
    );
    let kraft: f64 = lens
        .iter()
        .filter(|&&l| l > 0)
        .map(|&l| 2f64.powi(-(l as i32)))
        .sum();
    assert!(kraft <= 1.0 + 1e-9, "kraft = {}", kraft);
}

#[test]
fn lengths_that_do_not_fit() {
    let fibonacci: Vec<u32> = vec![1, 1, 2, 3, 5, 8, 13, 21];
    assert!(try_build_code_lengths(&fibonacci, 7).is_some());
    let two: Vec<u32> = vec![1, 1, 1, 1, 1];
    assert!(try_build_code_lengths(&two, 2).is_none());
    let lens = build_code_lengths(&[5, 9, 12, 13, 16, 45], 15);
    assert_eq!(lens, vec![4, 4, 3, 3, 3, 1]);
}

#[test]
fn canonical_codes_satisfy_prefix_property() {
    let lens: Vec<u8> = vec![3, 3, 3, 3, 3, 2, 4, 4];
    let codes = canonical_codes(&lens);
    for i in 0..codes.len() {
        if lens[i] == 0 {
            continue;
        }
        for j in 0..codes.len() {
            if i == j || lens[j] == 0 {
                continue;
            }
            if lens[j] < lens[i] {
                let shift: u8 = lens[i] - lens[j];
                let prefix: u32 = codes[i] >> shift;
                assert_ne!(prefix, codes[j], "{} is a prefix of {}", j, i);
            }
        }
    }
    assert_eq!(codes, vec![2, 3, 4, 5, 6, 0, 14, 15]);
}

#[test]
fn run_lengths_of_code_lengths() {
    let mut lens: Vec<u8> = vec![5; 8];
    lens.extend_from_slice(&[0; 140]);
    lens.extend_from_slice(&[0, 0, 7]);
    let entries = rle_encode_lengths(&lens);
    let mut expanded: Vec<u8> = Vec::new();
    for e in &entries {
        match e.code {
            16 => {
                let last: u8 = *expanded.last().unwrap();
                for _ in 0..e.extra_value + 3 {
                    expanded.push(last);
                }
            }
            17 => expanded.resize(expanded.len() + e.extra_value as usize + 3, 0),
            18 => expanded.resize(expanded.len() + e.extra_value as usize + 11, 0),
            c => expanded.push(c),
        }
    }
    assert_eq!(expanded, lens);
    assert!(entries.len() < 10);
}

#[test]
fn symbols_of_lengths_and_distances() {
    assert_eq!(length_code(3), (257, 0, 0));
    assert_eq!(length_code(258), (285, 0, 0));
    assert_eq!(length_code(257), (284, 5, 30));
    assert_eq!(distance_code(1), (0, 0, 0));
    assert_eq!(distance_code(32768), (29, 13, 8191));
    let host = HostTables::new();
    let tables = DistTables::new();
    for d in 1..=32768u32 {
        let (sym, extra, value) = distance_code(d);
        assert_eq!(host.host_distance_code(d), (sym, extra, value));
        let e = tables.dist_entry(d);
        assert_eq!((e.sym as u32, e.extra_bits as u32), (sym, extra));
    }
    for l in 3..=258u32 {
        assert_eq!(host.host_length_code(l), length_code(l));
    }
}

fn assert_walk_matches(per_position: &[Token]) {
    let packed = pack_per_position(per_position);
    let walked: Vec<u32> = match plan_walk(&packed) {
        Some(run) => {
            assert_eq!(run.n_positions as usize, packed.len());
            let all = serial_walk(&packed);
            finish_walk(&all, all.len())
        }
        None => Vec::new(),
    };
    assert_eq!(
        unpack_walked(&walked),
        host_strict_greedy(per_position),
        "strict-greedy walk should match host on {} positions",
        per_position.len()
    );
}

fn assert_block_walk_matches(per_position: &[Token]) {
    let packed = pack_per_position(per_position);
    let walked: Vec<u32> = match plan_block_walk(&packed) {
        Some(run) => {
            assert_eq!(run.n_blocks as usize, packed.len().div_ceil(128));
            block_walk(&packed)
        }
        None => Vec::new(),
    };
    assert_eq!(
        unpack_walked(&walked),
        host_strict_greedy(per_position),
        "block-parallel walk should match host strict-greedy on {} positions",
        per_position.len()
    );
}

#[test]
fn block_empty() {
    assert_block_walk_matches(&[]);
}

#[test]
fn block_all_literals() {
    let t: Vec<Token> = (0..32u8).map(Token::literal).collect();
    assert_block_walk_matches(&t);
}

#[test]
fn block_single_back_ref() {
    let mut t: Vec<Token> = (0..8u8).map(Token::literal).collect();
    t.push(Token::back_ref(5, 3));
    for i in 9..16u8 {
        t.push(Token::literal(i));
    }
    assert_block_walk_matches(&t);
}

#[test]
fn block_many_blocks() {
    let mut t: Vec<Token> = Vec::new();
    for i in 0..4096u32 {
        if i % 13 == 0 && i > 0 {
            t.push(Token::back_ref(7, 1));
        } else {
            t.push(Token::literal((i & 0xff) as u8));
        }
    }
    assert_block_walk_matches(&t);
}

#[test]
fn block_back_ref_crosses_boundary() {
    let mut t: Vec<Token> = Vec::new();
    for i in 0..200u32 {
        t.push(Token::literal((i & 0xff) as u8));
    }
    t.push(Token::back_ref(50, 100));
    for i in 251..400u32 {
        t.push(Token::literal((i & 0xff) as u8));
    }
    assert_block_walk_matches(&t);
}

#[test]
fn block_realistic_size_all_literals() {
    let t: Vec<Token> = (0..131072u32)
        .map(|i| Token::literal((i & 0xff) as u8))
        .collect();
    assert_block_walk_matches(&t);
}

#[test]
fn empty() {
    assert_walk_matches(&[]);
}

#[test]
fn all_literals() {
    let t: Vec<Token> = (0..32u8).map(Token::literal).collect();
    assert_walk_matches(&t);
}

#[test]
fn walk_single_back_ref() {
    let mut t: Vec<Token> = (0..8u8).map(Token::literal).collect();
    t.push(Token::back_ref(5, 3));
    for i in 9..16u8 {
        t.push(Token::literal(i));
    }
    assert_walk_matches(&t);
}

#[test]
fn long_match_skips_positions() {
    let mut t = vec![Token::back_ref(100, 50)];
    for i in 1..200u32 {
        t.push(Token::literal((i & 0xff) as u8));
    }
    assert_walk_matches(&t);
}

#[test]
fn realistic_mix() {
    let mut t: Vec<Token> = Vec::new();
    for i in 0..256u32 {
        if i % 7 == 0 && i + 10 < 256 {
            t.push(Token::back_ref(5, 1));
        } else {
            t.push(Token::literal((i & 0xff) as u8));
        }
    }
    assert_walk_matches(&t);
}

fn or_bits(raw: &mut [u8], offset: u32, value: u32, count: u32) {
    for k in 0..count {
        if value >> k & 1 == 1 {
            let p: u32 = offset + k;
            raw[(p / 8) as usize] |= 1 << (p % 8);
        }
    }
}

/// Emits the atoms in an order of its own, as device threads do.
fn round_trip_via_gpu(tokens: &[Token]) {
    let plan = plan_fixed_emit(tokens);
    assert_eq!(plan.total_bits as u64, total_bits_for_fixed(tokens));
    let mut raw = vec![0u8; plan.output_bytes as usize];
    for atom in plan.atoms.iter().rev() {
        or_bits(&mut raw, atom.bit_offset, atom.value, atom.n_bits);
    }
    let deflate_bytes = trim_output(&raw, plan.total_bits as u64);
    assert_eq!(deflate_bytes, encode_fixed_block(tokens).unwrap());
    assert_eq!(
        inflate(&deflate_bytes),
        reconstruct(tokens),
        "emitted DEFLATE didn't round-trip to expected bytes"
    );
}

#[test]
fn literals_only() {
    let tokens: Vec<Token> = (0..64u8).map(Token::literal).collect();
    round_trip_via_gpu(&tokens);
}

#[test]
fn huffman_emit_single_back_ref() {
    let mut tokens: Vec<Token> = b"hello, ".iter().map(|&b| Token::literal(b)).collect();
    tokens.push(Token::back_ref(5, 7));
    round_trip_via_gpu(&tokens);
}

fn many_back_refs() -> Vec<Token> {
    let mut tokens: Vec<Token> = Vec::new();
    for i in 0..512u32 {
        tokens.push(Token::literal((i & 0xff) as u8));
    }
    for &(len, dist) in &[(3, 1), (11, 5), (35, 17), (131, 257)] {
        tokens.push(Token::back_ref(len, dist));
    }
    tokens
}

#[test]
fn many_back_refs_with_extra_bits() {
    let mut tokens: Vec<Token> = Vec::new();
    for i in 0..512u32 {
        tokens.push(Token::literal((i & 0xff) as u8));
    }
    for &(len, dist) in &[(3, 1), (11, 5), (35, 17), (131, 257)] {
        tokens.push(Token::back_ref(len, dist));
    }
    round_trip_via_gpu(&tokens);
}

#[test]
fn long_random_literal_stream() {
    let tokens: Vec<Token> = (0..2048u32)
        .map(|i| Token::literal((i.wrapping_mul(2654435761) as u32 & 0xff) as u8))
        .collect();
    round_trip_via_gpu(&tokens);
}

#[test]
fn empty_token_stream() {
    let (atoms, total_bits) = build_atoms_fixed(&[]);
    assert_eq!(total_bits, 10);
    assert_eq!(atoms.last().map(|a| a.bit_offset + a.n_bits), Some(10));
    round_trip_via_gpu(&[]);
    let plan = plan_fixed_emit(&[]);
    let mut raw = vec![0u8; plan.output_bytes as usize];
    for atom in &plan.atoms {
        or_bits(&mut raw, atom.bit_offset, atom.value, atom.n_bits);
    }
    let decoded = inflate(&trim_output(&raw, plan.total_bits as u64));
    assert!(decoded.is_empty());
}

struct DeviceTables {
    lit_lens: Vec<u32>,
    lit_codes: Vec<u32>,
    dist_lens: Vec<u32>,
    dist_codes: Vec<u32>,
}

/// Emits header, tokens and end of block with the tables that a device gets.
fn emit(run: &EmitRun, t: &DeviceTables) -> Vec<u8> {
    let mut raw = vec![0u8; run.live_bytes as usize];
    let mut at: u32 = 0;
    let mut put = |value: u32, count: u32| {
        or_bits(&mut raw, at, value, count);
        at += count;
    };
    for k in 0..run.header_bit_count {
        let byte: u8 = run.header_padded[(k / 8) as usize];
        put((byte >> (k % 8) & 1) as u32, 1);
    }
    for token in unpack_walked(&run.packed) {
        if token.is_literal() {
            let s: usize = token.distance as usize;
            put(t.lit_codes[s], t.lit_lens[s]);
        } else {
            let (sym, extra, value) = length_code(token.length);
            put(t.lit_codes[sym as usize], t.lit_lens[sym as usize]);
            put(value, extra);
            let (sym, extra, value) = distance_code(token.distance);
            put(t.dist_codes[sym as usize], t.dist_lens[sym as usize]);
            put(value, extra);
        }
    }
    put(t.lit_codes[256], t.lit_lens[256]);
    assert_eq!(at as u64, run.total_bits);
    finish_run(run, &raw)
}

fn round_trip_v2(tokens: &[Token]) -> Vec<u8> {
    let deflate_bytes: Vec<u8> = match plan_fixed_block_v2(tokens) {
        FixedEmit::Done(bytes) => bytes,
        FixedEmit::Run(run) => {
            let tables = DeviceTables {
                lit_lens: build_fixed_lit_lens(),
                lit_codes: build_fixed_lit_codes_pre(),
                dist_lens: build_fixed_dist_lens(),
                dist_codes: build_fixed_dist_codes_pre(),
            };
            emit(&run, &tables)
        }
    };
    assert_eq!(deflate_bytes, encode_fixed_block(tokens).unwrap());
    let decoded = inflate(&deflate_bytes);
    assert_eq!(
        decoded,
        reconstruct(tokens),
        "v2 round-trip mismatch on {} tokens",
        tokens.len()
    );
    decoded
}

#[test]
fn v2_literals_only() {
    let tokens: Vec<Token> = (0..64u8).map(Token::literal).collect();
    round_trip_v2(&tokens);
}

#[test]
fn v2_single_back_ref() {
    let mut tokens: Vec<Token> = b"hello, ".iter().map(|&b| Token::literal(b)).collect();
    tokens.push(Token::back_ref(5, 7));
    round_trip_v2(&tokens);
}

#[test]
fn v2_many_back_refs_with_extra_bits() {
    let mut tokens: Vec<Token> = Vec::new();
    for i in 0..512u32 {
        tokens.push(Token::literal((i & 0xff) as u8));
    }
    for &(len, dist) in &[(3, 1), (11, 5), (35, 17), (131, 257)] {
        tokens.push(Token::back_ref(len, dist));
    }
    round_trip_v2(&tokens);
}

#[test]
fn v2_long_random_literal_stream() {
    let tokens: Vec<Token> = (0..2048u32)
        .map(|i| Token::literal((i.wrapping_mul(2654435761) as u32 & 0xff) as u8))
        .collect();
    round_trip_v2(&tokens);
}

#[test]
fn v2_empty_token_stream() {
    let decoded = round_trip_v2(&[]);
    assert!(decoded.is_empty());
}

#[test]
fn v2_multi_workgroup() {
    let tokens: Vec<Token> = (0..4096u32)
        .map(|i| Token::literal((i & 0xff) as u8))
        .collect();
    round_trip_v2(&tokens);
}

fn round_trip_v3(tokens: &[Token]) {
    let deflate_bytes: Vec<u8> = match plan_dynamic_block_v3(tokens).expect("dynamic Huffman build")
    {
        DynamicEmit::Done(bytes) => bytes,
        DynamicEmit::Run(h, run) => {
            let tables = DeviceTables {
                lit_lens: h.lit_lens_u32,
                lit_codes: h.lit_codes_pre,
                dist_lens: h.dist_lens_u32,
                dist_codes: h.dist_codes_pre,
            };
            emit(&run, &tables)
        }
    };
    assert_eq!(deflate_bytes, encode_block(tokens).unwrap());
    assert_eq!(
        inflate(&deflate_bytes),
        reconstruct(tokens),
        "v3 dynamic round-trip mismatch on {} tokens",
        tokens.len()
    );
}

#[test]
fn v3_literals_only() {
    let tokens: Vec<Token> = (0..64u8).map(Token::literal).collect();
    round_trip_v3(&tokens);
}

#[test]
fn v3_single_back_ref() {
    let mut tokens: Vec<Token> = b"hello, ".iter().map(|&b| Token::literal(b)).collect();
    tokens.push(Token::back_ref(5, 7));
    round_trip_v3(&tokens);
}

#[test]
fn v3_many_back_refs_with_extra_bits() {
    let mut tokens: Vec<Token> = Vec::new();
    for i in 0..512u32 {
        tokens.push(Token::literal((i & 0xff) as u8));
    }
    for &(len, dist) in &[(3, 1), (11, 5), (35, 17), (131, 257)] {
        tokens.push(Token::back_ref(len, dist));
    }
    round_trip_v3(&tokens);
}

#[test]
fn v3_skewed_frequencies() {
    let mut tokens: Vec<Token> = Vec::new();
    for _ in 0..2000 {
        tokens.push(Token::literal(b'x'));
    }
    for i in 0..32u32 {
        tokens.push(Token::literal((i & 0xff) as u8));
    }
    round_trip_v3(&tokens);
}

#[test]
fn v3_multi_workgroup() {
    let tokens: Vec<Token> = (0..4096u32)
        .map(|i| Token::literal((i & 0xff) as u8))
        .collect();
    round_trip_v3(&tokens);
}

#[test]
fn all_encoders_agree() {
    let tokens = many_back_refs();
    round_trip_v2(&tokens);
    round_trip_v3(&tokens);
    assert_eq!(encode_block(&tokens).unwrap(), encode_block_fast(&tokens).unwrap());
}

/// Copies words, as the device does.
fn identity(input: &[u8]) -> Vec<u8> {
    let run = plan_identity(input);
    assert_eq!(run.input_padded.len() as u64, run.buffer_size);
    assert_eq!(run.input_padded.len() % 4, 0);
    finish_identity(run.input_padded, input.len())
}

#[test]
fn identity_round_trips_short_buffer() {
    let input: Vec<u8> = b"the quick brown fox jumps over the lazy dog".to_vec();
    let out = identity(&input);
    assert_eq!(out, input);
}

#[test]
fn identity_round_trips_unaligned_length() {
    let input: Vec<u8> = (0..1023u16).map(|i| (i % 251) as u8).collect();
    let out = identity(&input);
    assert_eq!(out, input);
}

#[test]
fn identity_round_trips_chunk_size() {
    let input: Vec<u8> = (0..(1 << 18)).map(|i: u32| (i % 251) as u8).collect();
    let out = identity(&input);
    assert_eq!(out, input);
}

#[test]
fn padding_to_words() {
    assert_eq!(pad_to_u32(b"abcde"), b"abcde\0\0\0".to_vec());
    assert_eq!(pad_to_u32(b"abcd"), b"abcd".to_vec());
    assert!(pad_to_u32(b"").is_empty());
    assert_eq!(div_ceil(7, 4), 2);
}

/// Searches on the host what a device is asked to search, and hands the tokens
/// back as words.
fn match_find(input: &[u8], window: u32) -> Vec<Token> {
    match plan_search(input, window) {
        None => Vec::new(),
        Some(run) => {
            assert_eq!(run.input_padded[..input.len()], *input);
            let mut words: Vec<u32> = Vec::new();
            for t in cpu_lz77(&run.input_padded[..run.params.input_len as usize], window as usize) {
                words.push(t.length);
                words.push(t.distance);
            }
            assert_eq!(run.token_bytes as usize, 4 * words.len());
            read_tokens(&words)
        }
    }
}

#[test]
fn empty_input_yields_no_tokens() {
    assert!(match_find(&[], 4096).is_empty());
}

#[test]
fn pure_literals_when_no_matches() {
    let input: Vec<u8> = (0..32).collect();
    let raw = match_find(&input, 4096);
    for (i, t) in raw.iter().enumerate() {
        assert!(t.is_literal(), "pos {i}: {:?}", t);
        assert_eq!(t.distance as u8, input[i]);
    }
    let walked = greedy_walk(&raw, &input);
    let restored = reconstruct(&walked);
    assert_eq!(restored, input);
}

#[test]
fn finds_obvious_repeat() {
    let mut input: Vec<u8> = Vec::new();
    for _ in 0..16 {
        input.extend_from_slice(b"abc");
    }
    let raw = match_find(&input, 4096);
    let t = raw[3];
    assert!(!t.is_literal(), "position 3 should be a match: {:?}", t);
    assert!(t.length >= 3);
    assert_eq!(t.distance, 3);

    let walked = greedy_walk(&raw, &input);
    let restored = reconstruct(&walked);
    assert_eq!(restored, input);
}

#[test]
fn round_trips_random_data() {
    let input: Vec<u8> = (0..2048u32)
        .map(|i| ((i.wrapping_mul(2654435761)) & 0xff) as u8)
        .collect();
    let raw = match_find(&input, 4096);
    let walked = greedy_walk(&raw, &input);
    let restored = reconstruct(&walked);
    assert_eq!(restored, input);
}

#[test]
fn round_trips_self_overlapping_match() {
    let input = vec![b'a'; 64];
    let raw = match_find(&input, 4096);
    let walked = greedy_walk(&raw, &input);
    let restored = reconstruct(&walked);
    assert_eq!(restored, input);
}

/// As `match_find`, for what the hash-chain search is asked.
fn hash_match_find(input: &[u8]) -> Vec<Token> {
    match plan_match_find(input, HASH_WINDOW) {
        None => Vec::new(),
        Some(run) => {
            let n: usize = run.params.input_len as usize;
            let mut words: Vec<u32> = Vec::new();
            for t in cpu_lz77(&run.input_padded[..n], run.params.window as usize) {
                words.push(t.length);
                words.push(t.distance);
            }
            read_tokens(&words)
        }
    }
}

fn hash_round_trip(input: &[u8]) {
    let raw = hash_match_find(input);
    let walked = greedy_walk(&raw, input);
    let restored = reconstruct(&walked);
    assert_eq!(
        restored,
        input,
        "round trip mismatch on input len {}",
        input.len()
    );
}

#[test]
fn lz77_hash_empty_input() {
    assert!(hash_match_find(&[]).is_empty());
}

#[test]
fn small_no_match() {
    hash_round_trip(&(0..32u8).collect::<Vec<_>>());
}

#[test]
fn lz77_hash_obvious_repeat() {
    let input: Vec<u8> = b"abcabcabcabcabcabcabcabc".repeat(8).to_vec();
    hash_round_trip(&input);
}

#[test]
fn self_overlap() {
    hash_round_trip(&[b'q'; 64]);
}

#[test]
fn lz77_hash_pseudo_random() {
    let input: Vec<u8> = (0..2048u32)
        .map(|i| (i.wrapping_mul(2654435761)) as u8)
        .collect();
    hash_round_trip(&input);
}

#[test]
fn larger_text() {
    let mut input: Vec<u8> = Vec::new();
    for i in 0..512 {
        input.extend_from_slice(format!("line {i}: the quick brown fox\n").as_bytes());
    }
    hash_round_trip(&input);
}

#[test]
fn batches_of_searches() {
    assert!(plan_match_find(&[], 32768).is_none());
    let one = plan_match_find(b"abcabc", 32768).unwrap();
    assert_eq!(one.capacity, 6);
    assert_eq!(one.token_bytes, 48);
    assert_eq!(one.params.input_len, 6);
    let batch = plan_match_find_batch(&[b"abc".to_vec(), Vec::new()], 32768);
    assert_eq!(batch.len(), 2);
    assert_eq!(batch[0].params.input_len, 3);
    assert_eq!(batch[1].params.input_len, 0);
    let sizes = buffer_sizes(6);
    assert_eq!((sizes.input, sizes.heads, sizes.next, sizes.tokens), (8, 262144, 32, 48));
    assert!(takes_more(7));
    assert!(!takes_more(8));
}

#[test]
fn pooled_buffers_fit() {
    let mut pool: BufferPool<&str> = BufferPool::new();
    assert!(pool.acquire(1).is_none());
    pool.release(20, "twenty");
    pool.release(10, "ten");
    pool.release(30, "thirty");
    pool.release(12, "twelve");
    assert_eq!(pool.acquire(15), Some((30, "thirty")));
    assert_eq!(pool.acquire(5), Some((12, "twelve")));
    assert_eq!(pool.acquire(15), Some((20, "twenty")));
    assert_eq!(pool.acquire(15), None);
    assert_eq!(pool.acquire(5), Some((10, "ten")));
    for _ in 0..20 {
        pool.release(1, "x");
    }
    let mut held: usize = 0;
    while pool.acquire(0).is_some() {
        held += 1;
    }
    assert_eq!(held, 8);
}

#[test]
fn device_settings() {
    assert!(backends_from_setting(None) == BackendFilter::Primary);
    assert!(backends_from_setting(Some("vulkan")) == BackendFilter::Vulkan);
    assert!(backends_from_setting(Some("all")) == BackendFilter::All);
    assert!(backends_from_setting(Some("???")) == BackendFilter::Primary);
    assert!(adapter_from_setting(Some("2")) == AdapterChoice::Index(2));
    assert!(adapter_from_setting(Some("low")) == AdapterChoice::LowPower);
    assert!(adapter_from_setting(None) == AdapterChoice::HighPerformance);
    assert!(adapter_from_setting(Some("-1")) == AdapterChoice::NotUnderstood);
    assert!(matches!(check_index(1, 2), Ok(1)));
    match check_index(2, 2) {
        Err(e) => {
            assert!(matches!(e, InitError::BadIndex { requested: 2, available: 2 }));
            assert!(e.message().contains('2'));
        }
        Ok(i) => panic!("{i}"),
    }
}

/// Literals whose counts grow as the Fibonacci numbers do, so that their codes
/// and that of the end of the block differ by one bit each.
fn steep_literals(symbols: u8) -> Vec<Token> {
    let mut tokens: Vec<Token> = Vec::new();
    let (mut a, mut b) = (1usize, 2usize);
    for s in 0..symbols {
        for _ in 0..a {
            tokens.push(Token::literal(s));
        }
        (a, b) = (b, a + b);
    }
    tokens
}

#[test]
fn blocks_say_what_kind_they_are() {
    for tokens in [many_back_refs(), steep_literals(12)] {
        let bytes = encode_block(&tokens).unwrap();
        assert_eq!(bytes[0] & 7, 0b101);
        assert_eq!(bytes, encode_block_fast(&tokens).unwrap());
        assert_eq!(inflate(&bytes), reconstruct(&tokens));
        let plain = encode_fixed_block(&tokens).unwrap();
        assert_eq!(plain[0] & 7, 0b011);
        assert_eq!(plain.len() as u64, total_bits_for_fixed(&tokens).div_ceil(8));
    }
    // Codes of its own would be longer than 15 bits.
    let steep = steep_literals(18);
    assert!(build_dynamic_huffman(&steep).is_none());
    let bytes = encode_block(&steep).unwrap();
    assert_eq!(bytes[0] & 7, 0b011);
    assert_eq!(bytes, encode_fixed_block(&steep).unwrap());
    assert_eq!(bytes, encode_block_fast(&steep).unwrap());
    assert_eq!(inflate(&bytes), reconstruct(&steep));
}

fn bit(bytes: &[u8], p: usize) -> bool {
    bytes[p / 8] >> (p % 8) & 1 == 1
}

#[test]
fn blocks_end_in_zero_bits() {
    let tokens = many_back_refs();
    let bytes = encode_fixed_block(&tokens).unwrap();
    let end = total_bits_for_fixed(&tokens) as usize;
    for p in end..8 * bytes.len() {
        assert!(!bit(&bytes, p));
    }
}

#[test]
fn device_headers_begin_host_blocks() {
    let tokens = many_back_refs();
    let made = build_dynamic_huffman(&tokens).unwrap();
    let bytes = encode_block(&tokens).unwrap();
    let n = made.header_bit_count as usize;
    assert_eq!(made.header_bytes.len(), n.div_ceil(8));
    for p in 0..n {
        assert_eq!(bit(&made.header_bytes, p), bit(&bytes, p));
    }
    let total = n as u64 + made.body_bit_count + made.eob_bits;
    assert_eq!(bytes.len() as u64, total.div_ceil(8));
}

#[test]
fn writes_follow_each_other() {
    let (atoms, total) = build_atoms_fixed(&many_back_refs());
    let mut at: u32 = 0;
    for a in &atoms {
        assert_eq!(a.bit_offset, at);
        assert!(a.n_bits > 0);
        at += a.n_bits;
    }
    assert_eq!(at, total);
}

#[test]
fn batches_stand_for_their_chunks() {
    let inputs = vec![b"abcabcabcabc".to_vec(), Vec::new(), b"zz zz zz zz zz".repeat(20)];
    let runs = plan_match_find_batch(&inputs, HASH_WINDOW);
    assert_eq!(runs.len(), inputs.len());
    for (input, run) in inputs.iter().zip(&runs) {
        let found = cpu_lz77(input, 32768);
        let words: Vec<u32> = found.iter().flat_map(|t| [t.length, t.distance]).collect();
        assert_eq!(words.len() as u64 * 4, run.token_bytes);
        let tokens = greedy_walk(&read_tokens(&words), input);
        assert_eq!(&reconstruct(&tokens), input);
    }
}

#[test]
fn device_members_are_read_one_after_the_other() {
    let inputs = [b"first first first".to_vec(), Vec::new(), b"second second".repeat(30)];
    let mut stream: Vec<u8> = Vec::new();
    for input in &inputs {
        stream.extend(gzip_chunk(&cpu_lz77(input, 32768), input).unwrap());
    }
    assert_eq!(gunzip(&stream), inputs.concat());
    assert_eq!(parallel_decompress(&stream).unwrap(), inputs.concat());
}
