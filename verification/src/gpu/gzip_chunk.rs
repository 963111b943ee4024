//! From the matches that the device found to a gzip member.
use crate::error::Error;
use crate::gpu::bits;
use crate::gpu::block;
use crate::gpu::deflate;
use crate::gpu::inflate;
use crate::gpu::lz77;
use crate::gpu::lz77::Token;
use crate::gzip;
use vstd::prelude::*;

verus! {

/// Whether a DEFLATE block can hold all the tokens.
pub fn tokens_encodable(tokens: &[Token]) -> (r: bool)
    ensures
        r == lz77::all_encodable(tokens@),
{
    let n: usize = tokens.len();
    let mut i: usize = 0;
    while i < n
        invariant
            i <= n == tokens@.len(),
            forall|k: int| 0 <= k < i ==> (#[trigger] tokens@[k]).encodable(),
        decreases n - i,
    {
        let t = tokens[i];
        let fits: bool = if t.length == 0 {
            t.distance <= 255
        } else {
            3 <= t.length && t.length <= 258 && 1 <= t.distance && t.distance <= 32768
        };
        if !fits {
            assert(!tokens@[i as int].encodable());
            return false;
        }
        i = i + 1;
    }
    true
}

/// The member is that of the tokens which the lazy walk selects, in one DEFLATE
/// block.
pub open spec fn is_chunk_member(per_position: Seq<Token>, input: Seq<u8>, member: Seq<u8>) -> bool {
    exists|bytes: Seq<u8>|
        #![trigger gzip::member(bytes, input)]
        {
            &&& bits::bytes_bits(bytes) == bits::pad_to_byte(
                block::block_bits(lz77::lazy_tokens(per_position, input, 0)),
            )
            &&& member == gzip::member(bytes, input)
        }
}

/// Encodes a chunk, given the match at each position of it, as a gzip member.
/// Where the matches are true of the input, the member stands for the input,
/// alone and in front of others.
pub fn gzip_chunk(per_position: &[Token], input: &[u8]) -> (r: Result<Vec<u8>, Error>)
    requires
        per_position@.len() == input@.len(),
        lz77::all_encodable(per_position@),
        input@.len() < u32::MAX,
    ensures
        r is Ok,
        r matches Ok(m) ==> is_chunk_member(per_position@, input@, m@),
        r matches Ok(m) ==> lz77::matches_input(per_position@, input@) ==> inflate::is_member(
            m@,
            input@,
        ),
{
    let tokens = lz77::greedy_walk(per_position, input);
    proof {
        lz77::lemma_lazy_encodable(per_position@, input@, 0);
    }
    match deflate::encode_block_fast(tokens.as_slice()) {
        Ok(bytes) => {
            proof {
                if lz77::matches_input(per_position@, input@) {
                    inflate::law_gzip_round_trip(per_position@, input@, bytes@);
                }
            }
            Ok(gzip::gzip_wrap(bytes.as_slice(), input))
        },
        Err(e) => Err(e),
    }
}

/// A chunk becomes the gzip member around the one block that holds what the lazy
/// walk selects, as the encoder writes it.
pub proof fn law_chunk_is_the_walk_encoded(
    per_position: &[Token],
    input: &[u8],
    walked: Vec<Token>,
    tokens: &[Token],
    encoded: Result<Vec<u8>, Error>,
    r: Result<Vec<u8>, Error>,
)
    requires
        per_position@.len() == input@.len(),
        lz77::all_encodable(per_position@),
        input@.len() < u32::MAX,
        call_ensures(lz77::greedy_walk, (per_position, input), walked),
        tokens@ == walked@,
        lz77::all_encodable(tokens@),
        tokens@.len() < u32::MAX,
        call_ensures(deflate::encode_block, (tokens,), encoded),
        call_ensures(gzip_chunk, (per_position, input), r),
    ensures
        encoded matches Ok(block) && (r matches Ok(member) && member@ == gzip::member(
            block@,
            input@,
        )),
        encoded matches Ok(block) ==> inflate::read_block(bits::bytes_bits(block@)) == Some(
            (
                walked@,
                bits::zero_bits(bits::byte_padding(block::block_bits(walked@).len())),
            ),
        ),
{
    let block = encoded->Ok_0;
    let member = r->Ok_0;
    let bytes = choose|bytes: Seq<u8>|
        #![trigger gzip::member(bytes, input@)]
        {
            &&& bits::bytes_bits(bytes) == bits::pad_to_byte(
                block::block_bits(lz77::lazy_tokens(per_position@, input@, 0)),
            )
            &&& member@ == gzip::member(bytes, input@)
        };
    bits::law_same_bits_same_bytes(bytes, block@);
    inflate::law_block_decodes(
        walked@,
        bits::zero_bits(bits::byte_padding(block::block_bits(walked@).len())),
    );
}

/// Tokens can be encoded exactly if each is a byte, or a match of 3 to 258 bytes
/// that reaches back by 1 to 32768.
pub proof fn law_encodable_tokens(tokens: &[Token], r: bool)
    requires
        call_ensures(tokens_encodable, (tokens,), r),
    ensures
        r <==> forall|i: int|
            0 <= i < tokens@.len() ==> ((#[trigger] tokens@[i]).length == 0 && tokens@[i].distance
                <= 255) || (3 <= tokens@[i].length <= 258 && 1 <= tokens@[i].distance <= 32768),
{
    if r {
        assert forall|i: int| 0 <= i < tokens@.len() implies ((#[trigger] tokens@[i]).length == 0
            && tokens@[i].distance <= 255) || (3 <= tokens@[i].length <= 258 && 1
            <= tokens@[i].distance <= 32768) by {
            assert(tokens@[i].encodable());
        }
    } else {
        let i = choose|i: int|
            0 <= i < tokens@.len() && !(#[trigger] tokens@[i]).encodable();
        assert(!tokens@[i].encodable());
    }
}

} // verus!
