//! Bytes that go to the device and come back unchanged.
use crate::gpu::dispatch;
use vstd::prelude::*;

verus! {

/// `n` zero bytes.
pub open spec fn zero_bytes(n: nat) -> Seq<u8> {
    Seq::new(n, |i: int| 0u8)
}

/// The bytes, filled up with zeros to a whole number of words.
pub open spec fn padded_to_words(input: Seq<u8>) -> Seq<u8> {
    input + zero_bytes(((4 - input.len() % 4) % 4) as nat)
}

/// Fills bytes up with zeros to a whole number of words.
pub fn pad_to_u32(input: &[u8]) -> (r: Vec<u8>)
    ensures
        r@ == padded_to_words(input@),
{
    let mut out: Vec<u8> = Vec::with_capacity(input.len());
    out.extend_from_slice(input);
    let over: usize = input.len() % 4;
    let missing: usize = (4 - over) % 4;
    let mut i: usize = 0;
    assert(out@ =~= input@ + zero_bytes(0));
    while i < missing
        invariant
            i <= missing < 4,
            out@ == input@ + zero_bytes(i as nat),
        decreases missing - i,
    {
        out.push(0);
        i = i + 1;
        assert(out@ =~= input@ + zero_bytes(i as nat));
    }
    out
}

/// What an identity run on the device is given.
pub struct IdentityRun {
    pub input_padded: Vec<u8>,
    pub buffer_size: u64,
    pub workgroups: u32,
}

/// Plans an identity run: words in groups of 64.
pub fn plan_identity(input: &[u8]) -> (r: IdentityRun)
    requires
        input@.len() <= 0x1_0000_0000,
    ensures
        r.input_padded@ == padded_to_words(input@),
        r.buffer_size == r.input_padded@.len(),
        r.workgroups == dispatch::ceil_div(r.input_padded@.len() as int / 4, 64),
{
    let input_padded = pad_to_u32(input);
    let buffer_size: u64 = input_padded.len() as u64;
    let workgroups: u32 = dispatch::div_ceil(buffer_size / 4, 64) as u32;
    IdentityRun { input_padded, buffer_size, workgroups }
}

/// Cuts what came back to the length of what was sent.
pub fn finish_identity(raw: Vec<u8>, input_len: usize) -> (r: Vec<u8>)
    ensures
        r@ == (if input_len <= raw@.len() {
            raw@.take(input_len as int)
        } else {
            raw@
        }),
{
    let mut out = raw;
    out.truncate(input_len);
    assert(input_len <= raw@.len() ==> out@ =~= raw@.take(input_len as int));
    out
}

/// A device that hands its buffer back unchanged gives back the input.
pub proof fn law_identity_round_trip(input: Seq<u8>)
    ensures
        input.len() <= padded_to_words(input).len(),
        padded_to_words(input).take(input.len() as int) == input,
        padded_to_words(input).len() % 4 == 0,
{
    assert(padded_to_words(input).take(input.len() as int) =~= input);
}

/// Filling up adds fewer than four bytes, and all of them are zero.
pub proof fn law_filling_up_adds_zeros(input: &[u8], r: Vec<u8>)
    requires
        call_ensures(pad_to_u32, (input,), r),
    ensures
        r@.len() % 4 == 0,
        input@.len() <= r@.len() < input@.len() + 4,
        r@.take(input@.len() as int) == input@,
        forall|i: int| input@.len() <= i < r@.len() ==> #[trigger] r@[i] == 0,
{
    law_identity_round_trip(input@);
}

} // verus!
