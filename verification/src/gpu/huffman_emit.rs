//! A block under the fixed code as a list of writes that a device can do in
//! any order: each write knows its place in the bit stream.
use crate::gpu::bits;
use crate::gpu::block;
use crate::gpu::dispatch;
use crate::gpu::fixed;
use crate::gpu::inflate;
use crate::gpu::lz77;
use crate::gpu::lz77::Token;
use crate::gpu::tables;
use vstd::arithmetic::power2;
use vstd::prelude::*;

verus! {

/// One write of `n_bits` bits at `bit_offset`.
#[derive(Debug, Clone, Copy, PartialEq, Eq, Structural)]
pub struct Atom {
    pub bit_offset: u32,
    pub value: u32,
    pub n_bits: u32,
}

/// The bits of all the writes, one after the other.
pub open spec fn atoms_bits(atoms: Seq<Atom>) -> Seq<bool>
    decreases atoms.len(),
{
    if atoms.len() == 0 {
        Seq::empty()
    } else {
        atoms_bits(atoms.drop_last()) + bits::lsb_bits(
            atoms.last().value as nat,
            atoms.last().n_bits as nat,
        )
    }
}

/// Each write begins where the one before it ends, and its value fits.
pub open spec fn atoms_placed(atoms: Seq<Atom>) -> bool
    decreases atoms.len(),
{
    atoms.len() > 0 ==> {
        &&& atoms_placed(atoms.drop_last())
        &&& atoms.last().bit_offset == atoms_bits(atoms.drop_last()).len()
        &&& atoms.last().n_bits > 0
        &&& atoms.last().value < power2::pow2(atoms.last().n_bits as nat)
    }
}

/// Appends a write, unless it is empty.
fn push_atom(atoms: &mut Vec<Atom>, bit_offset: &mut u32, value: u32, n_bits: u32)
    requires
        atoms_placed(old(atoms)@),
        *old(bit_offset) == atoms_bits(old(atoms)@).len(),
        *old(bit_offset) + n_bits <= u32::MAX,
        value < power2::pow2(n_bits as nat),
    ensures
        atoms_placed(final(atoms)@),
        atoms_bits(final(atoms)@) == atoms_bits(old(atoms)@) + bits::lsb_bits(
            value as nat,
            n_bits as nat,
        ),
        *final(bit_offset) == atoms_bits(final(atoms)@).len(),
        final(atoms)@.len() >= old(atoms)@.len(),
        n_bits > 0 ==> final(atoms)@.len() > 0,
{
    proof {
        bits::lemma_lsb_len(value as nat, n_bits as nat);
    }
    if n_bits == 0 {
        assert(atoms_bits(atoms@) + bits::lsb_bits(value as nat, 0) =~= atoms_bits(atoms@));
        return ;
    }
    let ghost start = atoms@;
    atoms.push(Atom { bit_offset: *bit_offset, value, n_bits });
    assert(atoms@.drop_last() =~= start);
    *bit_offset = *bit_offset + n_bits;
}

proof fn lemma_body_grows(lit_lens: Seq<u8>, dist_lens: Seq<u8>, tokens: Seq<Token>)
    requires
        tokens.len() > 0,
    ensures
        block::body_bits(lit_lens, dist_lens, tokens).len() == block::token_bits(
            lit_lens,
            dist_lens,
            tokens[0],
        ).len() + block::body_bits(lit_lens, dist_lens, tokens.skip(1)).len(),
{
}

/// The writes of a block under the fixed code, and their total number of bits.
pub fn build_atoms_fixed(tokens: &[Token]) -> (r: (Vec<Atom>, u32))
    requires
        lz77::all_encodable(tokens@),
        block::fixed_block_bits(tokens@).len() <= u32::MAX,
    ensures
        atoms_placed(r.0@),
        atoms_bits(r.0@) == block::fixed_block_bits(tokens@),
        r.1 == block::fixed_block_bits(tokens@).len(),
        r.0@.len() > 0,
{
    let ghost ll = fixed::litlen_lens();
    let ghost dl = fixed::dist_lens();
    let ghost all = block::fixed_block_bits(tokens@);
    let mut atoms: Vec<Atom> = Vec::new();
    let mut bit_offset: u32 = 0;
    proof {
        power2::lemma2_to64();
        bits::lemma_lsb_len(0b011, 3);
    }
    push_atom(&mut atoms, &mut bit_offset, 0b011, 3);
    let mut i: usize = 0;
    proof {
        assert(tokens@.skip(0) =~= tokens@);
        assert(atoms_bits(atoms@) =~= bits::lsb_bits(0b011, 3));
    }
    while i < tokens.len()
        invariant
            i <= tokens@.len(),
            lz77::all_encodable(tokens@),
            ll == fixed::litlen_lens(),
            dl == fixed::dist_lens(),
            atoms_placed(atoms@),
            atoms@.len() > 0,
            bit_offset == atoms_bits(atoms@).len(),
            atoms_bits(atoms@) + block::body_bits(ll, dl, tokens@.skip(i as int)) == all,
            all.len() <= u32::MAX,
        decreases tokens@.len() - i,
    {
        let tok = tokens[i];
        let ghost start = atoms_bits(atoms@);
        let ghost rest = tokens@.skip(i as int);
        proof {
            assert(tokens@[i as int].encodable());
            assert(rest[0] == tok);
            assert(rest.skip(1) =~= tokens@.skip(i + 1));
            lemma_body_grows(ll, dl, rest);
            assert(all.len() == start.len() + block::body_bits(ll, dl, rest).len());
            block::lemma_symbols(tok);
            fixed::lemma_litlen_canonical(block::lit_symbol(tok));
            bits::lemma_msb_len(
                fixed::litlen_code(block::lit_symbol(tok)).0 as nat,
                fixed::litlen_code(block::lit_symbol(tok)).1 as nat,
            );
        }
        if tok.is_literal() {
            let (code, nbits) = fixed::fixed_litlen_code(tok.distance);
            push_atom(&mut atoms, &mut bit_offset, bits::reverse_bits(code, nbits), nbits);
        } else {
            let (lcode, lextra_bits, lextra_val) = tables::length_code(tok.length);
            let (dcode, dextra_bits, dextra_val) = tables::distance_code(tok.distance);
            proof {
                tables::lemma_length_row(tok.length as int);
                tables::lemma_dist_row(tok.distance as int);
                fixed::lemma_dist_canonical(block::dist_symbol(tok));
                bits::lemma_lsb_len(lextra_val as nat, lextra_bits as nat);
                bits::lemma_lsb_len(dextra_val as nat, dextra_bits as nat);
                bits::lemma_msb_len(dcode as nat, 5);
            }
            let (lhuf, lhuf_bits) = fixed::fixed_litlen_code(lcode);
            push_atom(&mut atoms, &mut bit_offset, bits::reverse_bits(lhuf, lhuf_bits), lhuf_bits);
            push_atom(&mut atoms, &mut bit_offset, lextra_val, lextra_bits);
            push_atom(&mut atoms, &mut bit_offset, bits::reverse_bits(dcode, 5), 5);
            push_atom(&mut atoms, &mut bit_offset, dextra_val, dextra_bits);
        }
        proof {
            assert(atoms_bits(atoms@) =~= start + block::token_bits(ll, dl, tok));
            assert(atoms_bits(atoms@) + block::body_bits(ll, dl, tokens@.skip(i + 1)) =~= start
                + block::body_bits(ll, dl, rest));
        }
        i = i + 1;
    }
    proof {
        fixed::lemma_litlen_canonical(256);
        bits::lemma_msb_len(
            fixed::litlen_code(256).0 as nat,
            fixed::litlen_code(256).1 as nat,
        );
    }
    let (eob, eob_bits) = fixed::fixed_litlen_code(256);
    push_atom(&mut atoms, &mut bit_offset, bits::reverse_bits(eob, eob_bits), eob_bits);
    (atoms, bit_offset)
}

/// What a device is given to emit a block: the writes, how many bytes of
/// output to hold, and how many groups of 256 writes to run.
pub struct EmitPlan {
    pub atoms: Vec<Atom>,
    pub total_bits: u32,
    pub output_bytes: u64,
    pub workgroups: u32,
}

/// Plans the emission of a block. The output has one word to spare, into
/// which the last write may spill.
pub fn plan_fixed_emit(tokens: &[Token]) -> (r: EmitPlan)
    requires
        lz77::all_encodable(tokens@),
        block::fixed_block_bits(tokens@).len() <= u32::MAX,
    ensures
        atoms_placed(r.atoms@),
        atoms_bits(r.atoms@) == block::fixed_block_bits(tokens@),
        r.total_bits == block::fixed_block_bits(tokens@).len(),
        r.output_bytes == 4 * (dispatch::ceil_div(r.total_bits as int, 32) + 1),
        r.workgroups == dispatch::ceil_div(r.atoms@.len() as int, 256),
{
    let (atoms, total_bits) = build_atoms_fixed(tokens);
    proof {
        lemma_atoms_len(atoms@);
    }
    let words: u64 = dispatch::div_ceil(total_bits as u64, 32) + 1;
    let workgroups: u32 = dispatch::div_ceil(atoms.len() as u64, 256) as u32;
    EmitPlan { atoms, total_bits, output_bytes: 4 * words, workgroups }
}

proof fn lemma_atoms_len(atoms: Seq<Atom>)
    requires
        atoms_placed(atoms),
    ensures
        atoms.len() <= atoms_bits(atoms).len(),
    decreases atoms.len(),
{
    if atoms.len() > 0 {
        lemma_atoms_len(atoms.drop_last());
        bits::lemma_lsb_len(atoms.last().value as nat, atoms.last().n_bits as nat);
    }
}

/// The writes cover the stream without gaps and without overlaps: the first
/// begins at its start, each of the others where the one before it ends, and the
/// last ends where the stream does. None of them is empty.
pub proof fn law_writes_tile_the_stream(atoms: Seq<Atom>)
    requires
        atoms_placed(atoms),
        atoms.len() > 0,
    ensures
        atoms[0].bit_offset == 0,
        forall|i: int|
            0 < i < atoms.len() ==> (#[trigger] atoms[i]).bit_offset == atoms[i - 1].bit_offset
                + atoms[i - 1].n_bits,
        forall|i: int| 0 <= i < atoms.len() ==> (#[trigger] atoms[i]).n_bits > 0,
        atoms.last().bit_offset + atoms.last().n_bits == atoms_bits(atoms).len(),
    decreases atoms.len(),
{
    let init = atoms.drop_last();
    bits::lemma_lsb_len(atoms.last().value as nat, atoms.last().n_bits as nat);
    if init.len() > 0 {
        law_writes_tile_the_stream(init);
        assert forall|i: int| 0 < i < atoms.len() implies (#[trigger] atoms[i]).bit_offset
            == atoms[i - 1].bit_offset + atoms[i - 1].n_bits by {
            assert(atoms[i - 1] == init[i - 1]);
            if i < init.len() {
                assert(atoms[i] == init[i]);
            }
        }
        assert forall|i: int| 0 <= i < atoms.len() implies (#[trigger] atoms[i]).n_bits > 0 by {
            if i < init.len() {
                assert(atoms[i] == init[i]);
            }
        }
    }
}

/// Some write sets the bit at `p`.
pub open spec fn written(atoms: Seq<Atom>, p: int) -> bool {
    exists|i: int| 0 <= i < atoms.len() && #[trigger] sets_bit(atoms[i], p)
}

/// The write sets the bit at `p`.
pub open spec fn sets_bit(atom: Atom, p: int) -> bool {
    &&& atom.bit_offset <= p < atom.bit_offset + atom.n_bits
    &&& bits::lsb_bits(atom.value as nat, atom.n_bits as nat)[p - atom.bit_offset]
}

proof fn lemma_written(atoms: Seq<Atom>, p: int)
    requires
        atoms_placed(atoms),
        0 <= p,
    ensures
        p < atoms_bits(atoms).len() ==> written(atoms, p) == atoms_bits(atoms)[p],
        p >= atoms_bits(atoms).len() ==> !written(atoms, p),
    decreases atoms.len(),
{
    if atoms.len() > 0 {
        let init = atoms.drop_last();
        let last = atoms.last();
        let n = atoms.len() - 1;
        lemma_written(init, p);
        bits::lemma_lsb_len(last.value as nat, last.n_bits as nat);
        assert(written(atoms, p) == (written(init, p) || sets_bit(last, p))) by {
            if written(init, p) {
                let i = choose|i: int| 0 <= i < init.len() && #[trigger] sets_bit(init[i], p);
                assert(sets_bit(atoms[i], p));
            }
            if sets_bit(last, p) {
                assert(sets_bit(atoms[n], p));
            }
            if written(atoms, p) {
                let i = choose|i: int| 0 <= i < atoms.len() && #[trigger] sets_bit(atoms[i], p);
                if i < n {
                    assert(sets_bit(init[i], p));
                }
            }
        }
    }
}

proof fn lemma_trimmed_writes(raw: Seq<u8>, atoms: Seq<Atom>)
    requires
        atoms_placed(atoms),
        atoms_bits(atoms).len() <= 8 * raw.len(),
        forall|p: int|
            0 <= p < 8 * raw.len() ==> #[trigger] bits::bytes_bits(raw)[p] == written(atoms, p),
    ensures
        dispatch::ceil_div(atoms_bits(atoms).len() as int, 8) <= raw.len(),
        bits::bytes_bits(raw.take(dispatch::ceil_div(atoms_bits(atoms).len() as int, 8)))
            == bits::pad_to_byte(atoms_bits(atoms)),
{
    let b = atoms_bits(atoms);
    let n = dispatch::ceil_div(b.len() as int, 8);
    bits::lemma_bytes_bits_len(raw);
    dispatch::lemma_bytes_bits_take(raw, n);
    let all = bits::bytes_bits(raw);
    let padded = bits::pad_to_byte(b);
    assert(padded.len() == 8 * n);
    assert forall|p: int| 0 <= p < 8 * n implies #[trigger] all.take(8 * n)[p] == padded[p] by {
        lemma_written(atoms, p);
        assert(all[p] == written(atoms, p));
    }
    assert(all.take(8 * n) =~= padded);
}

/// The order of the writes does not matter: if the bits of the device's output
/// are those that some write sets, then the trimmed output is the block, filled
/// up with zero bits, and a decoder gets the tokens back.
pub proof fn law_device_output_is_the_block(raw: Seq<u8>, tokens: Seq<Token>, atoms: Seq<Atom>)
    requires
        lz77::all_encodable(tokens),
        atoms_placed(atoms),
        atoms_bits(atoms) == block::fixed_block_bits(tokens),
        block::fixed_block_bits(tokens).len() <= 8 * raw.len(),
        forall|p: int|
            0 <= p < 8 * raw.len() ==> #[trigger] bits::bytes_bits(raw)[p] == written(atoms, p),
    ensures
        ({
            let b = block::fixed_block_bits(tokens);
            let trimmed = raw.take(dispatch::ceil_div(b.len() as int, 8));
            &&& dispatch::ceil_div(b.len() as int, 8) <= raw.len()
            &&& bits::bytes_bits(trimmed) == bits::pad_to_byte(b)
            &&& inflate::read_block(bits::bytes_bits(trimmed)) == Some(
                (tokens, bits::zero_bits(bits::byte_padding(b.len()))),
            )
        }),
{
    let b = block::fixed_block_bits(tokens);
    lemma_trimmed_writes(raw, atoms);
    inflate::law_fixed_block_decodes(tokens, bits::zero_bits(bits::byte_padding(b.len())));
}

/// A plan has room for its block and a word more, in whole words, and a thread for
/// each write.
pub proof fn law_plans_have_room(tokens: &[Token], r: EmitPlan)
    requires
        lz77::all_encodable(tokens@),
        block::fixed_block_bits(tokens@).len() <= u32::MAX,
        call_ensures(plan_fixed_emit, (tokens,), r),
    ensures
        r.output_bytes % 4 == 0,
        8 * r.output_bytes >= r.total_bits + 32,
        8 * r.output_bytes < r.total_bits + 64,
        256 * r.workgroups >= r.atoms@.len(),
        256 * (r.workgroups - 1) < r.atoms@.len(),
        r.total_bits == block::fixed_block_bits(tokens@).len(),
        atoms_bits(r.atoms@) == block::fixed_block_bits(tokens@),
{
}

} // verus!
