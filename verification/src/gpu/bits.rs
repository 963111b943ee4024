//! Bit sequences and the writers that pack them into bytes.
//!
//! DEFLATE fills each byte from its least significant bit upwards. Plain
//! integers go in least significant bit first, Huffman codes most significant
//! bit first.
use vstd::arithmetic::div_mod;
use vstd::arithmetic::power2;
use vstd::prelude::*;

verus! {

/// The low `count` bits of `value`, least significant first.
pub open spec fn lsb_bits(value: nat, count: nat) -> Seq<bool>
    decreases count,
{
    if count == 0 {
        Seq::empty()
    } else {
        seq![value % 2 == 1] + lsb_bits(value / 2, (count - 1) as nat)
    }
}

/// The low `count` bits of `code`, most significant first.
pub open spec fn msb_bits(code: nat, count: nat) -> Seq<bool> {
    lsb_bits(code, count).reverse()
}

/// The bits of a byte string, each byte from its least significant bit.
pub open spec fn bytes_bits(bytes: Seq<u8>) -> Seq<bool>
    decreases bytes.len(),
{
    if bytes.len() == 0 {
        Seq::empty()
    } else {
        bytes_bits(bytes.drop_last()) + lsb_bits(bytes.last() as nat, 8)
    }
}

/// `n` zero bits.
pub open spec fn zero_bits(n: nat) -> Seq<bool> {
    Seq::new(n, |i: int| false)
}

/// How many bits are missing to the next byte boundary.
pub open spec fn byte_padding(n: nat) -> nat {
    ((8 - n % 8) % 8) as nat
}

/// `bits` followed by zero bits up to the next byte boundary.
pub open spec fn pad_to_byte(bits: Seq<bool>) -> Seq<bool> {
    bits + zero_bits(byte_padding(bits.len()))
}

pub proof fn lemma_lsb_len(value: nat, count: nat)
    ensures
        lsb_bits(value, count).len() == count,
    decreases count,
{
    if count > 0 {
        lemma_lsb_len(value / 2, (count - 1) as nat);
    }
}

pub proof fn lemma_msb_len(value: nat, count: nat)
    ensures
        msb_bits(value, count).len() == count,
{
    lemma_lsb_len(value, count);
}

pub proof fn lemma_lsb_zero(count: nat)
    ensures
        lsb_bits(0, count) == zero_bits(count),
    decreases count,
{
    if count > 0 {
        lemma_lsb_zero((count - 1) as nat);
    }
    assert(lsb_bits(0, count) =~= zero_bits(count));
}

/// The first `k` bits come from the value itself, the rest from its quotient.
pub proof fn lemma_lsb_split(value: nat, k: nat, m: nat)
    ensures
        lsb_bits(value, k + m) == lsb_bits(value, k) + lsb_bits(value / power2::pow2(k), m),
    decreases k,
{
    power2::lemma_pow2_pos(k);
    if k == 0 {
        power2::lemma2_to64();
        assert(lsb_bits(value, 0) + lsb_bits(value / 1, m) =~= lsb_bits(value, m));
    } else {
        let j = (k - 1) as nat;
        lemma_lsb_split(value / 2, j, m);
        power2::lemma_pow2_unfold(k);
        power2::lemma_pow2_pos(j);
        div_mod::lemma_div_denominator(value as int, 2, power2::pow2(j) as int);
        assert(value / 2 / power2::pow2(j) == value / power2::pow2(k));
        assert(lsb_bits(value, k + m) =~= lsb_bits(value, k) + lsb_bits(
            value / power2::pow2(k),
            m,
        ));
    }
}

/// Only the remainder modulo `2^k` decides the low `k` bits.
pub proof fn lemma_lsb_mod(value: nat, k: nat)
    ensures
        lsb_bits(value % power2::pow2(k), k) == lsb_bits(value, k),
    decreases k,
{
    if k > 0 {
        let j = (k - 1) as nat;
        power2::lemma_pow2_pos(k);
        power2::lemma_pow2_pos(j);
        power2::lemma_pow2_unfold(k);
        let r = value % power2::pow2(k);
        div_mod::lemma_mod_breakdown(value as int, 2, power2::pow2(j) as int);
        assert(r == 2 * ((value / 2) % power2::pow2(j)) + value % 2);
        assert(r % 2 == value % 2);
        assert(r / 2 == (value / 2) % power2::pow2(j));
        lemma_lsb_mod(value / 2, j);
        assert(lsb_bits(r, k) == seq![r % 2 == 1] + lsb_bits(r / 2, j));
        assert(lsb_bits(value, k) == seq![value % 2 == 1] + lsb_bits(value / 2, j));
    } else {
        power2::lemma_pow2_pos(0);
    }
}

/// Two values side by side are the bits of the one followed by those of the other.
pub proof fn lemma_lsb_concat(low: nat, n: nat, high: nat, c: nat)
    requires
        low < power2::pow2(n),
    ensures
        lsb_bits(low + high * power2::pow2(n), n + c) == lsb_bits(low, n) + lsb_bits(high, c),
{
    let p = power2::pow2(n);
    power2::lemma_pow2_pos(n);
    let x = low + high * p;
    div_mod::lemma_fundamental_div_mod_converse(x as int, p as int, high as int, low as int);
    lemma_lsb_split(x, n, c);
    lemma_lsb_mod(x, n);
}

pub proof fn lemma_bytes_bits_len(bytes: Seq<u8>)
    ensures
        bytes_bits(bytes).len() == 8 * bytes.len(),
    decreases bytes.len(),
{
    if bytes.len() > 0 {
        lemma_bytes_bits_len(bytes.drop_last());
        lemma_lsb_len(bytes.last() as nat, 8);
    }
}

pub proof fn lemma_bytes_bits_push(bytes: Seq<u8>, b: u8)
    ensures
        bytes_bits(bytes.push(b)) == bytes_bits(bytes) + lsb_bits(b as nat, 8),
{
    assert(bytes.push(b).drop_last() =~= bytes);
}

pub proof fn lemma_bytes_bits_append(a: Seq<u8>, b: Seq<u8>)
    ensures
        bytes_bits(a + b) == bytes_bits(a) + bytes_bits(b),
    decreases b.len(),
{
    if b.len() == 0 {
        assert(a + b =~= a);
        assert(bytes_bits(a) + bytes_bits(b) =~= bytes_bits(a));
    } else {
        let front = b.drop_last();
        lemma_bytes_bits_append(a, front);
        assert((a + b).drop_last() =~= a + front);
        assert(bytes_bits(a + b) =~= bytes_bits(a) + bytes_bits(b));
    }
}

pub proof fn lemma_low_byte(x: u64)
    by (bit_vector)
    ensures
        (x & 0xff) == x % 256,
        (x >> 8) == x / 256,
{
}

proof fn lemma_or_disjoint(low: u64, high: u64, n: u64)
    by (bit_vector)
    requires
        n < 32,
        low < (1u64 << n),
        high < 0x1_0000_0000,
    ensures
        (low | (high << n)) == low + (high << n),
{
}

proof fn lemma_value_bound(value: nat, a: nat, b: nat)
    requires
        value < power2::pow2(a),
        a <= b,
    ensures
        value < power2::pow2(b),
{
    if a < b {
        power2::lemma_pow2_strictly_increases(a, b);
    }
}

/// Moves whole bytes out of an accumulator that holds `nbits` bits.
fn drain(out: &mut Vec<u8>, accum: u64, nbits: u32) -> (r: (u64, u32))
    requires
        nbits <= 64,
        accum < power2::pow2(nbits as nat),
    ensures
        r.1 < 8,
        r.0 < power2::pow2(r.1 as nat),
        bytes_bits(final(out)@) + lsb_bits(r.0 as nat, r.1 as nat) == bytes_bits(old(out)@)
            + lsb_bits(accum as nat, nbits as nat),
{
    let mut a: u64 = accum;
    let mut n: u32 = nbits;
    let ghost all = bytes_bits(out@) + lsb_bits(accum as nat, nbits as nat);
    while n >= 8
        invariant
            n <= 64,
            a < power2::pow2(n as nat),
            bytes_bits(out@) + lsb_bits(a as nat, n as nat) == all,
        decreases n,
    {
        let byte = (a & 0xff) as u8;
        proof {
            lemma_low_byte(a);
            power2::lemma2_to64();
            let m = (n - 8) as nat;
            lemma_lsb_split(a as nat, 8, m);
            lemma_lsb_mod(a as nat, 8);
            lemma_bytes_bits_push(out@, byte);
            power2::lemma_pow2_adds(8, m);
            power2::lemma_pow2_pos(m);
            assert(a / 256 < power2::pow2(m)) by {
                let p = power2::pow2(m);
                assert(a < 256 * p);
                assert(a / 256 < p) by (nonlinear_arith)
                    requires
                        a < 256 * p,
                ;
            }
            assert(bytes_bits(out@) + (lsb_bits(byte as nat, 8) + lsb_bits((a / 256) as nat, m))
                =~= (bytes_bits(out@) + lsb_bits(byte as nat, 8)) + lsb_bits((a / 256) as nat, m));
        }
        out.push(byte);
        a = a >> 8;
        n = n - 8;
    }
    (a, n)
}

/// Appends `count` bits of `value` behind the `nbits` bits that are pending.
fn pack(out: &mut Vec<u8>, accum: u64, nbits: u32, value: u32, count: u32) -> (r: (u64, u32))
    requires
        nbits < 8,
        accum < power2::pow2(nbits as nat),
        count <= 32,
        value < power2::pow2(count as nat),
    ensures
        r.1 < 8,
        r.0 < power2::pow2(r.1 as nat),
        bytes_bits(final(out)@) + lsb_bits(r.0 as nat, r.1 as nat) == bytes_bits(old(out)@)
            + lsb_bits(accum as nat, nbits as nat) + lsb_bits(value as nat, count as nat),
{
    let n: u64 = nbits as u64;
    let v: u64 = value as u64;
    let merged: u64 = accum | (v << n);
    proof {
        let p = power2::pow2(n as nat);
        let q = power2::pow2(count as nat);
        power2::lemma2_to64();
        power2::lemma_pow2_pos(n as nat);
        lemma_value_bound(0, 0, n as nat);
        vstd::bits::lemma_u64_shl_is_mul(1, n);
        power2::lemma_pow2_strictly_increases(n as nat, 8);
        assert(v * p <= 0xffff_ffff * 256) by (nonlinear_arith)
            requires
                v <= 0xffff_ffff,
                p <= 256,
        ;
        vstd::bits::lemma_u64_shl_is_mul(v, n);
        lemma_or_disjoint(accum, v, n);
        assert(merged == accum + v * p);
        power2::lemma_pow2_adds(n as nat, count as nat);
        assert(accum + v * p < p * q) by (nonlinear_arith)
            requires
                accum < p,
                v < q,
        ;
        lemma_lsb_concat(accum as nat, n as nat, v as nat, count as nat);
        assert(bytes_bits(out@) + lsb_bits(merged as nat, (nbits + count) as nat) =~= bytes_bits(
            out@,
        ) + lsb_bits(accum as nat, nbits as nat) + lsb_bits(value as nat, count as nat));
    }
    drain(out, merged, nbits + count)
}

/// Appends the pending bits as one last byte, its upper bits zero.
fn pad_out(out: &mut Vec<u8>, accum: u64, nbits: u32)
    requires
        nbits < 8,
        accum < power2::pow2(nbits as nat),
    ensures
        bytes_bits(final(out)@) == pad_to_byte(
            bytes_bits(old(out)@) + lsb_bits(accum as nat, nbits as nat),
        ),
{
    proof {
        lemma_bytes_bits_len(out@);
        lemma_lsb_len(accum as nat, nbits as nat);
    }
    if nbits > 0 {
        let byte: u8 = (accum & 0xff) as u8;
        proof {
            lemma_low_byte(accum);
            power2::lemma2_to64();
            lemma_value_bound(accum as nat, nbits as nat, 8);
            lemma_bytes_bits_push(out@, byte);
            let m = (8 - nbits) as nat;
            lemma_lsb_concat(accum as nat, nbits as nat, 0, m);
            lemma_lsb_zero(m);
            assert(0 * power2::pow2(nbits as nat) == 0) by (nonlinear_arith);
            assert(bytes_bits(out@) + (lsb_bits(accum as nat, nbits as nat) + zero_bits(m))
                =~= pad_to_byte(bytes_bits(out@) + lsb_bits(accum as nat, nbits as nat)));
        }
        out.push(byte);
    } else {
        assert(pad_to_byte(bytes_bits(out@) + lsb_bits(accum as nat, 0)) =~= bytes_bits(out@));
    }
}

/// Reverses the low `bits` bits of `code`.
pub fn reverse_bits(code: u32, bits: u32) -> (r: u32)
    requires
        bits <= 32,
    ensures
        r < power2::pow2(bits as nat),
        lsb_bits(r as nat, bits as nat) == msb_bits(code as nat, bits as nat),
{
    let mut reversed: u32 = 0;
    let mut rest: u32 = code;
    let mut i: u32 = 0;
    proof {
        power2::lemma2_to64();
        assert(msb_bits(code as nat, 0) =~= lsb_bits(0, 0));
    }
    while i < bits
        invariant
            i <= bits <= 32,
            reversed < power2::pow2(i as nat),
            rest == code as nat / power2::pow2(i as nat),
            lsb_bits(reversed as nat, i as nat) == msb_bits(code as nat, i as nat),
        decreases bits - i,
    {
        proof {
            let n = i as nat;
            power2::lemma_pow2_pos(n);
            lemma_value_bound(reversed as nat, n, 31);
            power2::lemma2_to64();
            power2::lemma_pow2_unfold(n + 1);
            lemma_lsb_split(code as nat, n, 1);
            lemma_lsb_len(code as nat, n);
            reveal_with_fuel(lsb_bits, 2);
            assert(lsb_bits(rest as nat, 1) =~= seq![rest % 2 == 1]);
            div_mod::lemma_div_denominator(code as int, power2::pow2(n) as int, 2);
            let next = (reversed * 2 + rest % 2) as nat;
            assert(next % 2 == rest % 2 && next / 2 == reversed);
            assert(msb_bits(code as nat, n + 1) =~= seq![rest % 2 == 1] + msb_bits(
                code as nat,
                n,
            ));
        }
        reversed = reversed * 2 + rest % 2;
        rest = rest / 2;
        i = i + 1;
    }
    reversed
}

/// Bit writer that packs bits from the low end of each byte.
pub struct BitWriter {
    out: Vec<u8>,
    accum: u64,
    nbits: u32,
}

impl View for BitWriter {
    type V = Seq<bool>;

    /// The bits written so far.
    closed spec fn view(&self) -> Seq<bool> {
        bytes_bits(self.out@) + lsb_bits(self.accum as nat, self.nbits as nat)
    }
}

impl BitWriter {
    pub closed spec fn wf(&self) -> bool {
        self.nbits < 8 && self.accum < power2::pow2(self.nbits as nat)
    }

    pub fn new() -> (r: Self)
        ensures
            r.wf(),
            r@ == Seq::<bool>::empty(),
    {
        proof {
            power2::lemma2_to64();
        }
        BitWriter { out: Vec::new(), accum: 0, nbits: 0 }
    }

    /// Writes the low `count` bits of `value`, least significant first.
    pub fn write_bits(&mut self, value: u32, count: u32)
        requires
            old(self).wf(),
            count <= 24,
        ensures
            final(self).wf(),
            final(self)@ == old(self)@ + lsb_bits(value as nat, count as nat),
    {
        proof {
            power2::lemma2_to64();
            power2::lemma_pow2_pos(count as nat);
            lemma_value_bound(0, 0, count as nat);
            if count < 24 {
                power2::lemma_pow2_strictly_increases(count as nat, 24);
            }
            vstd::bits::lemma_u32_shl_is_mul(1, count);
            lemma_lsb_mod(value as nat, count as nat);
        }
        let masked: u32 = value % (1u32 << count);
        let r = pack(&mut self.out, self.accum, self.nbits, masked, count);
        self.accum = r.0;
        self.nbits = r.1;
    }

    /// Writes a Huffman code of `bits` bits, most significant first.
    pub fn write_huffman(&mut self, code: u32, bits: u32)
        requires
            old(self).wf(),
            bits <= 24,
        ensures
            final(self).wf(),
            final(self)@ == old(self)@ + msb_bits(code as nat, bits as nat),
    {
        let reversed: u32 = reverse_bits(code, bits);
        self.write_bits(reversed, bits);
    }

    /// Fills the byte in progress, if there is one, with zero bits.
    pub fn flush_byte(&mut self)
        requires
            old(self).wf(),
        ensures
            final(self).wf(),
            final(self)@ == pad_to_byte(old(self)@),
    {
        pad_out(&mut self.out, self.accum, self.nbits);
        self.accum = 0;
        self.nbits = 0;
        proof {
            power2::lemma2_to64();
            assert(bytes_bits(self.out@) + lsb_bits(0, 0) =~= bytes_bits(self.out@));
        }
    }

    /// The bytes written, the last one filled with zero bits.
    pub fn finish(self) -> (r: Vec<u8>)
        requires
            self.wf(),
        ensures
            bytes_bits(r@) == pad_to_byte(self@),
    {
        let mut out = self.out;
        pad_out(&mut out, self.accum, self.nbits);
        out
    }
}

/// Bit writer for codes that are already reversed and values that are
/// already cut to their width.
pub struct VecBitWriter {
    out: Vec<u8>,
    accum: u64,
    nbits: u32,
}

impl View for VecBitWriter {
    type V = Seq<bool>;

    /// The bits written so far.
    closed spec fn view(&self) -> Seq<bool> {
        bytes_bits(self.out@) + lsb_bits(self.accum as nat, self.nbits as nat)
    }
}

impl VecBitWriter {
    pub closed spec fn wf(&self) -> bool {
        self.nbits < 8 && self.accum < power2::pow2(self.nbits as nat)
    }

    /// An empty writer with room for `capacity` bytes.
    pub fn new(capacity: usize) -> (r: Self)
        ensures
            r.wf(),
            r@ == Seq::<bool>::empty(),
    {
        proof {
            power2::lemma2_to64();
        }
        VecBitWriter { out: Vec::with_capacity(capacity), accum: 0, nbits: 0 }
    }

    /// Writes `value`, which fits in `count` bits, least significant bit first.
    pub fn write_bits(&mut self, value: u32, count: u32)
        requires
            old(self).wf(),
            count <= 32,
            value < power2::pow2(count as nat),
        ensures
            final(self).wf(),
            final(self)@ == old(self)@ + lsb_bits(value as nat, count as nat),
    {
        let r = pack(&mut self.out, self.accum, self.nbits, value, count);
        self.accum = r.0;
        self.nbits = r.1;
    }

    /// Writes an already reversed Huffman code of `bits` bits.
    pub fn write_pre(&mut self, code_pre: u32, bits: u32)
        requires
            old(self).wf(),
            bits <= 32,
            code_pre < power2::pow2(bits as nat),
        ensures
            final(self).wf(),
            final(self)@ == old(self)@ + lsb_bits(code_pre as nat, bits as nat),
    {
        self.write_bits(code_pre, bits);
    }

    /// The bytes written, the last one filled with zero bits.
    pub fn finish(self) -> (r: Vec<u8>)
        requires
            self.wf(),
        ensures
            bytes_bits(r@) == pad_to_byte(self@),
    {
        let mut out = self.out;
        pad_out(&mut out, self.accum, self.nbits);
        out
    }
}

/// Bit writer that also counts the bits it has written.
pub struct HostBitWriter {
    inner: BitWriter,
    total: u32,
}

impl View for HostBitWriter {
    type V = Seq<bool>;

    /// The bits written so far.
    closed spec fn view(&self) -> Seq<bool> {
        self.inner@
    }
}

impl HostBitWriter {
    pub closed spec fn wf(&self) -> bool {
        self.inner.wf() && self.total == self.inner@.len()
    }

    pub fn new() -> (r: Self)
        ensures
            r.wf(),
            r@ == Seq::<bool>::empty(),
    {
        HostBitWriter { inner: BitWriter::new(), total: 0 }
    }

    /// Writes the low `count` bits of `value`, least significant first.
    pub fn write_bits(&mut self, value: u32, count: u32)
        requires
            old(self).wf(),
            count <= 24,
            old(self)@.len() + count <= u32::MAX,
        ensures
            final(self).wf(),
            final(self)@ == old(self)@ + lsb_bits(value as nat, count as nat),
    {
        self.inner.write_bits(value, count);
        self.total = self.total + count;
        proof {
            lemma_lsb_len(value as nat, count as nat);
        }
    }

    /// Writes a Huffman code of `bits` bits, most significant first.
    pub fn write_huffman(&mut self, code: u32, bits: u32)
        requires
            old(self).wf(),
            bits <= 24,
            old(self)@.len() + bits <= u32::MAX,
        ensures
            final(self).wf(),
            final(self)@ == old(self)@ + msb_bits(code as nat, bits as nat),
    {
        let reversed: u32 = reverse_bits(code, bits);
        self.write_bits(reversed, bits);
    }

    /// How many bits have been written.
    pub fn bit_count(&self) -> (r: u32)
        requires
            self.wf(),
        ensures
            r == self@.len(),
    {
        self.total
    }

    /// The bytes written, the last one filled with zero bits.
    pub fn into_bytes(self) -> (r: Vec<u8>)
        requires
            self.wf(),
        ensures
            bytes_bits(r@) == pad_to_byte(self@),
    {
        self.inner.finish()
    }
}

proof fn lemma_lsb_unique(x: nat, y: nat, n: nat)
    requires
        x < power2::pow2(n),
        y < power2::pow2(n),
        lsb_bits(x, n) == lsb_bits(y, n),
    ensures
        x == y,
    decreases n,
{
    if n == 0 {
        assert(power2::pow2(0) == 1) by {
            power2::lemma2_to64();
        }
    } else {
        let m = (n - 1) as nat;
        power2::lemma_pow2_unfold(n);
        let a = lsb_bits(x, n);
        let b = lsb_bits(y, n);
        assert(a[0] == b[0]);
        assert(a.skip(1) =~= lsb_bits(x / 2, m));
        assert(b.skip(1) =~= lsb_bits(y / 2, m));
        lemma_lsb_unique(x / 2, y / 2, m);
    }
}

/// Byte strings with the same bits are the same. So the contracts of the
/// encoders, which speak of bits, leave them no choice of bytes.
pub proof fn law_same_bits_same_bytes(a: Seq<u8>, b: Seq<u8>)
    requires
        bytes_bits(a) == bytes_bits(b),
    ensures
        a == b,
    decreases a.len(),
{
    lemma_bytes_bits_len(a);
    lemma_bytes_bits_len(b);
    if a.len() == 0 {
        assert(a =~= b);
    } else {
        let x = bytes_bits(a);
        let k = x.len() - 8;
        lemma_bytes_bits_len(a.drop_last());
        lemma_bytes_bits_len(b.drop_last());
        lemma_lsb_len(a.last() as nat, 8);
        lemma_lsb_len(b.last() as nat, 8);
        assert(x.take(k) =~= bytes_bits(a.drop_last()));
        assert(x.take(k) =~= bytes_bits(b.drop_last()));
        assert(x.skip(k) =~= lsb_bits(a.last() as nat, 8));
        assert(x.skip(k) =~= lsb_bits(b.last() as nat, 8));
        law_same_bits_same_bytes(a.drop_last(), b.drop_last());
        assert(power2::pow2(8) == 256) by {
            power2::lemma2_to64();
        }
        lemma_lsb_unique(a.last() as nat, b.last() as nat, 8);
        assert(a =~= a.drop_last().push(a.last()));
        assert(b =~= b.drop_last().push(b.last()));
    }
}

} // verus!
