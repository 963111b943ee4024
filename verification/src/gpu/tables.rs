//! The symbol tables of DEFLATE.
use vstd::arithmetic::power2;
use vstd::prelude::*;

verus! {

/// The order in which the lengths of the code length code are written.
pub const META_ORDER: [usize; 19] = [
    16, 17, 18, 0, 8, 7, 9, 6, 10, 5, 11, 4, 12, 3, 13, 2, 14, 1, 15,
];

/// The smallest match length of each length symbol, from symbol 257 on.
pub const LENGTH_BASE: [u32; 29] = [
    3, 4, 5, 6, 7, 8, 9, 10, 11, 13, 15, 17, 19, 23, 27, 31, 35, 43, 51, 59, 67, 83, 99,
    115, 131, 163, 195, 227, 258,
];

/// How many extra bits follow each length symbol.
pub const LENGTH_EXTRA: [u32; 29] = [
    0, 0, 0, 0, 0, 0, 0, 0, 1, 1, 1, 1, 2, 2, 2, 2, 3, 3, 3, 3, 4, 4, 4, 4, 5, 5, 5, 5,
    0,
];

/// The smallest distance of each distance symbol.
pub const DIST_BASE: [u32; 30] = [
    1, 2, 3, 4, 5, 7, 9, 13, 17, 25, 33, 49, 65, 97, 129, 193, 257, 385, 513, 769, 1025,
    1537, 2049, 3073, 4097, 6145, 8193, 12289, 16385, 24577,
];

/// How many extra bits follow each distance symbol.
pub const DIST_EXTRA: [u32; 30] = [
    0, 0, 0, 0, 1, 1, 2, 2, 3, 3, 4, 4, 5, 5, 6, 6, 7, 7, 8, 8, 9, 9, 10, 10, 11, 11,
    12, 12, 13, 13,
];

/// The last of the rows `0..=k` whose base is not above `value`.
pub open spec fn row_of(base: Seq<u32>, value: int, k: int) -> int
    decreases k,
{
    if k <= 0 {
        0
    } else if base[k] <= value {
        k
    } else {
        row_of(base, value, k - 1)
    }
}

/// The table row of a match length.
pub open spec fn length_row(length: int) -> int {
    row_of(LENGTH_BASE@, length, 28)
}

/// The table row, and the symbol, of a distance.
pub open spec fn dist_row(distance: int) -> int {
    row_of(DIST_BASE@, distance, 29)
}

/// The symbol of a match length, its number of extra bits and their value.
pub open spec fn length_code_spec(length: int) -> (int, int, int) {
    let row = length_row(length);
    (257 + row, LENGTH_EXTRA@[row] as int, length - LENGTH_BASE@[row])
}

/// The symbol of a distance, its number of extra bits and their value.
pub open spec fn distance_code_spec(distance: int) -> (int, int, int) {
    let row = dist_row(distance);
    (row, DIST_EXTRA@[row] as int, distance - DIST_BASE@[row])
}

proof fn lemma_row_of(base: Seq<u32>, value: int, k: int)
    requires
        0 <= k < base.len(),
        base[0] <= value,
    ensures
        0 <= row_of(base, value, k) <= k,
        base[row_of(base, value, k)] <= value,
        row_of(base, value, k) < k ==> value < base[row_of(base, value, k) + 1],
    decreases k,
{
    if k > 0 && base[k] > value {
        lemma_row_of(base, value, k - 1);
    }
}

proof fn lemma_row_unique(base: Seq<u32>, value: int, k: int, r: int)
    requires
        0 <= r <= k < base.len(),
        base[r] <= value,
        r < k ==> value < base[r + 1],
        forall|i: int, j: int| 0 <= i < j < base.len() ==> #[trigger] base[i] < #[trigger] base[j],
    ensures
        row_of(base, value, k) == r,
    decreases k,
{
    if k > r {
        assert(r + 1 == k || base[r + 1] < base[k]);
        lemma_row_unique(base, value, k - 1, r);
    }
}

/// The extra bits of a length hold what is left above its row's base.
pub proof fn lemma_length_row(length: int)
    requires
        3 <= length <= 258,
    ensures
        0 <= length_row(length) < 29,
        LENGTH_BASE@[length_row(length)] <= length,
        LENGTH_EXTRA@[length_row(length)] <= 5,
        length - LENGTH_BASE@[length_row(length)] < power2::pow2(
            LENGTH_EXTRA@[length_row(length)] as nat,
        ),
{
    lemma_row_of(LENGTH_BASE@, length, 28);
    power2::lemma2_to64();
}

/// The extra bits of a distance hold what is left above its row's base.
pub proof fn lemma_dist_row(distance: int)
    requires
        1 <= distance <= 32768,
    ensures
        0 <= dist_row(distance) < 30,
        DIST_BASE@[dist_row(distance)] <= distance,
        DIST_EXTRA@[dist_row(distance)] <= 13,
        distance - DIST_BASE@[dist_row(distance)] < power2::pow2(
            DIST_EXTRA@[dist_row(distance)] as nat,
        ),
{
    lemma_row_of(DIST_BASE@, distance, 29);
    power2::lemma2_to64();
}

/// Maps a match length to its symbol, its number of extra bits and their value.
pub fn length_code(length: u32) -> (r: (u32, u32, u32))
    requires
        3 <= length <= 258,
    ensures
        (r.0 as int, r.1 as int, r.2 as int) == length_code_spec(length as int),
{
    let mut idx: usize = 28;
    while LENGTH_BASE[idx] > length
        invariant
            idx <= 28,
            3 <= length,
            row_of(LENGTH_BASE@, length as int, idx as int) == length_row(length as int),
        decreases idx,
    {
        idx = idx - 1;
    }
    proof {
        lemma_length_row(length as int);
    }
    (257 + idx as u32, LENGTH_EXTRA[idx], length - LENGTH_BASE[idx])
}

/// Maps a distance to its symbol, its number of extra bits and their value.
pub fn distance_code(distance: u32) -> (r: (u32, u32, u32))
    requires
        1 <= distance <= 32768,
    ensures
        (r.0 as int, r.1 as int, r.2 as int) == distance_code_spec(distance as int),
{
    let mut idx: usize = 29;
    while DIST_BASE[idx] > distance
        invariant
            idx <= 29,
            1 <= distance,
            row_of(DIST_BASE@, distance as int, idx as int) == dist_row(distance as int),
        decreases idx,
    {
        idx = idx - 1;
    }
    proof {
        lemma_dist_row(distance as int);
    }
    (idx as u32, DIST_EXTRA[idx], distance - DIST_BASE[idx])
}

/// A symbol with its number of extra bits and the value that these count from.
#[derive(Debug, Clone, Copy)]
pub struct SymbolEntry {
    pub sym: u16,
    pub extra_bits: u8,
    pub base: u16,
}

/// The entry of a match length.
pub open spec fn is_length_entry(e: SymbolEntry, length: int) -> bool {
    let row = length_row(length);
    &&& e.sym == 257 + row
    &&& e.extra_bits == LENGTH_EXTRA@[row]
    &&& e.base == LENGTH_BASE@[row]
}

/// The entry of a distance.
pub open spec fn is_dist_entry(e: SymbolEntry, distance: int) -> bool {
    let row = dist_row(distance);
    &&& e.sym == row
    &&& e.extra_bits == DIST_EXTRA@[row]
    &&& e.base == DIST_BASE@[row]
}

/// One entry per match length. Those below the shortest match are unused.
pub fn len_lut() -> (r: Vec<SymbolEntry>)
    ensures
        r@.len() == 259,
        forall|l: int| 3 <= l <= 258 ==> is_length_entry(#[trigger] r@[l], l),
{
    let mut out: Vec<SymbolEntry> = Vec::with_capacity(259);
    let mut l: u32 = 0;
    while l < 259
        invariant
            l <= 259,
            out@.len() == l,
            forall|k: int| 3 <= k < l ==> is_length_entry(#[trigger] out@[k], k),
        decreases 259 - l,
    {
        if l < 3 {
            out.push(SymbolEntry { sym: 0, extra_bits: 0, base: 0 });
        } else {
            let (sym, extra, rest) = length_code(l);
            proof {
                lemma_length_row(l as int);
            }
            out.push(
                SymbolEntry { sym: sym as u16, extra_bits: extra as u8, base: (l - rest) as u16 },
            );
        }
        l = l + 1;
    }
    out
}

/// One entry per distance up to 256. The first is unused.
pub fn dist_lut_lo() -> (r: Vec<SymbolEntry>)
    ensures
        r@.len() == 257,
        forall|d: int| 1 <= d <= 256 ==> is_dist_entry(#[trigger] r@[d], d),
{
    let mut out: Vec<SymbolEntry> = Vec::with_capacity(257);
    let mut d: u32 = 0;
    while d < 257
        invariant
            d <= 257,
            out@.len() == d,
            forall|k: int| 1 <= k < d ==> is_dist_entry(#[trigger] out@[k], k),
        decreases 257 - d,
    {
        if d < 1 {
            out.push(SymbolEntry { sym: 0, extra_bits: 0, base: 0 });
        } else {
            let (sym, extra, rest) = distance_code(d);
            proof {
                lemma_dist_row(d as int);
            }
            out.push(
                SymbolEntry { sym: sym as u16, extra_bits: extra as u8, base: (d - rest) as u16 },
            );
        }
        d = d + 1;
    }
    out
}

/// Above 256, distances that share `(distance - 1) / 128` share their row.
pub proof fn lemma_dist_block(block: int, distance: int)
    requires
        2 <= block <= 255,
        128 * block < distance <= 128 * block + 128,
    ensures
        dist_row(distance) == dist_row(128 * block + 1),
{
    let first = 128 * block + 1;
    let row = dist_row(first);
    lemma_row_of(DIST_BASE@, first, 29);
    assert forall|i: int, j: int| 0 <= i < j < 30 implies #[trigger] DIST_BASE@[i]
        < #[trigger] DIST_BASE@[j] by {
        lemma_dist_base_increases(i, j);
    }
    if row < 29 {
        assert(row >= 15) by {
            if row < 15 {
                lemma_dist_base_increases(row, 15);
                lemma_dist_base_le(row + 1, 15);
            }
        }
        assert((DIST_BASE@[row + 1] - 1) % 128 == 0);
    }
    lemma_row_unique(DIST_BASE@, distance, 29, row);
}

proof fn lemma_dist_base_le(i: int, j: int)
    requires
        0 <= i <= j < 30,
    ensures
        DIST_BASE@[i] <= DIST_BASE@[j],
{
    if i < j {
        lemma_dist_base_increases(i, j);
    }
}

proof fn lemma_dist_base_increases(i: int, j: int)
    requires
        0 <= i < j < 30,
    ensures
        DIST_BASE@[i] < DIST_BASE@[j],
    decreases j,
{
    assert(DIST_BASE@[j - 1] < DIST_BASE@[j]);
    if i < j - 1 {
        lemma_dist_base_increases(i, j - 1);
    }
}

/// One entry per 128 distances above 256. The first two are unused.
pub fn dist_lut_hi() -> (r: Vec<SymbolEntry>)
    ensures
        r@.len() == 256,
        forall|d: int| 257 <= d <= 32768 ==> #[trigger] is_dist_entry(r@[(d - 1) / 128], d),
{
    let mut out: Vec<SymbolEntry> = Vec::with_capacity(256);
    let mut b: u32 = 0;
    while b < 256
        invariant
            b <= 256,
            out@.len() == b,
            forall|k: int| 2 <= k < b ==> is_dist_entry(#[trigger] out@[k], 128 * k + 1),
        decreases 256 - b,
    {
        if b < 2 {
            out.push(SymbolEntry { sym: 0, extra_bits: 0, base: 0 });
        } else {
            let d: u32 = 128 * b + 1;
            let (sym, extra, rest) = distance_code(d);
            proof {
                lemma_dist_row(d as int);
            }
            out.push(
                SymbolEntry { sym: sym as u16, extra_bits: extra as u8, base: (d - rest) as u16 },
            );
        }
        b = b + 1;
    }
    proof {
        assert forall|d: int| 257 <= d <= 32768 implies #[trigger] is_dist_entry(
            out@[(d - 1) / 128],
            d,
        ) by {
            lemma_dist_block((d - 1) / 128, d);
        }
    }
    out
}

/// The two distance tables: one entry per distance up to 256, one per 128
/// distances above.
pub struct DistTables {
    lo: Vec<SymbolEntry>,
    hi: Vec<SymbolEntry>,
}

impl DistTables {
    pub closed spec fn wf(&self) -> bool {
        &&& self.lo@.len() == 257
        &&& self.hi@.len() == 256
        &&& forall|d: int| 1 <= d <= 256 ==> is_dist_entry(#[trigger] self.lo@[d], d)
        &&& forall|d: int|
            257 <= d <= 32768 ==> #[trigger] is_dist_entry(self.hi@[(d - 1) / 128], d)
    }

    pub fn new() -> (r: Self)
        ensures
            r.wf(),
    {
        DistTables { lo: dist_lut_lo(), hi: dist_lut_hi() }
    }

    /// Looks a distance up.
    pub fn dist_entry(&self, distance: u32) -> (r: SymbolEntry)
        requires
            self.wf(),
            1 <= distance <= 32768,
        ensures
            is_dist_entry(r, distance as int),
    {
        if distance <= 256 {
            self.lo[distance as usize]
        } else {
            assert(is_dist_entry(self.hi@[(distance - 1) as int / 128], distance as int));
            self.hi[((distance - 1) / 128) as usize]
        }
    }
}

/// The rows of the tables follow one from the other: each begins where the extra
/// bits of the one before end, and every few rows there is one extra bit more.
/// The longest match has a row of its own.
pub proof fn law_rows_follow_each_other(i: int)
    ensures
        LENGTH_BASE@[0] == 3,
        0 <= i < 27 ==> LENGTH_BASE@[i + 1] == LENGTH_BASE@[i] + power2::pow2(
            LENGTH_EXTRA@[i] as nat,
        ),
        0 <= i < 8 ==> LENGTH_EXTRA@[i] == 0,
        8 <= i < 28 ==> LENGTH_EXTRA@[i] == i / 4 - 1,
        LENGTH_BASE@[28] == 258,
        LENGTH_EXTRA@[28] == 0,
        DIST_BASE@[0] == 1,
        0 <= i < 29 ==> DIST_BASE@[i + 1] == DIST_BASE@[i] + power2::pow2(
            DIST_EXTRA@[i] as nat,
        ),
        0 <= i < 2 ==> DIST_EXTRA@[i] == 0,
        2 <= i < 30 ==> DIST_EXTRA@[i] == i / 2 - 1,
        DIST_BASE@[29] + power2::pow2(DIST_EXTRA@[29] as nat) == 32769,
{
    power2::lemma2_to64();
}

/// A match length has the row that it lies in, and its extra bits say where.
pub proof fn law_length_symbols(length: u32, r: (u32, u32, u32))
    requires
        3 <= length <= 258,
        call_ensures(length_code, (length,), r),
    ensures
        257 <= r.0 <= 285,
        r.0 == 285 <==> length == 258,
        r.1 == LENGTH_EXTRA@[r.0 - 257],
        length == LENGTH_BASE@[r.0 - 257] + r.2,
        r.2 < power2::pow2(r.1 as nat),
{
    lemma_length_row(length as int);
    lemma_row_of(LENGTH_BASE@, length as int, 28);
}

/// A distance has the row that it lies in, and its extra bits say where.
pub proof fn law_distance_symbols(distance: u32, r: (u32, u32, u32))
    requires
        1 <= distance <= 32768,
        call_ensures(distance_code, (distance,), r),
    ensures
        r.0 < 30,
        r.1 == DIST_EXTRA@[r.0 as int],
        distance == DIST_BASE@[r.0 as int] + r.2,
        r.2 < power2::pow2(r.1 as nat),
{
    lemma_dist_row(distance as int);
}

} // verus!
