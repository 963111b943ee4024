//! Run-length coding of code lengths.
use vstd::prelude::*;

verus! {

/// One symbol of the code length alphabet with its extra bits.
#[derive(Debug, Clone, Copy, PartialEq, Eq, Structural)]
pub struct RleEntry {
    pub code: u8,
    pub extra_bits: u32,
    pub extra_value: u32,
}

/// How many entries from `i` on are equal to the one at `i`.
pub open spec fn run_len(lens: Seq<u8>, i: int) -> nat
    decreases lens.len() - i,
{
    if i < 0 || i >= lens.len() {
        0
    } else if i + 1 < lens.len() && lens[i + 1] == lens[i] {
        1 + run_len(lens, i + 1)
    } else {
        1
    }
}

/// A length that stands for itself.
pub open spec fn plain(code: u8) -> RleEntry {
    RleEntry { code, extra_bits: 0, extra_value: 0 }
}

/// The entries for `n` zeros: the longest runs first.
pub open spec fn zero_entries(n: nat) -> Seq<RleEntry>
    decreases n,
{
    if n >= 138 {
        seq![RleEntry { code: 18, extra_bits: 7, extra_value: 127 }] + zero_entries(
            (n - 138) as nat,
        )
    } else if n >= 11 {
        seq![RleEntry { code: 18, extra_bits: 7, extra_value: (n - 11) as u32 }]
    } else if n >= 3 {
        seq![RleEntry { code: 17, extra_bits: 3, extra_value: (n - 3) as u32 }]
    } else if n > 0 {
        seq![plain(0)] + zero_entries((n - 1) as nat)
    } else {
        Seq::empty()
    }
}

/// The entries for `n` more copies of the length `cur` that was just written.
pub open spec fn repeat_entries(cur: u8, n: nat) -> Seq<RleEntry>
    decreases n,
{
    if n >= 6 {
        seq![RleEntry { code: 16, extra_bits: 2, extra_value: 3 }] + repeat_entries(
            cur,
            (n - 6) as nat,
        )
    } else if n >= 3 {
        seq![RleEntry { code: 16, extra_bits: 2, extra_value: (n - 3) as u32 }]
    } else if n > 0 {
        seq![plain(cur)] + repeat_entries(cur, (n - 1) as nat)
    } else {
        Seq::empty()
    }
}

/// The entries for one run of `n` copies of `cur`.
pub open spec fn run_entries(cur: u8, n: nat) -> Seq<RleEntry> {
    if cur == 0 {
        zero_entries(n)
    } else {
        seq![plain(cur)] + repeat_entries(cur, (n - 1) as nat)
    }
}

/// The entries for the lengths from `i` on, run by run.
pub open spec fn rle_from(lens: Seq<u8>, i: int) -> Seq<RleEntry>
    decreases lens.len() - i,
{
    if i < 0 || i >= lens.len() {
        Seq::empty()
    } else {
        proof {
            lemma_run_len(lens, i);
        }
        run_entries(lens[i], run_len(lens, i)) + rle_from(lens, i + run_len(lens, i))
    }
}

pub proof fn lemma_run_len(lens: Seq<u8>, i: int)
    requires
        0 <= i < lens.len(),
    ensures
        1 <= run_len(lens, i),
        i + run_len(lens, i) <= lens.len(),
        forall|j: int| i <= j < i + run_len(lens, i) ==> #[trigger] lens[j] == lens[i],
    decreases lens.len() - i,
{
    if i + 1 < lens.len() && lens[i + 1] == lens[i] {
        lemma_run_len(lens, i + 1);
    }
}

/// Run-length codes a sequence of code lengths.
pub fn rle_encode_lengths(lens: &[u8]) -> (r: Vec<RleEntry>)
    ensures
        r@ == rle_from(lens@, 0),
{
    let n: usize = lens.len();
    let mut out: Vec<RleEntry> = Vec::with_capacity(n);
    let mut i: usize = 0;
    while i < n
        invariant
            i <= n == lens@.len(),
            out@ + rle_from(lens@, i as int) == rle_from(lens@, 0),
        decreases n - i,
    {
        let cur: u8 = lens[i];
        let mut run: usize = 1;
        while i + run < n && lens[i + run] == cur
            invariant
                i < n == lens@.len(),
                1 <= run <= n - i,
                lens@[i + run - 1] == cur,
                run_len(lens@, i as int) == run - 1 + run_len(lens@, i + run - 1),
            decreases n - i - run,
        {
            run = run + 1;
        }
        assert(run_len(lens@, i + run - 1) == 1);
        let ghost start = out@;
        let ghost entries = run_entries(cur, run as nat);
        let mut left: usize = run;
        if cur == 0 {
            assert(out@ + zero_entries(left as nat) =~= start + entries);
            while left >= 11
                invariant
                    out@ + zero_entries(left as nat) == start + entries,
                decreases left,
            {
                let ghost prev = out@;
                let ghost todo = zero_entries(left as nat);
                let m: usize = if left < 138 {
                    left
                } else {
                    138
                };
                out.push(RleEntry { code: 18, extra_bits: 7, extra_value: (m - 11) as u32 });
                left = left - m;
                assert(out@ + zero_entries(left as nat) =~= prev + todo);
            }
            while left >= 3
                invariant
                    left < 11,
                    out@ + zero_entries(left as nat) == start + entries,
                decreases left,
            {
                let ghost prev = out@;
                let ghost todo = zero_entries(left as nat);
                out.push(RleEntry { code: 17, extra_bits: 3, extra_value: (left - 3) as u32 });
                left = 0;
                assert(out@ + zero_entries(left as nat) =~= prev + todo);
            }
            while left > 0
                invariant
                    left < 3,
                    out@ + zero_entries(left as nat) == start + entries,
                decreases left,
            {
                let ghost prev = out@;
                let ghost todo = zero_entries(left as nat);
                out.push(RleEntry { code: 0, extra_bits: 0, extra_value: 0 });
                left = left - 1;
                assert(out@ + zero_entries(left as nat) =~= prev + todo);
            }
            assert(out@ =~= out@ + zero_entries(0));
        } else {
            out.push(RleEntry { code: cur, extra_bits: 0, extra_value: 0 });
            left = left - 1;
            assert(out@ + repeat_entries(cur, left as nat) =~= start + entries);
            while left >= 3
                invariant
                    out@ + repeat_entries(cur, left as nat) == start + entries,
                decreases left,
            {
                let ghost prev = out@;
                let ghost todo = repeat_entries(cur, left as nat);
                let m: usize = if left < 6 {
                    left
                } else {
                    6
                };
                out.push(RleEntry { code: 16, extra_bits: 2, extra_value: (m - 3) as u32 });
                left = left - m;
                assert(out@ + repeat_entries(cur, left as nat) =~= prev + todo);
            }
            while left > 0
                invariant
                    left < 3,
                    out@ + repeat_entries(cur, left as nat) == start + entries,
                decreases left,
            {
                let ghost prev = out@;
                let ghost todo = repeat_entries(cur, left as nat);
                out.push(RleEntry { code: cur, extra_bits: 0, extra_value: 0 });
                left = left - 1;
                assert(out@ + repeat_entries(cur, left as nat) =~= prev + todo);
            }
            assert(out@ =~= out@ + repeat_entries(cur, 0));
        }
        assert(out@ == start + entries);
        proof {
            let after = rle_from(lens@, i + run);
            assert(rle_from(lens@, i as int) == entries + after);
            assert((start + entries) + after =~= start + (entries + after));
        }
        i = i + run;
    }
    assert(out@ + Seq::<RleEntry>::empty() =~= out@);
    out
}

/// An entry that the code length alphabet has.
pub open spec fn entry_ok(e: RleEntry) -> bool {
    ||| e.code <= 15 && e.extra_bits == 0 && e.extra_value == 0
    ||| e.code == 16 && e.extra_bits == 2 && e.extra_value < 4
    ||| e.code == 17 && e.extra_bits == 3 && e.extra_value < 8
    ||| e.code == 18 && e.extra_bits == 7 && e.extra_value < 128
}

/// `n` copies of `value`.
pub open spec fn copies(value: u8, n: nat) -> Seq<u8> {
    Seq::new(n, |i: int| value)
}

/// `out` followed by the lengths that the entry stands for.
pub open spec fn apply_entry(out: Seq<u8>, e: RleEntry) -> Seq<u8> {
    if e.code <= 15 {
        out.push(e.code)
    } else if e.code == 16 {
        out + copies(out.last(), (3 + e.extra_value) as nat)
    } else if e.code == 17 {
        out + copies(0, (3 + e.extra_value) as nat)
    } else {
        out + copies(0, (11 + e.extra_value) as nat)
    }
}

/// `out` followed by the lengths that the entries stand for.
pub open spec fn apply_entries(out: Seq<u8>, entries: Seq<RleEntry>) -> Seq<u8>
    decreases entries.len(),
{
    if entries.len() == 0 {
        out
    } else {
        apply_entries(apply_entry(out, entries[0]), entries.skip(1))
    }
}

/// All entries are of the alphabet, and none repeats a length before the first.
pub open spec fn entries_ok(out: Seq<u8>, entries: Seq<RleEntry>) -> bool
    decreases entries.len(),
{
    entries.len() > 0 ==> {
        &&& entry_ok(entries[0])
        &&& entries[0].code == 16 ==> out.len() > 0
        &&& entries_ok(apply_entry(out, entries[0]), entries.skip(1))
    }
}

proof fn lemma_apply_first(out: Seq<u8>, e: RleEntry, rest: Seq<RleEntry>)
    ensures
        apply_entries(out, seq![e] + rest) == apply_entries(apply_entry(out, e), rest),
        entries_ok(out, seq![e] + rest) == (entry_ok(e) && (e.code == 16 ==> out.len() > 0)
            && entries_ok(apply_entry(out, e), rest)),
{
    assert((seq![e] + rest).skip(1) =~= rest);
}

proof fn lemma_zero_entries(out: Seq<u8>, n: nat, rest: Seq<RleEntry>)
    ensures
        apply_entries(out, zero_entries(n) + rest) == apply_entries(out + copies(0, n), rest),
        entries_ok(out, zero_entries(n) + rest) == entries_ok(out + copies(0, n), rest),
    decreases n,
{
    if n == 0 {
        assert(zero_entries(n) + rest =~= rest);
        assert(out + copies(0, n) =~= out);
    } else {
        let m: nat = if n >= 138 {
            138
        } else if n >= 3 {
            n
        } else {
            1
        };
        let left = (n - m) as nat;
        let e = zero_entries(n)[0];
        assert(zero_entries(n) =~= seq![e] + zero_entries(left));
        lemma_apply_first(out, e, zero_entries(left) + rest);
        assert(seq![e] + (zero_entries(left) + rest) =~= zero_entries(n) + rest);
        assert(apply_entry(out, e) =~= out + copies(0, m));
        lemma_zero_entries(out + copies(0, m), left, rest);
        assert(out + copies(0, m) + copies(0, left) =~= out + copies(0, n));
    }
}

proof fn lemma_repeat_entries(out: Seq<u8>, cur: u8, n: nat, rest: Seq<RleEntry>)
    requires
        out.len() > 0,
        out.last() == cur,
        cur <= 15,
    ensures
        apply_entries(out, repeat_entries(cur, n) + rest) == apply_entries(
            out + copies(cur, n),
            rest,
        ),
        entries_ok(out, repeat_entries(cur, n) + rest) == entries_ok(out + copies(cur, n), rest),
    decreases n,
{
    if n == 0 {
        assert(repeat_entries(cur, n) + rest =~= rest);
        assert(out + copies(cur, n) =~= out);
    } else {
        let m: nat = if n >= 6 {
            6
        } else if n >= 3 {
            n
        } else {
            1
        };
        let left = (n - m) as nat;
        let e = repeat_entries(cur, n)[0];
        assert(repeat_entries(cur, n) =~= seq![e] + repeat_entries(cur, left));
        lemma_apply_first(out, e, repeat_entries(cur, left) + rest);
        assert(seq![e] + (repeat_entries(cur, left) + rest) =~= repeat_entries(cur, n) + rest);
        assert(apply_entry(out, e) =~= out + copies(cur, m));
        lemma_repeat_entries(out + copies(cur, m), cur, left, rest);
        assert(out + copies(cur, m) + copies(cur, left) =~= out + copies(cur, n));
    }
}

proof fn lemma_rle_from(lens: Seq<u8>, i: int)
    requires
        0 <= i <= lens.len(),
        forall|j: int| 0 <= j < lens.len() ==> #[trigger] lens[j] <= 15,
    ensures
        apply_entries(lens.take(i), rle_from(lens, i)) == lens,
        entries_ok(lens.take(i), rle_from(lens, i)),
    decreases lens.len() - i,
{
    if i < lens.len() {
        lemma_run_len(lens, i);
        let run = run_len(lens, i);
        let cur = lens[i];
        let rest = rle_from(lens, i + run);
        lemma_rle_from(lens, i + run);
        assert(lens.take(i) + copies(cur, run) =~= lens.take(i + run));
        if cur == 0 {
            lemma_zero_entries(lens.take(i), run, rest);
        } else {
            let more = repeat_entries(cur, (run - 1) as nat);
            lemma_apply_first(lens.take(i), plain(cur), more + rest);
            assert(seq![plain(cur)] + (more + rest) =~= rle_from(lens, i));
            lemma_repeat_entries(lens.take(i).push(cur), cur, (run - 1) as nat, rest);
            assert(lens.take(i).push(cur) + copies(cur, (run - 1) as nat) =~= lens.take(i + run));
        }
    } else {
        assert(lens.take(i) =~= lens);
    }
}

/// Run-length coding can be undone: the entries stand for the lengths again.
pub proof fn law_rle_expands(lens: Seq<u8>)
    requires
        forall|j: int| 0 <= j < lens.len() ==> #[trigger] lens[j] <= 15,
    ensures
        apply_entries(Seq::empty(), rle_from(lens, 0)) == lens,
        entries_ok(Seq::empty(), rle_from(lens, 0)),
{
    lemma_rle_from(lens, 0);
    assert(lens.take(0) =~= Seq::<u8>::empty());
}

/// How many lengths an entry stands for.
pub open spec fn entry_span(e: RleEntry) -> nat {
    if e.code == 16 || e.code == 17 {
        (e.extra_value + 3) as nat
    } else if e.code == 18 {
        (e.extra_value + 11) as nat
    } else {
        1
    }
}

/// How many lengths the first `j` entries stand for.
pub open spec fn entry_start(entries: Seq<RleEntry>, j: int) -> nat
    decreases j,
{
    if j <= 0 || entries.len() == 0 {
        0
    } else {
        entry_span(entries[0]) + entry_start(entries.skip(1), j - 1)
    }
}

/// The entry is the one that reaches furthest where `left` equal lengths are still
/// to be written: zeros in runs of up to 138, other lengths once and then in
/// repeats of up to 6, and what is too short for either on its own.
pub open spec fn reaches_furthest(cur: u8, repeats: bool, left: nat, e: RleEntry) -> bool {
    if cur == 0 && left >= 11 {
        &&& e.code == 18
        &&& e.extra_bits == 7
        &&& entry_span(e) == (if left < 138 {
            left
        } else {
            138
        })
    } else if cur == 0 && left >= 3 {
        e.code == 17 && e.extra_bits == 3 && entry_span(e) == left
    } else if cur != 0 && repeats && left >= 3 {
        &&& e.code == 16
        &&& e.extra_bits == 2
        &&& entry_span(e) == (if left < 6 {
            left
        } else {
            6
        })
    } else {
        e.code == cur && e.extra_bits == 0
    }
}

proof fn lemma_start_skips(a: Seq<RleEntry>, b: Seq<RleEntry>, j: int)
    requires
        a.len() <= j,
    ensures
        entry_start(a + b, j) == entry_start(a, a.len() as int) + entry_start(b, j - a.len()),
    decreases a.len(),
{
    if a.len() == 0 {
        assert(a + b =~= b);
    } else {
        assert((a + b).skip(1) =~= a.skip(1) + b);
        lemma_start_skips(a.skip(1), b, j - 1);
    }
}

proof fn lemma_start_prefix(a: Seq<RleEntry>, b: Seq<RleEntry>, j: int)
    requires
        0 <= j <= a.len(),
    ensures
        entry_start(a + b, j) == entry_start(a, j),
    decreases j,
{
    if j > 0 {
        assert((a + b).skip(1) =~= a.skip(1) + b);
        lemma_start_prefix(a.skip(1), b, j - 1);
    }
}

proof fn lemma_zero_run(n: nat, j: int)
    ensures
        entry_start(zero_entries(n), zero_entries(n).len() as int) == n,
        0 <= j < zero_entries(n).len() ==> entry_start(zero_entries(n), j) < n
            && reaches_furthest(
            0,
            j > 0,
            (n - entry_start(zero_entries(n), j)) as nat,
            zero_entries(n)[j],
        ),
    decreases n,
{
    let all = zero_entries(n);
    if n > 0 {
        let more = all.skip(1);
        let rest = (n - entry_span(all[0])) as nat;
        assert(more =~= zero_entries(rest));
        lemma_zero_run(rest, j - 1);
        if 0 < j < all.len() {
            assert(all[j] == more[j - 1]);
        }
    }
}

proof fn lemma_repeat_run(cur: u8, n: nat, j: int)
    requires
        0 < cur < 16,
    ensures
        entry_start(repeat_entries(cur, n), repeat_entries(cur, n).len() as int) == n,
        0 <= j < repeat_entries(cur, n).len() ==> entry_start(repeat_entries(cur, n), j) < n
            && reaches_furthest(
            cur,
            true,
            (n - entry_start(repeat_entries(cur, n), j)) as nat,
            repeat_entries(cur, n)[j],
        ),
    decreases n,
{
    let all = repeat_entries(cur, n);
    if n > 0 {
        let more = all.skip(1);
        let rest = (n - entry_span(all[0])) as nat;
        assert(more =~= repeat_entries(cur, rest));
        lemma_repeat_run(cur, rest, j - 1);
        if 0 < j < all.len() {
            assert(all[j] == more[j - 1]);
        }
    }
}

proof fn lemma_one_run(cur: u8, n: nat, j: int)
    requires
        cur < 16,
        n > 0,
    ensures
        entry_start(run_entries(cur, n), run_entries(cur, n).len() as int) == n,
        0 <= j < run_entries(cur, n).len() ==> entry_start(run_entries(cur, n), j) < n
            && reaches_furthest(
            cur,
            entry_start(run_entries(cur, n), j) > 0,
            (n - entry_start(run_entries(cur, n), j)) as nat,
            run_entries(cur, n)[j],
        ),
{
    if cur == 0 {
        lemma_zero_run(n, j);
    } else {
        let all = run_entries(cur, n);
        let more = repeat_entries(cur, (n - 1) as nat);
        assert(all.skip(1) =~= more);
        lemma_repeat_run(cur, (n - 1) as nat, j - 1);
        if 0 < j < all.len() {
            assert(all[j] == more[j - 1]);
        }
    }
}

/// From `at` on there are exactly `left` equal lengths in a row.
pub open spec fn run_reaches(lens: Seq<u8>, at: int, left: nat) -> bool {
    &&& left > 0
    &&& 0 <= at
    &&& at + left <= lens.len()
    &&& forall|k: int| at <= k < at + left ==> #[trigger] lens[k] == lens[at]
    &&& at + left < lens.len() ==> lens[at + left] != lens[at]
}

/// The entry is the one that reaches furthest where it begins.
pub open spec fn entry_fits(lens: Seq<u8>, at: int, e: RleEntry) -> bool {
    exists|left: nat| #[trigger]
        run_reaches(lens, at, left) && reaches_furthest(
            lens[at],
            at > 0 && lens[at - 1] == lens[at],
            left,
            e,
        )
}

proof fn lemma_run_ends(lens: Seq<u8>, i: int)
    requires
        0 <= i < lens.len(),
    ensures
        i + run_len(lens, i) < lens.len() ==> lens[i + run_len(lens, i)] != lens[i],
    decreases lens.len() - i,
{
    if i + 1 < lens.len() && lens[i + 1] == lens[i] {
        lemma_run_ends(lens, i + 1);
    }
}

proof fn lemma_entries_fit(lens: Seq<u8>, i: int, j: int)
    requires
        0 <= i <= lens.len(),
        forall|k: int| 0 <= k < lens.len() ==> #[trigger] lens[k] < 16,
        0 < i < lens.len() ==> lens[i - 1] != lens[i],
        0 <= j < rle_from(lens, i).len(),
    ensures
        entry_fits(lens, i + entry_start(rle_from(lens, i), j), rle_from(lens, i)[j]),
    decreases lens.len() - i,
{
    let n = run_len(lens, i);
    lemma_run_len(lens, i);
    lemma_run_ends(lens, i);
    let first = run_entries(lens[i], n);
    let rest = rle_from(lens, i + n);
    let all = rle_from(lens, i);
    assert(all == first + rest);
    lemma_one_run(lens[i], n, j);
    if j < first.len() {
        lemma_start_prefix(first, rest, j);
        let s = entry_start(first, j);
        let at = i + s;
        let left = (n - s) as nat;
        assert(lens[at] == lens[i]);
        if s > 0 {
            assert(lens[at - 1] == lens[i]);
        }
        assert(run_reaches(lens, at, left));
        assert(reaches_furthest(lens[at], at > 0 && lens[at - 1] == lens[at], left, all[j]));
    } else {
        lemma_start_skips(first, rest, j);
        if i + n < lens.len() {
            assert(lens[i + n - 1] == lens[i]);
        }
        lemma_entries_fit(lens, i + n, j - first.len());
    }
}

/// Run-length coding is as short as it can be, step by step: each entry reaches as
/// far into the run of equal lengths where it begins as any entry could.
pub proof fn law_rle_takes_the_longest_runs(lens: &[u8], r: Vec<RleEntry>)
    requires
        call_ensures(rle_encode_lengths, (lens,), r),
        forall|k: int| 0 <= k < lens@.len() ==> #[trigger] lens@[k] < 16,
    ensures
        forall|j: int|
            0 <= j < r@.len() ==> entry_fits(
                lens@,
                entry_start(r@, j) as int,
                #[trigger] r@[j],
            ),
{
    assert(r@ == rle_from(lens@, 0));
    assert forall|j: int| 0 <= j < r@.len() implies entry_fits(
        lens@,
        entry_start(r@, j) as int,
        #[trigger] r@[j],
    ) by {
        lemma_entries_fit(lens@, 0, j);
    }
}

} // verus!
