//! Census of signed-integer value distributions.
//!
//! The signed bijou formats fold the sign into the value and reuse the
//! unsigned tiers. The one free design parameter is the single-byte window:
//! which 248 values `[-k, 247 - k]` encode in one byte. Symmetric zigzag
//! gives `k = 124`; workloads that skew positive may prefer a smaller `k`.
//! A [`Census`] counts observed values so that the choice is data-driven:
//! call [`Census::record`] wherever a signed value would be encoded, then
//! take a [`Report`].

use crate::wire;
use vstd::prelude::*;

verus! {

/// Number of single-byte codes available to a bijou-family format (256
/// first-byte values minus the 8 length tags).
pub const WINDOW_SIZE: usize = 248;

/// Named candidate windows `[-k, 247 - k]` highlighted in reports.
///
/// `k = 0` is the unsigned baseline; `k = 124` is symmetric zigzag.
pub const CANDIDATE_KS: [i64; 5] = [0, 32, 64, 96, 124];

/// Exact per-value counters cover `[-SMALL_BOUND, SMALL_BOUND - 1]`, which
/// holds every candidate window (`0 <= k <= 248`).
pub const SMALL_BOUND: i64 = 256;

/// Number of exact small-value slots (`2 * SMALL_BOUND`).
pub const SMALL_SLOTS: usize = 512;

/// Bit-length histogram slots (`|v|` needs 0..=64 bits).
pub const BITS_SLOTS: usize = 65;

/// A counter incremented by one, wrapping at `u64::MAX`.
pub open spec fn bumped(count: u64) -> u64 {
    if count == u64::MAX {
        0
    } else {
        (count + 1) as u64
    }
}

/// `counts` with the slot `i` bumped.
pub open spec fn bump_slot(counts: Seq<u64>, i: int) -> Seq<u64> {
    counts.update(i, bumped(counts[i]))
}

/// Whether `value` has an exact slot: `-256 <= value <= 255`.
pub open spec fn is_small(value: int) -> bool {
    -SMALL_BOUND <= value < SMALL_BOUND
}

/// `|value|`.
pub open spec fn magnitude(value: int) -> nat {
    if value < 0 {
        (-value) as nat
    } else {
        value as nat
    }
}

/// Sum of `counts[start..start + len]`.
pub open spec fn window_sum(counts: Seq<u64>, start: int, len: nat) -> nat
    decreases len,
{
    if len == 0 {
        0
    } else {
        window_sum(counts, start, (len - 1) as nat) + counts[start + len - 1] as nat
    }
}

/// The rows of the bit-length table over the first `n` bit lengths: each
/// bit length whose negative or positive count is nonzero, with both
/// counts, in increasing order.
pub open spec fn bit_rows(neg: Seq<u64>, pos: Seq<u64>, n: nat) -> Seq<(usize, u64, u64)>
    decreases n,
{
    if n == 0 {
        Seq::empty()
    } else {
        let i = (n - 1) as int;
        let rows = bit_rows(neg, pos, (n - 1) as nat);
        if neg[i] > 0 || pos[i] > 0 {
            rows.push((i as usize, neg[i], pos[i]))
        } else {
            rows
        }
    }
}

/// The windows a report lists: the candidates, then `best` when it is not
/// one of them.
pub open spec fn listed_windows(best: i64) -> Seq<i64> {
    if CANDIDATE_KS@.contains(best) {
        CANDIDATE_KS@
    } else {
        CANDIDATE_KS@.push(best)
    }
}

/// Accumulator of signed-value statistics. Counters wrap at `u64::MAX`.
/// Recording takes `&mut self`; to share one census between threads, put
/// it behind a lock.
#[derive(Debug)]
pub struct Census {
    total: u64,
    negative: u64,
    zero: u64,
    positive: u64,
    small: [u64; 512],
    large_neg: [u64; 65],
    large_pos: [u64; 65],
}

/// Immutable snapshot of a [`Census`], with window analysis.
#[derive(Clone, Copy, Debug)]
pub struct Report {
    /// Total recorded samples.
    pub total: u64,
    /// Samples `< 0`.
    pub negative: u64,
    /// Samples `== 0`.
    pub zero: u64,
    /// Samples `> 0`.
    pub positive: u64,
    /// Exact counts for values in `[-256, 255]`; index = value + 256.
    pub small: [u64; 512],
    /// Bit-length histogram of `|v|` for negative values outside `[-256, 255]`.
    pub large_neg: [u64; 65],
    /// Bit-length histogram of `|v|` for positive values outside `[-256, 255]`.
    pub large_pos: [u64; 65],
}

impl Census {
    /// The counters, as a report.
    pub closed spec fn snapshot(&self) -> Report {
        Report {
            total: self.total,
            negative: self.negative,
            zero: self.zero,
            positive: self.positive,
            small: self.small,
            large_neg: self.large_neg,
            large_pos: self.large_pos,
        }
    }

    /// Creates an empty census.
    pub fn new() -> (r: Self)
        ensures
            r.snapshot().is_empty(),
    {
        Census {
            total: 0,
            negative: 0,
            zero: 0,
            positive: 0,
            small: [0u64; 512],
            large_neg: [0u64; 65],
            large_pos: [0u64; 65],
        }
    }

    /// Records one observed value: the total and the value's sign counter
    /// go up by one, and so does its exact slot when `-256 <= value <= 255`,
    /// else the slot for the bit length of `|value|` in the histogram of its
    /// sign.
    pub fn record(&mut self, value: i64)
        ensures
            final(self).snapshot() == old(self).snapshot().recorded(value as int),
    {
        self.total = self.total.wrapping_add(1);
        if value < 0 {
            self.negative = self.negative.wrapping_add(1);
        } else if value == 0 {
            self.zero = self.zero.wrapping_add(1);
        } else {
            self.positive = self.positive.wrapping_add(1);
        }
        if -SMALL_BOUND <= value && value < SMALL_BOUND {
            let index = (value + SMALL_BOUND) as usize;
            let bumped = self.small[index].wrapping_add(1);
            self.small[index] = bumped;
            proof {
                assert(self.small@ =~= bump_slot(old(self).small@, value + SMALL_BOUND));
            }
            return;
        }
        let magnitude: u64 = if value < 0 {
            (-(value as i128)) as u64
        } else {
            value as u64
        };
        let leading = magnitude.leading_zeros();
        proof {
            wire::lemma_u64_leading_zeros(magnitude);
        }
        let bits = (64 - leading) as usize;
        if value < 0 {
            let bumped = self.large_neg[bits].wrapping_add(1);
            self.large_neg[bits] = bumped;
            proof {
                assert(self.large_neg@ =~= bump_slot(old(self).large_neg@, bits as int));
            }
        } else {
            let bumped = self.large_pos[bits].wrapping_add(1);
            self.large_pos[bits] = bumped;
            proof {
                assert(self.large_pos@ =~= bump_slot(old(self).large_pos@, bits as int));
            }
        }
    }

    /// Snapshots the counters into an immutable [`Report`].
    pub fn report(&self) -> (r: Report)
        ensures
            r == self.snapshot(),
    {
        Report {
            total: self.total,
            negative: self.negative,
            zero: self.zero,
            positive: self.positive,
            small: self.small,
            large_neg: self.large_neg,
            large_pos: self.large_pos,
        }
    }
}

impl Default for Census {
    fn default() -> (r: Self)
        ensures
            r.snapshot().is_empty(),
    {
        Self::new()
    }
}

impl Report {
    /// No sample recorded: every counter is zero.
    pub open spec fn is_empty(self) -> bool {
        &&& self.total == 0
        &&& self.negative == 0
        &&& self.zero == 0
        &&& self.positive == 0
        &&& forall|i: int| 0 <= i < 512 ==> self.small@[i] == 0
        &&& forall|i: int| 0 <= i < 65 ==> self.large_neg@[i] == 0
        &&& forall|i: int| 0 <= i < 65 ==> self.large_pos@[i] == 0
    }

    /// The counters after one more sample `value`.
    pub open spec fn recorded(self, value: int) -> Report {
        let sign_bumped = Report {
            total: bumped(self.total),
            negative: if value < 0 {
                bumped(self.negative)
            } else {
                self.negative
            },
            zero: if value == 0 {
                bumped(self.zero)
            } else {
                self.zero
            },
            positive: if value > 0 {
                bumped(self.positive)
            } else {
                self.positive
            },
            ..self
        };
        if is_small(value) {
            Report {
                small: vstd::array::spec_array_update(
                    self.small,
                    value + SMALL_BOUND,
                    bumped(self.small@[value + SMALL_BOUND]),
                ),
                ..sign_bumped
            }
        } else if value < 0 {
            let b = wire::bit_width(magnitude(value)) as int;
            Report {
                large_neg: vstd::array::spec_array_update(
                    self.large_neg,
                    b,
                    bumped(self.large_neg@[b]),
                ),
                ..sign_bumped
            }
        } else {
            let b = wire::bit_width(magnitude(value)) as int;
            Report {
                large_pos: vstd::array::spec_array_update(
                    self.large_pos,
                    b,
                    bumped(self.large_pos@[b]),
                ),
                ..sign_bumped
            }
        }
    }

    /// Number of samples in the window `[-k, 247 - k]`: 0 for `k` outside
    /// `0..=248`.
    pub open spec fn coverage(self, k: int) -> nat {
        if 0 <= k <= 248 {
            window_sum(self.small@, SMALL_BOUND - k, WINDOW_SIZE as nat)
        } else {
            0
        }
    }

    /// Whether every window `[-k, 247 - k]` with `0 <= k <= 248` holds at
    /// most `u64::MAX` samples: exactly what [`Self::window_coverage`] and
    /// [`Self::best_window`] need.
    pub fn windows_fit(&self) -> (r: bool)
        ensures
            r == (forall|k: int| 0 <= k <= 248 ==> #[trigger] self.coverage(k) <= u64::MAX),
    {
        let mut k: i64 = 0;
        while k <= 248
            invariant
                0 <= k <= 249,
                forall|j: int| 0 <= j < k ==> #[trigger] self.coverage(j) <= u64::MAX,
            decreases 249 - k,
        {
            let start = (SMALL_BOUND - k) as usize;
            let mut sum: u128 = 0;
            let mut i: usize = 0;
            while i < WINDOW_SIZE
                invariant
                    0 <= k <= 248,
                    start == SMALL_BOUND - k,
                    i <= WINDOW_SIZE,
                    sum == window_sum(self.small@, start as int, i as nat),
                    sum <= i * 0xFFFF_FFFF_FFFF_FFFF,
                decreases WINDOW_SIZE - i,
            {
                sum = sum + self.small[start + i] as u128;
                i += 1;
            }
            if sum > 0xFFFF_FFFF_FFFF_FFFF {
                assert(self.coverage(k as int) > u64::MAX);
                return false;
            }
            k += 1;
        }
        true
    }

    /// Exact number of samples that would encode in one byte under the
    /// window `[-k, 247 - k]`. Returns 0 for `k` outside `0..=248`.
    pub fn window_coverage(&self, k: i64) -> (r: u64)
        requires
            self.coverage(k as int) <= u64::MAX,
        ensures
            r == self.coverage(k as int),
    {
        if !(0 <= k && k <= 248) {
            return 0;
        }
        let start = (SMALL_BOUND - k) as usize;
        let mut sum: u64 = 0;
        let mut i: usize = 0;
        while i < WINDOW_SIZE
            invariant
                0 <= k <= 248,
                start == SMALL_BOUND - k,
                i <= WINDOW_SIZE,
                sum == window_sum(self.small@, start as int, i as nat),
                self.coverage(k as int) <= u64::MAX,
            decreases WINDOW_SIZE - i,
        {
            proof {
                lemma_window_sum_monotonic(self.small@, start as int, (i + 1) as nat, WINDOW_SIZE as nat);
            }
            sum = sum + self.small[start + i];
            i += 1;
        }
        sum
    }

    /// The `k` in `0..=248` maximising [`Self::window_coverage`], with its
    /// coverage; ties prefer the smaller `k` (more positive headroom).
    pub fn best_window(&self) -> (r: (i64, u64))
        requires
            forall|k: int| 0 <= k <= 248 ==> #[trigger] self.coverage(k) <= u64::MAX,
        ensures
            0 <= r.0 <= 248,
            r.1 == self.coverage(r.0 as int),
            forall|k: int| 0 <= k <= 248 ==> #[trigger] self.coverage(k) <= r.1,
            forall|k: int| 0 <= k < r.0 ==> #[trigger] self.coverage(k) < r.1,
    {
        let mut best_k: i64 = 0;
        let mut best: u64 = self.window_coverage(0);
        let mut k: i64 = 1;
        while k <= 248
            invariant
                1 <= k <= 249,
                0 <= best_k < k,
                best == self.coverage(best_k as int),
                forall|j: int| 0 <= j < k ==> #[trigger] self.coverage(j) <= best,
                forall|j: int| 0 <= j < best_k ==> #[trigger] self.coverage(j) < best,
                forall|j: int| 0 <= j <= 248 ==> #[trigger] self.coverage(j) <= u64::MAX,
            decreases 249 - k,
        {
            let hits = self.window_coverage(k);
            if hits > best {
                best = hits;
                best_k = k;
            }
            k += 1;
        }
        (best_k, best)
    }

    /// `k` is the window [`Self::best_window`] picks: it covers the most
    /// samples, and every smaller `k` covers fewer.
    pub open spec fn is_best_window(self, k: int) -> bool {
        &&& 0 <= k <= 248
        &&& forall|j: int| 0 <= j <= 248 ==> #[trigger] self.coverage(j) <= self.coverage(k)
        &&& forall|j: int| 0 <= j < k ==> #[trigger] self.coverage(j) < self.coverage(k)
    }

    /// Only one window is the best: the rows that [`Self::window_rows`]
    /// lists are determined by the report.
    pub proof fn lemma_best_window_unique(self, a: int, b: int)
        requires
            self.is_best_window(a),
            self.is_best_window(b),
        ensures
            a == b,
    {
        if a < b {
            assert(self.coverage(a) < self.coverage(b));
        } else if b < a {
            assert(self.coverage(b) < self.coverage(a));
        }
    }

    /// The windows to list in a rendering: [`CANDIDATE_KS`], then the best
    /// window when it is not a candidate.
    pub fn window_rows(&self) -> (r: Vec<i64>)
        requires
            forall|k: int| 0 <= k <= 248 ==> #[trigger] self.coverage(k) <= u64::MAX,
        ensures
            exists|k: int| #[trigger] self.is_best_window(k) && r@ == listed_windows(k as i64),
    {
        let (best_k, _) = self.best_window();
        let mut rows: Vec<i64> = Vec::new();
        let mut listed = false;
        let mut i: usize = 0;
        while i < CANDIDATE_KS.len()
            invariant
                i <= CANDIDATE_KS@.len(),
                rows@ == CANDIDATE_KS@.subrange(0, i as int),
                listed == CANDIDATE_KS@.subrange(0, i as int).contains(best_k),
            decreases CANDIDATE_KS@.len() - i,
        {
            let k = CANDIDATE_KS[i];
            proof {
                let before = CANDIDATE_KS@.subrange(0, i as int);
                assert(CANDIDATE_KS@.subrange(0, i as int + 1) =~= before.push(k));
                vstd::seq_lib::lemma_seq_contains_after_push(before, k, best_k);
            }
            rows.push(k);
            listed = listed || k == best_k;
            i += 1;
        }
        proof {
            assert(CANDIDATE_KS@.subrange(0, CANDIDATE_KS@.len() as int) =~= CANDIDATE_KS@);
        }
        if !listed {
            rows.push(best_k);
        }
        assert(self.is_best_window(best_k as int));
        rows
    }

    /// The rows of the bit-length table: each bit length whose negative or
    /// positive count is nonzero, with both counts, in increasing order.
    pub fn bit_length_rows(&self) -> (r: Vec<(usize, u64, u64)>)
        ensures
            r@ == bit_rows(self.large_neg@, self.large_pos@, BITS_SLOTS as nat),
    {
        let mut rows: Vec<(usize, u64, u64)> = Vec::new();
        let mut bits: usize = 0;
        while bits < BITS_SLOTS
            invariant
                bits <= BITS_SLOTS,
                rows@ == bit_rows(self.large_neg@, self.large_pos@, bits as nat),
            decreases BITS_SLOTS - bits,
        {
            let neg = self.large_neg[bits];
            let pos = self.large_pos[bits];
            if neg > 0 || pos > 0 {
                rows.push((bits, neg, pos));
            }
            bits += 1;
        }
        rows
    }
}

/// Partial window sums grow with the window.
proof fn lemma_window_sum_monotonic(counts: Seq<u64>, start: int, a: nat, b: nat)
    requires
        a <= b,
    ensures
        window_sum(counts, start, a) <= window_sum(counts, start, b),
    decreases b,
{
    if a < b {
        lemma_window_sum_monotonic(counts, start, a, (b - 1) as nat);
    }
}

/// Changing one count changes a window sum by the difference, when the
/// window holds that count.
proof fn lemma_window_sum_update(counts: Seq<u64>, start: int, len: nat, i: int, x: u64)
    requires
        0 <= i < counts.len(),
        0 <= start,
        start + len <= counts.len(),
    ensures
        window_sum(counts.update(i, x), start, len) == window_sum(counts, start, len) + (if start
            <= i < start + len {
            x - counts[i]
        } else {
            0
        }),
    decreases len,
{
    if len > 0 {
        lemma_window_sum_update(counts, start, (len - 1) as nat, i, x);
        let j = start + len - 1;
        if 0 <= j < counts.len() {
            assert(counts.update(i, x)[j] == if j == i {
                x
            } else {
                counts[j]
            });
        }
    }
}

/// A window sum is its first count plus the sum of the rest.
proof fn lemma_window_sum_front(counts: Seq<u64>, start: int, len: nat)
    ensures
        window_sum(counts, start, len + 1) == counts[start] as nat + window_sum(
            counts,
            start + 1,
            len,
        ),
    decreases len,
{
    if len > 0 {
        lemma_window_sum_front(counts, start, (len - 1) as nat);
        assert(window_sum(counts, start, len + 1) == window_sum(counts, start, len) + counts[start
            + len] as nat);
        assert(window_sum(counts, start + 1, len) == window_sum(counts, start + 1, (len - 1) as nat)
            + counts[start + len] as nat);
    } else {
        assert(window_sum(counts, start, 1) == window_sum(counts, start, 0) + counts[start] as nat);
    }
}

impl Report {
    /// Every sample counts once in the total and once under its sign,
    /// whatever its magnitude: recording `v` adds one to the total, one to
    /// `negative` exactly when `v < 0`, one to `zero` exactly when `v == 0`
    /// and one to `positive` exactly when `v > 0`. So the three sign counts
    /// keep adding up to the total.
    pub proof fn lemma_record_counts_signs(self, v: int)
        requires
            self.total < u64::MAX,
            self.negative < u64::MAX,
            self.zero < u64::MAX,
            self.positive < u64::MAX,
        ensures
            self.recorded(v).total == self.total + 1,
            self.recorded(v).negative == self.negative + (if v < 0 {
                1int
            } else {
                0
            }),
            self.recorded(v).zero == self.zero + (if v == 0 {
                1int
            } else {
                0
            }),
            self.recorded(v).positive == self.positive + (if v > 0 {
                1int
            } else {
                0
            }),
            self.negative + self.zero + self.positive == self.total ==> self.recorded(v).negative
                + self.recorded(v).zero + self.recorded(v).positive == self.recorded(v).total,
    {
    }

    /// A window `[-k, 247 - k]` with `0 <= k <= 248` counts a recorded
    /// sample `v` exactly when `-k <= v <= 247 - k`: recording `v` raises its
    /// coverage by one then, and leaves it alone otherwise.
    pub proof fn lemma_record_coverage(self, v: int, k: int)
        requires
            is_small(v) ==> self.small@[v + SMALL_BOUND] < u64::MAX,
        ensures
            self.recorded(v).coverage(k) == self.coverage(k) + (if 0 <= k <= 248 && -k <= v <= 247
                - k {
                1int
            } else {
                0
            }),
    {
        if is_small(v) && 0 <= k <= 248 {
            let i = v + SMALL_BOUND;
            assert(self.recorded(v).small@ == self.small@.update(i, bumped(self.small@[i])));
            lemma_window_sum_update(
                self.small@,
                SMALL_BOUND - k,
                WINDOW_SIZE as nat,
                i,
                bumped(self.small@[i]),
            );
        }
    }

    /// Sliding the window one value down: `[-(k+1), 246 - k]` gains the
    /// count of `-(k+1)` and loses the count of `247 - k`.
    pub proof fn lemma_coverage_slide(self, k: int)
        requires
            0 <= k < 248,
        ensures
            self.coverage(k + 1) + self.small@[503 - k] == self.coverage(k) + self.small@[255
                - k],
    {
        lemma_window_sum_front(self.small@, 255 - k, WINDOW_SIZE as nat);
    }

    /// An empty report covers nothing in any window.
    pub proof fn lemma_empty_coverage(self, k: int)
        requires
            self.is_empty(),
        ensures
            self.coverage(k) == 0,
    {
        if 0 <= k <= 248 {
            lemma_window_sum_zero(self.small@, SMALL_BOUND - k, WINDOW_SIZE as nat);
        }
    }
}

/// A window over zero counts sums to zero.
proof fn lemma_window_sum_zero(counts: Seq<u64>, start: int, len: nat)
    requires
        0 <= start,
        start + len <= counts.len(),
        forall|i: int| 0 <= i < counts.len() ==> counts[i] == 0,
    ensures
        window_sum(counts, start, len) == 0,
    decreases len,
{
    if len > 0 {
        lemma_window_sum_zero(counts, start, (len - 1) as nat);
    }
}

} // verus!
