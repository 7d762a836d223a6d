//! The min/max mip pyramid behind waveform views.
//!
//! Samples enter as the bit patterns of 32-bit IEEE floats and are ordered by
//! an integer key that sorts the way the floats do (negative zero just below
//! positive zero). A pyramid over those keys answers "lowest and highest
//! sample in `[start, end)`" from precomputed power-of-two blocks, and
//! always agrees with a direct scan of the same range.
use vstd::prelude::*;
use vstd::arithmetic::power2::{lemma2_to64, lemma_pow2_adds, lemma_pow2_pos, lemma_pow2_unfold, pow2};

use vstd::arithmetic::div_mod::lemma_fundamental_div_mod;

use crate::dsp::next_pow2;

verus! {

/// The sign bit of a 32-bit float.
pub const SIGN_BIT: u32 = 0x8000_0000;

/// The bit pattern of positive infinity.
pub const POSITIVE_INFINITY_BITS: u32 = 0x7f80_0000;

/// The bit pattern of negative infinity.
pub const NEGATIVE_INFINITY_BITS: u32 = 0xff80_0000;

/// Where a float with bit pattern `bits` ranks among the non-NaN floats:
/// the signed magnitude, so both zeros rank alike.
pub open spec fn float_rank(bits: u32) -> int {
    if bits >= SIGN_BIT {
        -((bits - SIGN_BIT) as int)
    } else {
        bits as int
    }
}

/// The order key of a float's bit pattern.
pub open spec fn spec_order_key(bits: u32) -> u32 {
    if bits >= SIGN_BIT {
        (0xffff_ffffu32 - bits) as u32
    } else {
        (bits + SIGN_BIT) as u32
    }
}

/// The order key of a float's bit pattern: keys compare as the floats do,
/// with negative zero just below positive zero.
pub fn order_key(bits: u32) -> (k: u32)
    ensures
        k == spec_order_key(bits),
{
    if bits >= SIGN_BIT {
        0xffff_ffffu32 - bits
    } else {
        bits + SIGN_BIT
    }
}

/// The bit pattern of the float whose order key is `key`.
pub fn key_bits(key: u32) -> (bits: u32)
    ensures
        spec_order_key(bits) == key,
{
    if key >= SIGN_BIT {
        key - SIGN_BIT
    } else {
        0xffff_ffffu32 - key
    }
}

/// Keys undo to the bit patterns they came from.
pub proof fn law_key_round_trip(bits: u32)
    ensures
        spec_order_key(bits) >= SIGN_BIT <==> bits < SIGN_BIT,
        bits == (if spec_order_key(bits) >= SIGN_BIT {
            (spec_order_key(bits) - SIGN_BIT) as u32
        } else {
            (0xffff_ffffu32 - spec_order_key(bits)) as u32
        }),
{
}

/// Keys keep the order of the floats: a float that ranks below another has
/// the smaller key.
pub proof fn law_key_order(a: u32, b: u32)
    requires
        float_rank(a) < float_rank(b),
    ensures
        spec_order_key(a) < spec_order_key(b),
{
}

/// Whether a bit pattern is a NaN: all exponent bits set and a non-zero
/// mantissa.
pub open spec fn spec_is_nan_bits(bits: u32) -> bool {
    bits % 0x8000_0000 > POSITIVE_INFINITY_BITS
}

/// Whether a bit pattern is a NaN.
pub fn is_nan_bits(bits: u32) -> (r: bool)
    ensures
        r == spec_is_nan_bits(bits),
{
    bits % 0x8000_0000 > POSITIVE_INFINITY_BITS
}

/// The lowest and highest sample keys over a span.
#[derive(Clone, Copy, Debug, PartialEq, Eq, Structural)]
pub struct MinMax {
    /// Key of the lowest sample.
    pub min: u32,
    /// Key of the highest sample.
    pub max: u32,
}

/// The span with no samples: positive infinity as its lowest and negative
/// infinity as its highest, so combining with it changes no span of real
/// samples.
pub open spec fn neutral() -> MinMax {
    MinMax {
        min: spec_order_key(POSITIVE_INFINITY_BITS),
        max: spec_order_key(NEGATIVE_INFINITY_BITS),
    }
}

/// The lower of two keys.
pub open spec fn key_min(a: u32, b: u32) -> u32 {
    if a <= b {
        a
    } else {
        b
    }
}

/// The higher of two keys.
pub open spec fn key_max(a: u32, b: u32) -> u32 {
    if a >= b {
        a
    } else {
        b
    }
}

/// Two spans joined.
pub open spec fn spec_combine(a: MinMax, b: MinMax) -> MinMax {
    MinMax { min: key_min(a.min, b.min), max: key_max(a.max, b.max) }
}

/// What one sample contributes: its key twice, or nothing for a NaN, which
/// a float minimum or maximum passes over.
pub open spec fn sample_entry(bits: u32) -> MinMax {
    if spec_is_nan_bits(bits) {
        neutral()
    } else {
        MinMax { min: spec_order_key(bits), max: spec_order_key(bits) }
    }
}

/// A direct scan: the spans of `s` joined from left to right, starting from
/// the neutral span.
pub open spec fn scan(s: Seq<MinMax>) -> MinMax
    decreases s.len(),
{
    if s.len() == 0 {
        neutral()
    } else {
        spec_combine(scan(s.drop_last()), s.last())
    }
}

impl MinMax {
    /// The span with no samples.
    pub fn neutral() -> (r: MinMax)
        ensures
            r == neutral(),
    {
        MinMax { min: order_key(POSITIVE_INFINITY_BITS), max: order_key(NEGATIVE_INFINITY_BITS) }
    }

    /// What the sample with bit pattern `bits` contributes.
    pub fn from_sample(bits: u32) -> (r: MinMax)
        ensures
            r == sample_entry(bits),
    {
        if is_nan_bits(bits) {
            MinMax::neutral()
        } else {
            let k = order_key(bits);
            MinMax { min: k, max: k }
        }
    }

    /// Two spans joined: the lower minimum and the higher maximum.
    pub fn combine(self, other: MinMax) -> (r: MinMax)
        ensures
            r == spec_combine(self, other),
    {
        MinMax {
            min: if self.min <= other.min {
                self.min
            } else {
                other.min
            },
            max: if self.max >= other.max {
                self.max
            } else {
                other.max
            },
        }
    }
}

/// A scan never rises above the neutral minimum nor falls below the neutral
/// maximum.
proof fn lemma_scan_bounds(s: Seq<MinMax>)
    ensures
        scan(s).min <= neutral().min,
        scan(s).max >= neutral().max,
    decreases s.len(),
{
    if s.len() > 0 {
        lemma_scan_bounds(s.drop_last());
    }
}

/// Scanning two runs one after the other joins their scans.
pub proof fn lemma_scan_concat(a: Seq<MinMax>, b: Seq<MinMax>)
    ensures
        scan(a + b) == spec_combine(scan(a), scan(b)),
    decreases b.len(),
{
    if b.len() == 0 {
        assert(a + b =~= a);
        lemma_scan_bounds(a);
    } else {
        assert((a + b).drop_last() =~= a + b.drop_last());
        lemma_scan_concat(a, b.drop_last());
    }
}

/// A span no wider than the neutral one allows: its minimum at most the
/// neutral minimum, its maximum at least the neutral maximum. Every sample's
/// contribution, and every scan, is bounded.
pub open spec fn bounded(e: MinMax) -> bool {
    e.min <= neutral().min && e.max >= neutral().max
}

/// The entries of a pyramid's base level: the given entries, then neutral
/// padding up to length `p`.
pub open spec fn padded(entries: Seq<MinMax>, p: int) -> Seq<MinMax> {
    Seq::new(
        p as nat,
        |j: int|
            if j < entries.len() {
                entries[j]
            } else {
                neutral()
            },
    )
}

/// Entry `i` of level `k` joins the base entries of block
/// `[i * 2^k, (i + 1) * 2^k)`.
pub open spec fn level_ok(level: Seq<MinMax>, base: Seq<MinMax>, k: nat) -> bool {
    forall|i: int|
        0 <= i < level.len() ==> #[trigger] level[i] == scan(
            base.subrange(i * pow2(k), (i + 1) * pow2(k)),
        )
}

/// Cached min/max mip pyramid over a signal's samples.
///
/// Level 0 holds one entry per sample, padded with neutral entries to a
/// power-of-two length; each further level joins adjacent pairs of the level
/// below, halving until one entry remains.
pub struct Pyramid {
    levels: Vec<Vec<MinMax>>,
    sample_count: usize,
    base: Ghost<Seq<MinMax>>,
}

impl View for Pyramid {
    type V = Seq<MinMax>;

    /// One entry per sample, in order.
    closed spec fn view(&self) -> Seq<MinMax> {
        self.base@.take(self.sample_count as int)
    }
}

impl Pyramid {
    /// Levels of power-of-two blocks over a padded base, the base padded
    /// with neutral entries past the samples.
    pub closed spec fn wf(&self) -> bool {
        let n = self.levels@.len();
        let base = self.base@;
        &&& n >= 1
        &&& self.sample_count <= base.len()
        &&& base.len() == pow2((n - 1) as nat)
        &&& forall|j: int| self.sample_count <= j < base.len() ==> base[j] == neutral()
        &&& forall|k: int| 0 <= k < n ==> #[trigger] self.levels@[k]@.len() == pow2((n - 1 - k) as nat)
        &&& forall|k: int| 0 <= k < n ==> level_ok(#[trigger] self.levels@[k]@, base, k as nat)
    }

    /// Number of samples the pyramid covers.
    pub fn sample_count(&self) -> (r: usize)
        requires
            self.wf(),
        ensures
            r == self@.len(),
    {
        self.sample_count
    }
}



/// Joining the neutral span with what a sample contributes gives that
/// contribution back.
proof fn lemma_entry_fixed(bits: u32)
    ensures
        spec_combine(neutral(), sample_entry(bits)) == sample_entry(bits),
        spec_combine(neutral(), neutral()) == neutral(),
{
}

/// Block `j` of level `k` lies inside a base of length `2^big_l`.
proof fn lemma_block_in(k: nat, big_l: nat, j: int)
    requires
        k <= big_l,
        0 <= j < pow2((big_l - k) as nat),
    ensures
        0 <= j * pow2(k),
        j * pow2(k) + pow2(k) == (j + 1) * pow2(k),
        (j + 1) * pow2(k) <= pow2(big_l),
        pow2(k) > 0,
{
    let a = pow2(k) as int;
    let b = pow2((big_l - k) as nat) as int;
    lemma_pow2_adds(k, (big_l - k) as nat);
    assert(k + (big_l - k) as nat == big_l);
    lemma_pow2_pos(k);
    assert(0 <= j * a) by (nonlinear_arith)
        requires
            0 <= j,
            a > 0,
    ;
    assert(j * a + a == (j + 1) * a) by (nonlinear_arith);
    assert((j + 1) * a <= b * a) by (nonlinear_arith)
        requires
            j + 1 <= b,
            a > 0,
    ;
    assert(b * a == a * b) by (nonlinear_arith);
}

/// The entry that joins blocks `2i` and `2i + 1` of level `k` is block `i`
/// of level `k + 1`.
proof fn lemma_pair_joins(base: Seq<MinMax>, k: nat, big_l: nat, i: int)
    requires
        k < big_l,
        base.len() == pow2(big_l),
        0 <= i < pow2((big_l - k - 1) as nat),
    ensures
        spec_combine(
            scan(base.subrange(2 * i * pow2(k), (2 * i + 1) * pow2(k))),
            scan(base.subrange((2 * i + 1) * pow2(k), (2 * i + 2) * pow2(k))),
        ) == scan(base.subrange(i * pow2(k + 1), (i + 1) * pow2(k + 1))),
        2 * i + 1 < pow2((big_l - k) as nat),
{
    let s = pow2(k) as int;
    lemma_pow2_unfold(k + 1);
    lemma_pow2_unfold((big_l - k) as nat);
    assert((big_l - k - 1) as nat == ((big_l - k) as nat - 1) as nat);
    assert(pow2(k + 1) == 2 * s);
    lemma_block_in(k, big_l, 2 * i + 1);
    assert(2 * i * s == i * (2 * s)) by (nonlinear_arith);
    assert((2 * i + 2) * s == (i + 1) * (2 * s)) by (nonlinear_arith);
    assert((2 * i + 1) * s == 2 * i * s + s) by (nonlinear_arith);
    assert(0 <= 2 * i * s) by (nonlinear_arith)
        requires
            0 <= i,
            s > 0,
    ;
    let a = base.subrange(2 * i * s, (2 * i + 1) * s);
    let b = base.subrange((2 * i + 1) * s, (2 * i + 2) * s);
    lemma_scan_concat(a, b);
    assert(a + b =~= base.subrange(i * (2 * s), (i + 1) * (2 * s)));
}

impl Pyramid {
    /// Builds the pyramid over samples given by their bit patterns.
    pub fn build(samples: &Vec<u32>) -> (r: Pyramid)
        requires
            samples.len() <= usize::MAX / 2,
        ensures
            r.wf(),
            r@ == samples@.map_values(|b: u32| sample_entry(b)),
    {
        let mut entries: Vec<MinMax> = Vec::new();
        let mut i: usize = 0;
        while i < samples.len()
            invariant
                i <= samples.len(),
                entries@ == samples@.take(i as int).map_values(|b: u32| sample_entry(b)),
                forall|j: int| 0 <= j < entries@.len() ==> bounded(#[trigger] entries@[j]),
            decreases samples.len() - i,
        {
            let e = MinMax::from_sample(samples[i]);
            proof {
                lemma_entry_fixed(samples@[i as int]);
                assert(samples@.take(i + 1) =~= samples@.take(i as int).push(samples@[i as int]));
            }
            entries.push(e);
            proof {
                assert(entries@ =~= samples@.take(i + 1).map_values(|b: u32| sample_entry(b)));
            }
            i += 1;
        }
        proof {
            assert(samples@.take(samples.len() as int) =~= samples@);
        }
        Pyramid::from_entries(&entries)
    }

    /// Builds the pyramid over given base entries, one per sample or per
    /// block of samples.
    pub fn from_entries(entries: &Vec<MinMax>) -> (r: Pyramid)
        requires
            entries.len() <= usize::MAX / 2,
            forall|j: int| 0 <= j < entries@.len() ==> bounded(#[trigger] entries@[j]),
        ensures
            r.wf(),
            r@ == entries@,
    {
        let samples = entries;
        let n = samples.len();
        let p = next_pow2(n);
        let ghost big_l: nat = choose|k: nat| p == pow2(k);
        let ghost base = padded(samples@, p as int);
        proof {
            lemma2_to64();
        }
        let mut first: Vec<MinMax> = Vec::new();
        let mut i: usize = 0;
        while i < p
            invariant
                i <= p,
                n == samples.len(),
                n <= p,
                p == pow2(big_l),
                pow2(0) == 1,
                base == padded(samples@, p as int),
                forall|j: int| 0 <= j < samples@.len() ==> bounded(#[trigger] samples@[j]),
                first@.len() == i,
                level_ok(first@, base, 0),
            decreases p - i,
        {
            let e = if i < n {
                samples[i]
            } else {
                MinMax::neutral()
            };
            proof {
                lemma_entry_fixed(0);
                if i < n {
                    assert(bounded(samples@[i as int]));
                }
                assert(e == base[i as int]);
                assert(base.subrange(i as int, i + 1) =~= seq![base[i as int]]);
                assert(seq![base[i as int]].drop_last() =~= Seq::<MinMax>::empty());
                assert(scan(Seq::<MinMax>::empty()) == neutral());
                assert(scan(seq![base[i as int]]) == spec_combine(neutral(), base[i as int]));
                assert(e == scan(base.subrange(i as int, i + 1)));
            }
            let ghost prev = first@;
            first.push(e);
            proof {
                assert forall|j: int| 0 <= j < first@.len() implies #[trigger] first@[j] == scan(
                    base.subrange(j * pow2(0), (j + 1) * pow2(0)),
                ) by {
                    assert(j * pow2(0) == j && (j + 1) * pow2(0) == j + 1) by (nonlinear_arith)
                        requires
                            pow2(0) == 1,
                    ;
                    if j < i {
                        assert(prev[j] == first@[j]);
                    }
                }
            }
            i += 1;
        }
        let mut levels: Vec<Vec<MinMax>> = Vec::new();
        levels.push(first);
        let ghost mut depth: nat = 0;
        while levels[levels.len() - 1].len() > 1
            invariant
                levels@.len() == depth + 1,
                depth <= big_l,
                base.len() == pow2(big_l),
                forall|k: int| 0 <= k < levels@.len() ==> #[trigger] levels@[k]@.len() == pow2(
                    (big_l - k) as nat,
                ),
                forall|k: int| 0 <= k < levels@.len() ==> level_ok(#[trigger] levels@[k]@, base, k as nat),
            decreases levels@[levels@.len() - 1]@.len(),
        {
            let last = levels.len() - 1;
            proof {
                lemma2_to64();
                if depth == big_l {
                    assert(levels@[last as int]@.len() == 1);
                }
                lemma_pow2_unfold((big_l - depth) as nat);
            }
            let len = levels[last].len();
            let half = len / 2;
            let mut next: Vec<MinMax> = Vec::new();
            let mut i: usize = 0;
            while i < half
                invariant
                    last == depth,
                    levels@.len() == depth + 1,
                    depth < big_l,
                    base.len() == pow2(big_l),
                    levels@[last as int]@.len() == pow2((big_l - depth) as nat),
                    len == levels@[last as int]@.len(),
                    half == pow2((big_l - depth - 1) as nat),
                    level_ok(levels@[last as int]@, base, depth),
                    i <= half,
                    next@.len() == i,
                    level_ok(next@, base, depth + 1),
                decreases half - i,
            {
                proof {
                    lemma_pair_joins(base, depth, big_l, i as int);
                    assert(2 * i + 1 < levels@[last as int]@.len());
                }
                let a = levels[last][2 * i];
                let b = levels[last][2 * i + 1];
                let e = a.combine(b);
                let ghost prev = next@;
                next.push(e);
                proof {
                    assert forall|j: int| 0 <= j < next@.len() implies #[trigger] next@[j] == scan(
                        base.subrange(j * pow2(depth + 1), (j + 1) * pow2(depth + 1)),
                    ) by {
                        if j < i {
                            assert(prev[j] == next@[j]);
                        }
                    }
                }
                i += 1;
            }
            levels.push(next);
            proof {
                depth = depth + 1;
            }
        }
        proof {
            if depth < big_l {
                lemma_pow2_unfold((big_l - depth) as nat);
                lemma_pow2_pos((big_l - depth - 1) as nat);
            }
            assert(base.take(n as int) =~= samples@);
        }
        Pyramid { levels, sample_count: n, base: Ghost(base) }
    }
}


/// A block of size `2^level` that starts at a multiple of its size and ends
/// inside the base is entry `pos / 2^level` of that level.
proof fn lemma_aligned_block(pos: int, block: int, level: nat, big_l: nat, end: int)
    requires
        level <= big_l,
        block == pow2(level),
        0 <= pos,
        pos % block == 0,
        pos + block <= end <= pow2(big_l),
    ensures
        (pos / block) * block == pos,
        ((pos / block) + 1) * block == pos + block,
        0 <= pos / block < pow2((big_l - level) as nat),
{
    lemma_pow2_pos(level);
    lemma_fundamental_div_mod(pos, block);
    let q = pos / block;
    let m = pow2((big_l - level) as nat) as int;
    assert(q * block == block * q) by (nonlinear_arith);
    assert((q + 1) * block == q * block + block) by (nonlinear_arith);
    lemma_pow2_adds(level, (big_l - level) as nat);
    assert(level + (big_l - level) as nat == big_l);
    assert(block * m == m * block) by (nonlinear_arith);
    assert(q + 1 <= m) by (nonlinear_arith)
        requires
            (q + 1) * block <= m * block,
            block > 0,
    ;
    assert(0 <= q) by (nonlinear_arith)
        requires
            q * block == pos,
            pos >= 0,
            block > 0,
    ;
}

impl Pyramid {
    /// Exact lowest and highest sample keys over the samples `[start, end)`:
    /// the direct scan of that range, the neutral span when it is empty.
    pub fn range(&self, start: usize, end: usize) -> (r: MinMax)
        requires
            self.wf(),
            start <= end <= self@.len(),
        ensures
            r == scan(self@.subrange(start as int, end as int)),
    {
        let ghost base = self.base@;
        let ghost big_l = (self.levels@.len() - 1) as nat;
        let top = self.levels[0].len();
        proof {
            lemma2_to64();
            assert(base.subrange(start as int, start as int) =~= Seq::<MinMax>::empty());
        }
        let mut acc = MinMax::neutral();
        let mut pos = start;
        while pos < end
            invariant
                self.wf(),
                base == self.base@,
                big_l == self.levels@.len() - 1,
                top == pow2(big_l),
                pow2(0) == 1,
                start <= pos <= end,
                end <= self.sample_count,
                acc == scan(base.subrange(start as int, pos as int)),
            decreases end - pos,
        {
            let mut level: usize = 0;
            let mut block: usize = 1;
            let mut climbing = true;
            let nlev = self.levels.len();
            while climbing && level + 1 < nlev
                invariant
                    self.wf(),
                    nlev == self.levels@.len(),
                    big_l == self.levels@.len() - 1,
                    top == pow2(big_l),
                    level <= big_l,
                    block == pow2(level as nat),
                    pos % block == 0,
                    pos < end,
                    block <= end - pos,
                decreases 2 * (self.levels@.len() - level) + (if climbing { 1int } else { 0int }),
            {
                proof {
                    lemma_pow2_unfold((level + 1) as nat);
                    lemma_pow2_pos((big_l - level - 1) as nat);
                    lemma_block_in((level + 1) as nat, big_l, 0);
                }
                let next = block * 2;
                if pos % next == 0 && next <= end - pos {
                    proof {
                        lemma_fundamental_div_mod(pos as int, next as int);
                        let q = pos as int / next as int;
                        assert(pos == block * (2 * q)) by (nonlinear_arith)
                            requires
                                pos == next * q + 0,
                                next == 2 * block,
                        ;
                        assert((block * (2 * q)) % (block as int) == 0) by (nonlinear_arith)
                            requires
                                block > 0,
                        ;
                    }
                    level += 1;
                    block = next;
                } else {
                    climbing = false;
                }
            }
            proof {
                lemma_pow2_pos(level as nat);
                lemma_aligned_block(pos as int, block as int, level as nat, big_l, end as int);
            }
            let idx = pos / block;
            let e = self.levels[level][idx];
            proof {
                let a = base.subrange(start as int, pos as int);
                let b = base.subrange(pos as int, pos + block);
                lemma_scan_concat(a, b);
                assert(a + b =~= base.subrange(start as int, pos + block));
            }
            acc = acc.combine(e);
            pos += block;
        }
        proof {
            assert(base.subrange(start as int, end as int) =~= self@.subrange(start as int, end as int));
        }
        acc
    }
}


/// Samples summarised by one base entry of a streamed pyramid. A power of two,
/// and a divisor of the decoded chunk length, so a decode chunk never splits
/// a bucket while the pyramid is built.
pub const BASE_BUCKET: usize = 256;

/// `x` held to `[lo, hi]`.
pub open spec fn clip(x: int, lo: int, hi: int) -> int {
    if x < lo {
        lo
    } else if x > hi {
        hi
    } else {
        x
    }
}

/// The positions, within a chunk of `len` samples that starts at sample
/// `start`, of the samples that fall in bucket `b`, as a half-open range,
/// counting only the first `upto` samples of the chunk.
pub open spec fn bucket_run(start: int, upto: int, b: int) -> (int, int) {
    (clip(b * 256 - start, 0, upto), clip((b + 1) * 256 - start, 0, upto))
}

/// What the samples with bit patterns `bits` contribute, in order.
pub open spec fn entries_of(bits: Seq<u32>) -> Seq<MinMax> {
    bits.map_values(|b: u32| sample_entry(b))
}

/// Bucket `b` after a chunk's samples that fall in it have been joined in.
pub open spec fn folded_bucket(old: MinMax, start: int, bits: Seq<u32>, upto: int, b: int) -> MinMax {
    spec_combine(
        old,
        scan(entries_of(bits).subrange(bucket_run(start, upto, b).0, bucket_run(start, upto, b).1)),
    )
}

/// Joining with a scan, then one more entry, joins with the longer scan.
proof fn lemma_combine_step(old: MinMax, run: Seq<MinMax>, e: MinMax)
    ensures
        spec_combine(spec_combine(old, scan(run)), e) == spec_combine(old, scan(run.push(e))),
{
    assert(run.push(e).drop_last() =~= run);
}

/// Joining with the scan of nothing leaves a bounded span alone.
proof fn lemma_combine_empty(old: MinMax)
    requires
        bounded(old),
    ensures
        spec_combine(old, scan(Seq::<MinMax>::empty())) == old,
{
}

/// Joins each sample of a decoded chunk that starts at sample `start` into
/// the bucket of `BASE_BUCKET` samples it falls in.
pub fn fold_chunk(buckets: &mut Vec<MinMax>, start: usize, bits: &Vec<u32>)
    requires
        start + bits.len() <= usize::MAX,
        start + bits.len() <= old(buckets).len() * 256,
        forall|b: int| 0 <= b < old(buckets)@.len() ==> bounded(#[trigger] old(buckets)@[b]),
    ensures
        final(buckets)@.len() == old(buckets)@.len(),
        forall|b: int|
            0 <= b < final(buckets)@.len() ==> #[trigger] final(buckets)@[b] == folded_bucket(
                old(buckets)@[b],
                start as int,
                bits@,
                bits@.len() as int,
                b,
            ),
{
    let ghost first = buckets@;
    let ghost m = entries_of(bits@);
    let mut i: usize = 0;
    proof {
        assert forall|b: int| 0 <= b < first.len() implies #[trigger] buckets@[b] == folded_bucket(
            first[b],
            start as int,
            bits@,
            0,
            b,
        ) by {
            assert(m.subrange(0, 0) =~= Seq::<MinMax>::empty());
            lemma_combine_empty(first[b]);
        }
    }
    while i < bits.len()
        invariant
            i <= bits.len(),
            start + bits.len() <= usize::MAX,
            start + bits.len() <= first.len() * 256,
            m == entries_of(bits@),
            buckets@.len() == first.len(),
            forall|b: int|
                0 <= b < first.len() ==> #[trigger] buckets@[b] == folded_bucket(
                    first[b],
                    start as int,
                    bits@,
                    i as int,
                    b,
                ),
        decreases bits.len() - i,
    {
        let bucket = (start + i) / 256;
        let e = MinMax::from_sample(bits[i]);
        let joined = buckets[bucket].combine(e);
        let ghost prev = buckets@;
        buckets.set(bucket, joined);
        proof {
            let c = bucket as int;
            assert(c * 256 <= start + i < (c + 1) * 256);
            assert forall|b: int| 0 <= b < first.len() implies #[trigger] buckets@[b] == folded_bucket(
                first[b],
                start as int,
                bits@,
                i + 1,
                b,
            ) by {
                let (lo, hi) = bucket_run(start as int, i as int, b);
                let (lo2, hi2) = bucket_run(start as int, i + 1, b);
                if b == c {
                    assert(lo2 == lo && hi2 == i + 1 && hi == i);
                    assert(m.subrange(lo, i + 1) =~= m.subrange(lo, i as int).push(m[i as int]));
                    assert(m[i as int] == e);
                    lemma_combine_step(first[b], m.subrange(lo, i as int), e);
                } else {
                    assert(prev[b] == buckets@[b]);
                    if b < c {
                        assert((b + 1) * 256 <= c * 256);
                    } else {
                        assert(b * 256 >= (c + 1) * 256);
                    }
                    assert(m.subrange(lo2, hi2) =~= m.subrange(lo, hi));
                }
            }
        }
        i += 1;
    }
}


/// The scan of the samples bucket `b` covers: `[b * 256, (b + 1) * 256)`,
/// clipped to the signal.
pub open spec fn bucket_scan(entries: Seq<MinMax>, b: int) -> MinMax {
    scan(
        entries.subrange(
            clip(b * 256, 0, entries.len() as int),
            clip((b + 1) * 256, 0, entries.len() as int),
        ),
    )
}

/// Joining is associative.
proof fn lemma_combine_assoc(a: MinMax, b: MinMax, c: MinMax)
    ensures
        spec_combine(spec_combine(a, b), c) == spec_combine(a, spec_combine(b, c)),
{
}

/// Folding one chunk of samples and then the chunk right after it fills
/// every bucket as folding both as one chunk does.
pub proof fn law_fold_chunks_concat(old: MinMax, start: int, x: Seq<u32>, y: Seq<u32>, b: int)
    requires
        0 <= start,
    ensures
        folded_bucket(
            folded_bucket(old, start, x, x.len() as int, b),
            start + x.len(),
            y,
            y.len() as int,
            b,
        ) == folded_bucket(old, start, x + y, (x + y).len() as int, b),
{
    let xl = x.len() as int;
    let yl = y.len() as int;
    let ex = entries_of(x);
    let ey = entries_of(y);
    let exy = entries_of(x + y);
    assert(exy =~= ex + ey);
    let (lx, hx) = bucket_run(start, xl, b);
    let (ly, hy) = bucket_run(start + xl, yl, b);
    let (l, h) = bucket_run(start, xl + yl, b);
    let rx = ex.subrange(lx, hx);
    let ry = ey.subrange(ly, hy);
    assert(exy.subrange(l, h) =~= rx + ry);
    lemma_scan_concat(rx, ry);
    lemma_combine_assoc(old, scan(rx), scan(ry));
}

/// Folding a whole signal, as one chunk from its first sample, into
/// neutral buckets leaves each bucket holding the scan of its samples.
pub proof fn law_fold_whole(bits: Seq<u32>, b: int)
    ensures
        folded_bucket(neutral(), 0, bits, bits.len() as int, b) == bucket_scan(entries_of(bits), b),
{
    let e = entries_of(bits);
    let (l, h) = bucket_run(0, bits.len() as int, b);
    lemma_scan_bounds(e.subrange(l, h));
}

/// The scan of the samples with bit patterns `bits`, read raw.
pub fn scan_samples(bits: &Vec<u32>) -> (r: MinMax)
    ensures
        r == scan(entries_of(bits@)),
{
    let mut acc = MinMax::neutral();
    let mut i: usize = 0;
    while i < bits.len()
        invariant
            i <= bits.len(),
            acc == scan(entries_of(bits@).take(i as int)),
        decreases bits.len() - i,
    {
        proof {
            assert(entries_of(bits@).take(i + 1).drop_last() =~= entries_of(bits@).take(i as int));
        }
        acc = acc.combine(MinMax::from_sample(bits[i]));
        i += 1;
    }
    proof {
        assert(entries_of(bits@).take(bits.len() as int) =~= entries_of(bits@));
    }
    acc
}

/// Number of buckets of `BASE_BUCKET` samples a signal of `sample_count`
/// samples fills: the last one may be partial, and there is always one.
pub fn bucket_count(sample_count: usize) -> (r: usize)
    ensures
        r == (if sample_count == 0 {
            1
        } else {
            (sample_count + 255) / 256
        }),
        r * 256 >= sample_count,
{
    if sample_count == 0 {
        1
    } else {
        sample_count / 256 + if sample_count % 256 == 0 {
            0
        } else {
            1
        }
    }
}

/// The whole buckets inside the samples `[start, end)`: from `start` rounded
/// up to a bucket boundary to `end` rounded down, when that leaves at least
/// one bucket.
pub fn aligned_span(start: usize, end: usize) -> (r: Option<(usize, usize)>)
    requires
        start <= end,
    ensures
        ({
            let a0 = (start + 255) / 256 * 256;
            let a1 = end / 256 * 256;
            match r {
                Some((x, y)) => x == a0 && y == a1 && a0 < a1,
                None => a0 >= a1,
            }
        }),
{
    let up = start / 256 + if start % 256 == 0 {
        0
    } else {
        1
    };
    let down = end / 256;
    if up < down {
        Some((up * 256, down * 256))
    } else {
        None
    }
}

/// Scanning the whole buckets `[b0, b1)` gives the scan of their samples.
proof fn lemma_buckets_scan(entries: Seq<MinMax>, buckets: Seq<MinMax>, b0: int, b1: int)
    requires
        0 <= b0 <= b1 <= buckets.len(),
        b1 * 256 <= entries.len(),
        forall|b: int| 0 <= b < buckets.len() ==> #[trigger] buckets[b] == bucket_scan(entries, b),
    ensures
        scan(buckets.subrange(b0, b1)) == scan(entries.subrange(b0 * 256, b1 * 256)),
    decreases b1 - b0,
{
    if b1 == b0 {
        assert(buckets.subrange(b0, b1) =~= Seq::<MinMax>::empty());
        assert(entries.subrange(b0 * 256, b1 * 256) =~= Seq::<MinMax>::empty());
    } else {
        lemma_buckets_scan(entries, buckets, b0, b1 - 1);
        assert(buckets.subrange(b0, b1).drop_last() =~= buckets.subrange(b0, b1 - 1));
        assert(buckets[b1 - 1] == bucket_scan(entries, b1 - 1));
        let a = entries.subrange(b0 * 256, (b1 - 1) * 256);
        let c = entries.subrange((b1 - 1) * 256, b1 * 256);
        lemma_scan_concat(a, c);
        assert(a + c =~= entries.subrange(b0 * 256, b1 * 256));
    }
}

/// A streamed range read as its raw head, its whole buckets off the bucket
/// pyramid, and its raw tail is the direct scan of the range.
pub proof fn law_stream_range(entries: Seq<MinMax>, buckets: Seq<MinMax>, start: int, end: int)
    requires
        0 <= start <= end <= entries.len(),
        buckets.len() * 256 >= entries.len(),
        forall|b: int| 0 <= b < buckets.len() ==> #[trigger] buckets[b] == bucket_scan(entries, b),
        (start + 255) / 256 * 256 < end / 256 * 256,
    ensures
        ({
            let a0 = (start + 255) / 256 * 256;
            let a1 = end / 256 * 256;
            spec_combine(
                spec_combine(
                    spec_combine(neutral(), scan(entries.subrange(start, a0))),
                    scan(buckets.subrange(a0 / 256, a1 / 256)),
                ),
                scan(entries.subrange(a1, end)),
            ) == scan(entries.subrange(start, end))
        }),
{
    let a0 = (start + 255) / 256 * 256;
    let a1 = end / 256 * 256;
    let b0 = a0 / 256;
    let b1 = a1 / 256;
    assert(b0 * 256 == a0 && b1 * 256 == a1);
    assert(start <= a0 && a1 <= end);
    lemma_buckets_scan(entries, buckets, b0, b1);
    let h = entries.subrange(start, a0);
    let m = entries.subrange(a0, a1);
    let t = entries.subrange(a1, end);
    lemma_scan_bounds(h);
    lemma_scan_concat(h, m);
    lemma_scan_concat(h + m, t);
    assert(h + m + t =~= entries.subrange(start, end));
}

// ----------------------------------------------------------------------------
// What a NaN is, and what a scan of real samples answers
// ----------------------------------------------------------------------------

/// A bit pattern counts as a NaN exactly when its eight exponent bits are
/// all set and its 23 mantissa bits are not all clear; every other pattern
/// (both zeros, subnormals, normals, both infinities) is a number.
pub proof fn law_nan_bits(bits: u32)
    ensures
        spec_is_nan_bits(bits) <==> ((bits >> 23u32) & 0xffu32) == 0xffu32 && (bits & 0x7f_ffffu32)
            != 0u32,
{
    assert((bits % 0x8000_0000u32 > 0x7f80_0000u32) <==> ((bits >> 23u32) & 0xffu32) == 0xffu32 && (
    bits & 0x7f_ffffu32) != 0u32) by (bit_vector);
}

/// The key of a finite sample lies strictly between the keys of the two
/// infinities.
proof fn lemma_finite_key(bits: u32)
    requires
        ((bits >> 23u32) & 0xffu32) != 0xffu32,
    ensures
        spec_order_key(bits) < spec_order_key(POSITIVE_INFINITY_BITS),
        spec_order_key(NEGATIVE_INFINITY_BITS) < spec_order_key(bits),
        !spec_is_nan_bits(bits),
{
    law_nan_bits(bits);
    assert(((bits >> 23u32) & 0xffu32) != 0xffu32 ==> (bits >= 0x8000_0000u32 ==> bits
        < 0xff80_0000u32) && (bits < 0x8000_0000u32 ==> bits < 0x7f80_0000u32)) by (bit_vector);
}

/// Over a non-empty run of finite samples, the scan of their entries gives
/// the key of one of the samples as its lowest and of one as its highest,
/// and every sample's key lies between the two: the true minimum and
/// maximum of the run.
pub proof fn law_scan_extremes(bits: Seq<u32>)
    requires
        bits.len() > 0,
        forall|j: int| 0 <= j < bits.len() ==> ((#[trigger] bits[j] >> 23u32) & 0xffu32) != 0xffu32,
    ensures
        ({
            let r = scan(bits.map_values(|b: u32| sample_entry(b)));
            &&& exists|m: int| 0 <= m < bits.len() && r.min == spec_order_key(bits[m])
            &&& exists|m: int| 0 <= m < bits.len() && r.max == spec_order_key(bits[m])
            &&& forall|j: int|
                0 <= j < bits.len() ==> r.min <= spec_order_key(#[trigger] bits[j]) <= r.max
        }),
    decreases bits.len(),
{
    let s = bits.map_values(|b: u32| sample_entry(b));
    let n = bits.len() - 1;
    let last = bits[n];
    lemma_finite_key(last);
    assert(s.last() == sample_entry(last));
    let k = spec_order_key(last);
    if n == 0 {
        assert(s.drop_last() =~= Seq::<MinMax>::empty());
        assert(scan(s.drop_last()) == neutral());
        assert(s.len() == 1);
        assert(scan(s) == spec_combine(scan(s.drop_last()), s.last()));
        assert(scan(s).min == spec_order_key(bits[0]));
    } else {
        let front = bits.drop_last();
        assert forall|j: int| 0 <= j < front.len() implies ((#[trigger] front[j] >> 23u32) & 0xffu32)
            != 0xffu32 by {
            assert(front[j] == bits[j]);
        }
        law_scan_extremes(front);
        assert(s.drop_last() =~= front.map_values(|b: u32| sample_entry(b)));
        let r0 = scan(s.drop_last());
        let r = scan(s);
        assert(r == spec_combine(r0, MinMax { min: k, max: k }));
        let m0 = choose|m: int| 0 <= m < front.len() && r0.min == spec_order_key(front[m]);
        let m1 = choose|m: int| 0 <= m < front.len() && r0.max == spec_order_key(front[m]);
        assert(front[m0] == bits[m0]);
        assert(front[m1] == bits[m1]);
        assert forall|j: int| 0 <= j < bits.len() implies r.min <= spec_order_key(#[trigger] bits[j])
            <= r.max by {
            if j < n {
                assert(front[j] == bits[j]);
            }
        }
        if r0.min <= k {
            assert(r.min == spec_order_key(bits[m0]));
        } else {
            assert(r.min == spec_order_key(bits[n]));
        }
        if r0.max >= k {
            assert(r.max == spec_order_key(bits[m1]));
        } else {
            assert(r.max == spec_order_key(bits[n]));
        }
    }
}

} // verus!
