use vstd::prelude::*;

use crate::chord::ChordDensity;
use crate::rng::RNG;

verus! {

/// Sixteenth-note steps in one bar.
pub const CHORDS_PER_BAR: usize = 16;

/// Playable lanes; the scratch lane is a separate flag, not a lane index.
pub const LANES: usize = 7;

/// 1.0 in the fixed-point scale used throughout generation: bias, weight,
/// jack tolerance and reroll chances are all numerators over 2^24, matching
/// the 24 bits `RNG::next_fraction` draws.
pub const FP_ONE: u64 = 0x100_0000;

/// Upper cap on a lane's bias accumulator (65536.0 in fixed point); the decay
/// update saturates here so the accumulator can never overflow, however long
/// a chart runs.
pub const BIAS_CAP: u64 = 0x100_0000_0000;

/// `a * b` in fixed point (truncating), used to decay a bias value.
pub open spec fn fp_scale(a: u64, b: u64) -> u64 {
    (a * b / (FP_ONE as int)) as u64
}

/// 2^(-d) in fixed point for a fixed-point exponent `d`: exact at whole
/// exponents, linear in between, zero once the exponent reaches 25.
pub open spec fn exp2_neg(d: u64) -> u64 {
    let di = d / FP_ONE;
    let df = d % FP_ONE;
    if di >= 25 {
        0u64
    } else {
        let base = FP_ONE >> (di as u64);
        (base - base * (df as int) / (2 * FP_ONE)) as u64
    }
}

/// The least element of a bias vector (`u64::MAX` for an empty one).
pub open spec fn seq_min(s: Seq<u64>) -> u64
    decreases s.len(),
{
    if s.len() == 0 {
        u64::MAX
    } else {
        let m = seq_min(s.drop_first());
        if s[0] <= m {
            s[0]
        } else {
            m
        }
    }
}

/// The sampling weight of lane `i`: with scattering inverted, `1 + bias`
/// (busier lanes become MORE likely, for deliberate jack/bass rushes);
/// otherwise `2^-(bias - min bias)` (busier lanes fall off exponentially).
pub open spec fn weight_of(bias: Seq<u64>, i: int, inverted: bool) -> u64 {
    if inverted {
        (FP_ONE + bias[i]) as u64
    } else {
        exp2_neg((bias[i] - seq_min(bias)) as u64)
    }
}

pub open spec fn weights_of(bias: Seq<u64>, inverted: bool) -> Seq<u64> {
    Seq::new(bias.len(), |i: int| weight_of(bias, i, inverted))
}

/// The bias vector after one generated chord: every lane decays by `decay`,
/// then every lane the chord strikes gains `strength`, saturating at
/// `BIAS_CAP`.
pub open spec fn bias_after(bias: Seq<u64>, lanes: Seq<u8>, strength: u64, decay: u64) -> Seq<
    u64,
> {
    Seq::new(
        bias.len(),
        |i: int|
            {
                let dec = fp_scale(bias[i], decay);
                let raised = if lanes.contains(i as u8) {
                    dec + strength
                } else {
                    dec as int
                };
                if raised > BIAS_CAP {
                    BIAS_CAP
                } else {
                    raised as u64
                }
            },
    )
}

/// The consecutive-strike counters after one generated chord: struck lanes
/// count one higher, all others reset to zero.
pub open spec fn jacks_after(jacks: Seq<usize>, lanes: Seq<u8>) -> Seq<usize> {
    Seq::new(
        jacks.len(),
        |i: int|
            if lanes.contains(i as u8) {
                (jacks[i] + 1) as usize
            } else {
                0usize
            },
    )
}

/// The lanes among 0..n whose priority is exactly `p`, in ascending order.
pub open spec fn lanes_with_upto(pr: Seq<usize>, p: int, n: int) -> Seq<u8>
    decreases n,
{
    if n <= 0 {
        Seq::empty()
    } else {
        lanes_with_upto(pr, p, n - 1) + (if pr[n - 1] == p {
            seq![(n - 1) as u8]
        } else {
            Seq::<u8>::empty()
        })
    }
}

/// The largest priority in the vector (0 for an empty one).
pub open spec fn seq_max_usize(s: Seq<usize>) -> int
    decreases s.len(),
{
    if s.len() == 0 {
        0
    } else {
        let m = seq_max_usize(s.drop_first());
        if s[0] >= m {
            s[0] as int
        } else {
            m
        }
    }
}

/// Lanes partitioned by priority: tier `p` holds, in ascending order, the
/// lanes whose priority is `p`.
pub open spec fn tiers_of(pr: Seq<usize>) -> Seq<Seq<u8>> {
    Seq::new((seq_max_usize(pr) + 1) as nat, |p: int| lanes_with_upto(pr, p, pr.len() as int))
}

/// The total sampling weight of a pool of lanes.
pub open spec fn seq_wsum(pool: Seq<u8>, w: Seq<u64>) -> int
    decreases pool.len(),
{
    if pool.len() == 0 {
        0
    } else {
        w[pool[0] as int] + seq_wsum(pool.drop_first(), w)
    }
}

/// The pool index the cumulative-weight draw lands on: the first position
/// whose running weight total exceeds the threshold, or the last position
/// when none does.
pub open spec fn pick_idx(pool: Seq<u8>, w: Seq<u64>, th: int, k: int, acc: int) -> int
    decreases pool.len() - k,
{
    if k >= pool.len() {
        pool.len() - 1
    } else {
        let acc2 = acc + w[pool[k] as int];
        if th < acc2 {
            k
        } else {
            pick_idx(pool, w, th, k + 1, acc2)
        }
    }
}

/// One step of lane selection, processing the current tier's pool.
///
/// With notes still wanted and lanes left in the pool: draw a weighted lane,
/// remove it (swap-remove order, as the code does), then draw once against
/// its reroll chance -- a triggered reroll defers the lane to the next tier
/// and consumes its chance, otherwise the lane is selected.  An empty pool
/// moves on to the next tier; a satisfied count ends selection at once.
/// Returns the selected lanes in selection order, the generator state after,
/// and the remaining reroll chances.
pub open spec fn sel_pool(
    tiers: Seq<Seq<u8>>,
    t: int,
    pool: Seq<u8>,
    deferred: Seq<u8>,
    count: int,
    rc: Seq<u64>,
    w: Seq<u64>,
    rng: RNG,
) -> (Seq<u8>, RNG, Seq<u64>)
    decreases tiers.len() - t, 0int, pool.len(),
{
    if count <= 0 || tiers.len() - t <= 0 {
        (Seq::<u8>::empty(), rng, rc)
    } else if pool.len() == 0 {
        sel_tiers(tiers, t + 1, deferred, count, rc, w, rng)
    } else {
        let frac1 = crate::rng::rng_fraction(rng);
        let rng1 = crate::rng::rng_step(rng);
        let th = frac1 * seq_wsum(pool, w) / (FP_ONE as int);
        let idx0 = pick_idx(pool, w, th, 0, 0);
        let idx = if 0 <= idx0 < pool.len() {
            idx0
        } else {
            pool.len() - 1
        };
        let lane = pool[idx];
        let pool2 = pool.update(idx, pool.last()).drop_last();
        let frac2 = crate::rng::rng_fraction(rng1);
        let rng2 = crate::rng::rng_step(rng1);
        let chance = rc[lane as int];
        let rc2 = rc.update(lane as int, 0u64);
        if chance > frac2 {
            sel_pool(tiers, t, pool2, deferred.push(lane), count, rc2, w, rng2)
        } else {
            let rest = sel_pool(tiers, t, pool2, deferred, count - 1, rc2, w, rng2);
            (seq![lane] + rest.0, rest.1, rest.2)
        }
    }
}

/// Lane selection from tier `t` on: tiers are taken in ascending priority
/// order, each widened by the lanes the previous tier deferred.
pub open spec fn sel_tiers(
    tiers: Seq<Seq<u8>>,
    t: int,
    deferred: Seq<u8>,
    count: int,
    rc: Seq<u64>,
    w: Seq<u64>,
    rng: RNG,
) -> (Seq<u8>, RNG, Seq<u64>)
    decreases tiers.len() - t, 1int, 0int,
{
    if count <= 0 || t >= tiers.len() {
        (Seq::<u8>::empty(), rng, rc)
    } else {
        sel_pool(tiers, t, tiers[t] + deferred, Seq::<u8>::empty(), count, rc, w, rng)
    }
}

/// The lanes below `n` that `sel` picked, in ascending order -- the sorted,
/// duplicate-free form the randomizer returns.
pub open spec fn lanes_upto(sel: Seq<u8>, n: int) -> Seq<u8>
    decreases n,
{
    if n <= 0 {
        Seq::empty()
    } else {
        lanes_upto(sel, n - 1) + (if sel.contains((n - 1) as u8) {
            seq![(n - 1) as u8]
        } else {
            Seq::<u8>::empty()
        })
    }
}

/// How many distinct lanes below `n` the sequence mentions.
pub open spec fn count_contains(s: Seq<u8>, n: int) -> int
    decreases n,
{
    if n <= 0 {
        0
    } else {
        count_contains(s, n - 1) + if s.contains((n - 1) as u8) {
            1int
        } else {
            0int
        }
    }
}

/// The whole note-selection pass: partition the lanes into priority tiers,
/// run the weighted tier-by-tier draw, and hand back the selected lanes in
/// ascending order together with the advanced generator and the spent
/// reroll chances.
pub open spec fn randomize(pr: Seq<usize>, rc: Seq<u64>, w: Seq<u64>, count: int, rng: RNG) -> (
    Seq<u8>,
    RNG,
    Seq<u64>,
) {
    let s = sel_tiers(tiers_of(pr), 0, Seq::<u8>::empty(), count, rc, w, rng);
    (lanes_upto(s.0, LANES as int), s.1, s.2)
}

/// The hard consecutive-strike allowance: the tolerance rounded up to a
/// whole number of strikes.
pub open spec fn max_jacks_of(jt: u64) -> int {
    (jt + FP_ONE - 1) / (FP_ONE as int)
}

/// The reroll chance applied to lanes exactly at the allowance:
/// `(1 - fract(tolerance)) mod 1` in fixed point.
pub open spec fn reroll_of(jt: u64) -> u64 {
    if jt % FP_ONE == 0 {
        0u64
    } else {
        (FP_ONE - jt % FP_ONE) as u64
    }
}

/// Per-lane priorities: how far each lane's streak stands above the
/// allowance (0 for every lane at or under it).
pub open spec fn priorities_of(jacks: Seq<usize>, mj: int) -> Seq<usize> {
    Seq::new(
        jacks.len(),
        |i: int|
            if jacks[i] > mj {
                (jacks[i] - mj) as usize
            } else {
                0usize
            },
    )
}

/// Per-lane reroll chances: only lanes exactly at the allowance get one.
pub open spec fn rerolls_of(jacks: Seq<usize>, mj: int, r: u64) -> Seq<u64> {
    Seq::new(
        jacks.len(),
        |i: int|
            if jacks[i] == mj {
                r
            } else {
                0u64
            },
    )
}

/// Scatter shaping configuration: strength added to a struck lane's bias,
/// decay in [0, 1] applied to every bias each step, and the inverted flag
/// (chosen upstream from the sign of the requested strength).
pub struct Scatter {
    pub strength: u64,
    pub decay: u64,
    pub inverted: bool,
}

impl Scatter {
    pub open spec fn wf(&self) -> bool {
        &&& self.strength <= BIAS_CAP
        &&& self.decay <= FP_ONE
    }

    /// `decay` must be a fixed-point value in [0, 1]; the caller validates
    /// that before building a `Scatter`.  `strength` is capped at `BIAS_CAP`,
    /// where the bias accumulator saturates anyway.
    pub fn new(strength: u64, decay: u64, inverted: bool) -> (r: Scatter)
        requires
            strength <= BIAS_CAP,
            decay <= FP_ONE,
        ensures
            r == (Scatter { strength, decay, inverted }),
    {
        Scatter { strength, decay, inverted }
    }
}

/// Whole-chart generation parameters.  `bpm` is in hundredths of a beat per
/// minute (22222 stands for 222.22 BPM).
#[derive(Clone, Debug, PartialEq, Eq, Structural)]
pub struct ChartParams {
    pub bpm: u32,
    pub bars: usize,
    pub seed: u64,
}

impl ChartParams {
    /// The bar count is capped so the total step count (16 per bar) fits
    /// comfortably in a `usize` on any platform.
    pub fn new(bpm: u32, bars: usize, seed: u64) -> (r: ChartParams)
        requires
            bars <= 0xFF_FFFF,
        ensures
            r == (ChartParams { bpm, bars, seed }),
    {
        ChartParams { bpm, bars, seed }
    }
}

/// Per-play-side note shaping parameters.
pub struct NotesParams {
    pub chord_density: ChordDensity,
    pub jack_tolerance: u64,
    pub scatter: Scatter,
}

impl NotesParams {
    pub open spec fn wf(&self) -> bool {
        &&& self.chord_density.wf()
        &&& self.scatter.wf()
        &&& self.jack_tolerance <= BIAS_CAP
    }

    /// `jack_tolerance` is a non-negative fixed-point value: its whole part
    /// is the hard consecutive-strike allowance, its fractional part the
    /// probabilistic allowance at the ceiling.
    pub fn new(chord_density: ChordDensity, jack_tolerance: u64, scatter: Scatter) -> (r:
        NotesParams)
        requires
            jack_tolerance <= BIAS_CAP,
        ensures
            r.chord_density == chord_density,
            r.jack_tolerance == jack_tolerance,
            r.scatter == scatter,
    {
        NotesParams { chord_density, jack_tolerance, scatter }
    }
}

/// The lanes struck at one step, sorted ascending and duplicate-free, plus
/// the scratch-lane flag.
#[derive(Debug, Clone, PartialEq)]
pub struct Chord {
    pub lanes: Vec<u8>,
    pub scratch: bool,
}

/// The mathematical value of a `Chord`.
pub struct ChordModel {
    pub lanes: Seq<u8>,
    pub scratch: bool,
}

impl View for Chord {
    type V = ChordModel;

    open spec fn view(&self) -> ChordModel {
        ChordModel { lanes: self.lanes@, scratch: self.scratch }
    }
}

impl DeepView for Chord {
    type V = ChordModel;

    open spec fn deep_view(&self) -> ChordModel {
        self@
    }
}

impl Chord {
    pub fn new(lanes: Vec<u8>, scratch: bool) -> (r: Chord)
        ensures
            r@.lanes == lanes@,
            r@.scratch == scratch,
    {
        Chord { lanes, scratch }
    }

    /// A structurally equal copy (spelled out so its value is known, which
    /// a derived clone would not be).
    pub fn duplicate(&self) -> (c: Chord)
        ensures
            c@ == self@,
    {
        let mut lanes: Vec<u8> = Vec::new();
        let mut i: usize = 0;
        while i < self.lanes.len()
            invariant
                i <= self@.lanes.len(),
                lanes@ == self@.lanes.take(i as int),
            decreases self@.lanes.len() - i,
        {
            proof {
                assert(self@.lanes.take(i + 1) =~= self@.lanes.take(i as int).push(
                    self@.lanes[i as int],
                ));
            }
            lanes.push(self.lanes[i]);
            i = i + 1;
        }
        proof {
            assert(self@.lanes.take(self@.lanes.len() as int) =~= self@.lanes);
        }
        Chord { lanes, scratch: self.scratch }
    }

    /// Whether this chord strikes `lane`.
    pub fn contains(&self, lane: u8) -> (r: bool)
        ensures
            r == self@.lanes.contains(lane),
    {
        let mut i: usize = 0;
        while i < self.lanes.len()
            invariant
                i <= self@.lanes.len(),
                forall|k: int| 0 <= k < i ==> self@.lanes[k] != lane,
            decreases self@.lanes.len() - i,
        {
            if self.lanes[i] == lane {
                return true;
            }
            i = i + 1;
        }
        false
    }
}

/// A generated single-play chart: tempo (hundredths of BPM) and bars of
/// sixteen chords each.
pub struct Chart {
    pub bpm: u32,
    pub bars: Vec<Vec<Chord>>,
}

impl Chart {
    pub fn new(bpm: u32) -> (r: Chart)
        ensures
            r.bpm == bpm,
            r.bars@.len() == 0,
    {
        Chart { bpm, bars: Vec::new() }
    }
}

/// A generated dual-play chart: per step a pair of independently generated
/// chords (left, right).
pub struct ChartDp {
    pub bpm: u32,
    pub bars: Vec<Vec<[Chord; 2]>>,
}

impl ChartDp {
    pub fn new(bpm: u32) -> (r: ChartDp)
        ensures
            r.bpm == bpm,
            r.bars@.len() == 0,
    {
        ChartDp { bpm, bars: Vec::new() }
    }
}

/// Upper bound on any lane's sampling weight.
pub const WEIGHT_CAP: u64 = FP_ONE + BIAS_CAP;

pub proof fn lemma_push_contains(s: Seq<u8>, x: u8, y: u8)
    ensures
        s.push(x).contains(y) <==> (s.contains(y) || y == x),
{
    if y == x {
        assert(s.push(x)[s.len() as int] == x);
        assert(s.push(x).contains(y));
    }
    if s.contains(y) {
        let i = choose|i: int| 0 <= i < s.len() && s[i] == y;
        assert(s.push(x)[i] == y);
        assert(s.push(x).contains(y));
    }
    if s.push(x).contains(y) {
        let i = choose|i: int| 0 <= i < s.push(x).len() && s.push(x)[i] == y;
        if i < s.len() {
            assert(s[i] == y);
        }
    }
}

pub proof fn lemma_count_le(s: Seq<u8>, n: int)
    requires
        0 <= n,
    ensures
        count_contains(s, n) <= n,
        0 <= count_contains(s, n),
    decreases n,
{
    if n > 0 {
        lemma_count_le(s, n - 1);
    }
}

pub proof fn lemma_count_push(s: Seq<u8>, x: u8, n: int)
    requires
        !s.contains(x),
        n <= 256,
    ensures
        count_contains(s.push(x), n) == count_contains(s, n) + if x < n {
            1int
        } else {
            0int
        },
    decreases n,
{
    if n > 0 {
        lemma_count_push(s, x, n - 1);
        lemma_push_contains(s, x, (n - 1) as u8);
    }
}

/// A duplicate-free sequence of lanes below `n` has at most `n` entries.
pub proof fn lemma_distinct_len(s: Seq<u8>, n: int)
    requires
        0 <= n <= 256,
        forall|i: int, j: int| 0 <= i < j < s.len() ==> s[i] != s[j],
        forall|i: int| 0 <= i < s.len() ==> s[i] < n,
    ensures
        s.len() <= count_contains(s, n) <= n,
    decreases s.len(),
{
    lemma_count_le(s, n);
    if s.len() > 0 {
        let dl = s.drop_last();
        let x = s.last();
        assert(forall|i: int| 0 <= i < dl.len() ==> dl[i] == s[i]);
        assert(!dl.contains(x));
        lemma_distinct_len(dl, n);
        lemma_count_push(dl, x, n);
        assert(dl.push(x) =~= s);
    }
}

/// What `lanes_with_upto` builds: at most one entry per lane, each below `n`,
/// containing exactly the lanes whose priority is `p`.
pub proof fn lemma_lanes_with_props(pr: Seq<usize>, p: int, n: int)
    requires
        0 <= n <= pr.len(),
        n <= 256,
    ensures
        lanes_with_upto(pr, p, n).len() <= n,
        forall|i: int|
            0 <= i < lanes_with_upto(pr, p, n).len() ==> #[trigger] lanes_with_upto(pr, p, n)[i]
                < n,
        forall|l: u8|
            lanes_with_upto(pr, p, n).contains(l) <==> (l < n && pr[l as int] == p),
    decreases n,
{
    if n > 0 {
        lemma_lanes_with_props(pr, p, n - 1);
        let prev = lanes_with_upto(pr, p, n - 1);
        let cur = lanes_with_upto(pr, p, n);
        assert forall|l: u8| cur.contains(l) implies (l < n && pr[l as int] == p) by {
            let i = choose|i: int| 0 <= i < cur.len() && cur[i] == l;
            if i < prev.len() {
                assert(prev[i] == l);
                assert(prev.contains(l));
            } else {
                assert(cur[i] == (n - 1) as u8);
            }
        }
        assert forall|l: u8| (l < n && pr[l as int] == p) implies cur.contains(l) by {
            if l < n - 1 {
                assert(prev.contains(l));
                let i = choose|i: int| 0 <= i < prev.len() && prev[i] == l;
                assert(cur[i] == l);
            } else {
                assert(cur[cur.len() - 1] == l);
            }
        }
    }
}

/// The ascending form `lanes_upto` returns: strictly sorted, all below `n`,
/// holding exactly the lanes below `n` that `sel` mentions, one entry per
/// distinct lane.
pub proof fn lemma_lanes_upto_props(sel: Seq<u8>, n: int)
    requires
        0 <= n <= 256,
    ensures
        lanes_upto(sel, n).len() == count_contains(sel, n) <= n,
        forall|i: int|
            0 <= i < lanes_upto(sel, n).len() ==> #[trigger] lanes_upto(sel, n)[i] < n,
        forall|i: int, j: int|
            0 <= i < j < lanes_upto(sel, n).len() ==> lanes_upto(sel, n)[i] < lanes_upto(
                sel,
                n,
            )[j],
        forall|l: u8| lanes_upto(sel, n).contains(l) <==> (l < n && sel.contains(l)),
    decreases n,
{
    lemma_count_le(sel, n);
    if n > 0 {
        lemma_lanes_upto_props(sel, n - 1);
        let prev = lanes_upto(sel, n - 1);
        let cur = lanes_upto(sel, n);
        assert forall|l: u8| cur.contains(l) implies (l < n && sel.contains(l)) by {
            let i = choose|i: int| 0 <= i < cur.len() && cur[i] == l;
            if i < prev.len() {
                assert(prev[i] == l);
                assert(prev.contains(l));
            } else {
                assert(cur[i] == (n - 1) as u8);
            }
        }
        assert forall|l: u8| (l < n && sel.contains(l)) implies cur.contains(l) by {
            if l < n - 1 {
                assert(prev.contains(l));
                let i = choose|i: int| 0 <= i < prev.len() && prev[i] == l;
                assert(cur[i] == l);
            } else {
                assert(cur[cur.len() - 1] == l);
            }
        }
    }
}

/// A pool's total weight is non-negative and at most `WEIGHT_CAP` per entry.
pub proof fn lemma_wsum_bounds(pool: Seq<u8>, w: Seq<u64>)
    requires
        forall|i: int| 0 <= i < w.len() ==> w[i] <= WEIGHT_CAP,
        forall|i: int| 0 <= i < pool.len() ==> pool[i] < w.len(),
    ensures
        0 <= seq_wsum(pool, w) <= pool.len() * (WEIGHT_CAP as int),
    decreases pool.len(),
{
    if pool.len() > 0 {
        assert(forall|i: int|
            0 <= i < pool.drop_first().len() ==> pool.drop_first()[i] == pool[i + 1]);
        lemma_wsum_bounds(pool.drop_first(), w);
        assert((pool.len() - 1) * (WEIGHT_CAP as int) + WEIGHT_CAP == pool.len() * (
        WEIGHT_CAP as int)) by (nonlinear_arith);
    }
}

/// The cumulative draw always lands inside the pool.
pub proof fn lemma_pick_in_range(pool: Seq<u8>, w: Seq<u64>, th: int, k: int, acc: int)
    requires
        pool.len() >= 1,
        0 <= k,
    ensures
        0 <= pick_idx(pool, w, th, k, acc) < pool.len(),
    decreases pool.len() - k,
{
    if k < pool.len() {
        let acc2 = acc + w[pool[k] as int];
        if !(th < acc2) {
            lemma_pick_in_range(pool, w, th, k + 1, acc2);
        }
    }
}

pub proof fn lemma_seq_min_le(s: Seq<u64>, i: int)
    requires
        0 <= i < s.len(),
    ensures
        seq_min(s) <= s[i],
    decreases s.len(),
{
    if i > 0 {
        lemma_seq_min_le(s.drop_first(), i - 1);
    }
}

/// `a * b` in fixed point, truncating; never exceeds `a` while the factor is
/// at most one.
fn fp_scale_exec(a: u64, b: u64) -> (r: u64)
    requires
        a <= BIAS_CAP,
        b <= FP_ONE,
    ensures
        r == fp_scale(a, b),
        r <= a,
{
    proof {
        assert(a * b <= a * FP_ONE) by (nonlinear_arith)
            requires
                b <= FP_ONE,
                0 <= a,
        ;
        assert(a * FP_ONE <= BIAS_CAP * FP_ONE) by (nonlinear_arith)
            requires
                a <= BIAS_CAP,
                0 < FP_ONE,
        ;
        vstd::arithmetic::div_mod::lemma_div_is_ordered(a * b, a * FP_ONE, FP_ONE as int);
        assert(a * FP_ONE / (FP_ONE as int) == a) by (nonlinear_arith)
            requires
                FP_ONE > 0,
        ;
    }
    let p: u128 = (a as u128) * (b as u128);
    let q: u128 = p / (FP_ONE as u128);
    q as u64
}

/// 2^(-d) in fixed point: shift for the whole part of the exponent, a linear
/// segment for the fractional part.
fn exp2_neg_exec(d: u64) -> (r: u64)
    ensures
        r == exp2_neg(d),
        r <= FP_ONE,
{
    let di = d / FP_ONE;
    let df = d % FP_ONE;
    if di >= 25 {
        0
    } else {
        let base = FP_ONE >> di;
        proof {
            assert(base <= FP_ONE && base * df < 0x1_0000_0000_0000) by (bit_vector)
                requires
                    base == 0x100_0000u64 >> di,
                    di < 25u64,
                    df < 0x100_0000u64,
            ;
            assert(base * (df as int) / (2 * FP_ONE) <= base) by (nonlinear_arith)
                requires
                    0 <= base && 0 <= df && df < 2 * FP_ONE && FP_ONE > 0,
            ;
        }
        base - base * df / (2 * FP_ONE)
    }
}

/// Rolling per-play-side generation state: the private PRNG, the chords so
/// far, each lane's consecutive-strike streak and decaying bias.
pub struct GenerateContext<'a> {
    pub generated_chords: Vec<Chord>,
    pub rng: RNG,
    pub ongoing_jacks: Vec<usize>,
    pub bias: Vec<u64>,
    pub notes_params: &'a NotesParams,
}

impl<'a> GenerateContext<'a> {
    pub open spec fn wf(&self) -> bool {
        &&& self.bias@.len() == LANES
        &&& self.ongoing_jacks@.len() == LANES
        &&& forall|i: int| 0 <= i < LANES ==> self.bias@[i] <= BIAS_CAP
        &&& forall|i: int|
            0 <= i < LANES ==> #[trigger] self.ongoing_jacks@[i] <= self.generated_chords@.len()
        &&& self.generated_chords@.len() <= 0x1000_0000
        &&& self.notes_params.wf()
    }

    pub fn new(chart_params: &ChartParams, notes_params: &'a NotesParams) -> (r: GenerateContext<
        'a,
    >)
        requires
            notes_params.wf(),
        ensures
            r.wf(),
            r.rng == (RNG { s0: chart_params.seed, s1: 0u64 }),
            r.generated_chords@.len() == 0,
            r.ongoing_jacks@ == Seq::new(LANES as nat, |i: int| 0usize),
            r.bias@ == Seq::new(LANES as nat, |i: int| 0u64),
            r.notes_params == notes_params,
    {
        let r = GenerateContext {
            generated_chords: Vec::new(),
            rng: RNG::new_u64(chart_params.seed),
            ongoing_jacks: vec![0usize; LANES],
            bias: vec![0u64; LANES],
            notes_params,
        };
        proof {
            assert(r.ongoing_jacks@ =~= Seq::new(LANES as nat, |i: int| 0usize));
            assert(r.bias@ =~= Seq::new(LANES as nat, |i: int| 0u64));
        }
        r
    }

    /// Record one generated chord: decay and raise the biases, advance or
    /// reset the streak counters, append to the history.
    pub fn push_chord(&mut self, chord: Chord)
        requires
            old(self).wf(),
            old(self).generated_chords@.len() < 0x1000_0000,
        ensures
            final(self).wf(),
            final(self).bias@ == bias_after(
                old(self).bias@,
                chord@.lanes,
                old(self).notes_params.scatter.strength,
                old(self).notes_params.scatter.decay,
            ),
            final(self).ongoing_jacks@ == jacks_after(old(self).ongoing_jacks@, chord@.lanes),
            final(self).generated_chords@ == old(self).generated_chords@.push(chord),
            final(self).rng == old(self).rng,
            final(self).notes_params == old(self).notes_params,
    {
        let strength = self.notes_params.scatter.strength;
        let decay = self.notes_params.scatter.decay;
        let ghost bias0 = self.bias@;
        let ghost jacks0 = self.ongoing_jacks@;

        let mut nb: Vec<u64> = Vec::new();
        let mut i: usize = 0;
        while i < LANES
            invariant
                i <= LANES,
                self == old(self),
                old(self).wf(),
                strength == self.notes_params.scatter.strength,
                decay == self.notes_params.scatter.decay,
                bias0 == self.bias@,
                nb@.len() == i,
                forall|k: int|
                    0 <= k < i ==> nb@[k] == bias_after(bias0, chord@.lanes, strength, decay)[k],
                forall|k: int| 0 <= k < i ==> #[trigger] nb@[k] <= BIAS_CAP,
            decreases LANES - i,
        {
            let dec = fp_scale_exec(self.bias[i], decay);
            let raised: u64 = if chord.contains(i as u8) {
                dec + strength
            } else {
                dec
            };
            let capped: u64 = if raised > BIAS_CAP {
                BIAS_CAP
            } else {
                raised
            };
            nb.push(capped);
            i = i + 1;
        }

        let mut nj: Vec<usize> = Vec::new();
        let mut i: usize = 0;
        while i < LANES
            invariant
                i <= LANES,
                self == old(self),
                old(self).wf(),
                jacks0 == self.ongoing_jacks@,
                self.generated_chords@.len() < 0x1000_0000,
                nj@.len() == i,
                forall|k: int| 0 <= k < i ==> nj@[k] == jacks_after(jacks0, chord@.lanes)[k],
                forall|k: int|
                    0 <= k < i ==> #[trigger] nj@[k] <= self.generated_chords@.len() + 1,
            decreases LANES - i,
        {
            if chord.contains(i as u8) {
                let j = self.ongoing_jacks[i];
                nj.push(j + 1);
            } else {
                nj.push(0);
            }
            i = i + 1;
        }

        self.bias = nb;
        self.ongoing_jacks = nj;
        self.generated_chords.push(chord);
        assert(self.bias@ =~= bias_after(bias0, chord@.lanes, strength, decay));
        assert(self.ongoing_jacks@ =~= jacks_after(jacks0, chord@.lanes));
    }

    /// Turn the bias vector into sampling weights; see `weight_of`.
    pub fn bias_to_weight(&self) -> (w: Vec<u64>)
        requires
            self.wf(),
        ensures
            w@ == weights_of(self.bias@, self.notes_params.scatter.inverted),
            w@.len() == LANES,
            forall|i: int| 0 <= i < LANES ==> #[trigger] w@[i] <= FP_ONE + BIAS_CAP,
    {
        let inverted = self.notes_params.scatter.inverted;
        let mut m: u64 = u64::MAX;
        let mut j: usize = 0;
        proof {
            assert(self.bias@.skip(0) =~= self.bias@);
        }
        while j < LANES
            invariant
                j <= LANES,
                self.bias@.len() == LANES,
                seq_min(self.bias@) == if m <= seq_min(self.bias@.skip(j as int)) {
                    m
                } else {
                    seq_min(self.bias@.skip(j as int))
                },
            decreases LANES - j,
        {
            proof {
                assert(self.bias@.skip(j as int).drop_first() =~= self.bias@.skip(j + 1));
                assert(self.bias@.skip(j as int)[0] == self.bias@[j as int]);
            }
            let b = self.bias[j];
            if b < m {
                m = b;
            }
            j = j + 1;
        }
        assert(self.bias@.skip(LANES as int) =~= Seq::<u64>::empty());
        assert(m == seq_min(self.bias@));

        let mut w: Vec<u64> = Vec::new();
        let mut i: usize = 0;
        while i < LANES
            invariant
                i <= LANES,
                self.wf(),
                m == seq_min(self.bias@),
                inverted == self.notes_params.scatter.inverted,
                w@.len() == i,
                forall|k: int| 0 <= k < i ==> w@[k] == weight_of(self.bias@, k, inverted),
                forall|k: int| 0 <= k < i ==> #[trigger] w@[k] <= FP_ONE + BIAS_CAP,
            decreases LANES - i,
        {
            proof {
                lemma_seq_min_le(self.bias@, i as int);
            }
            let wi: u64 = if inverted {
                FP_ONE + self.bias[i]
            } else {
                exp2_neg_exec(self.bias[i] - m)
            };
            w.push(wi);
            i = i + 1;
        }
        assert(w@ =~= weights_of(self.bias@, inverted));
        w
    }
}

/// The rolling state a generation step reads and writes: the per-lane bias,
/// the per-lane streak counters, and the private generator.
pub struct GenState {
    pub bias: Seq<u64>,
    pub jacks: Seq<usize>,
    pub rng: RNG,
}

/// The rolling state a context currently holds.
pub open spec fn state_of(c: GenerateContext) -> GenState {
    GenState { bias: c.bias@, jacks: c.ongoing_jacks@, rng: c.rng }
}

/// The state generation starts from: all-zero bias and streaks, the
/// generator seeded directly with the chart seed.
pub open spec fn init_state(seed: u64) -> GenState {
    GenState {
        bias: Seq::new(LANES as nat, |i: int| 0u64),
        jacks: Seq::new(LANES as nat, |i: int| 0usize),
        rng: RNG { s0: seed, s1: 0u64 },
    }
}

/// One generation step at slot `slot`: draw the slot's note count from the
/// density table, select that many lanes (capped at the lane count), and
/// roll the bias and streak state forward.
pub open spec fn step_model(notes: NotesParams, st: GenState, slot: int, scratch: bool) -> (
    ChordModel,
    GenState,
) {
    let table = notes.chord_density@;
    let row = table[slot % table.len() as int];
    let cnt = crate::chord::draw_total(row, st.rng);
    let rng1 = crate::rng::rng_skip(st.rng, row.len());
    let capped = if cnt > LANES {
        LANES as int
    } else {
        cnt
    };
    let mj = max_jacks_of(notes.jack_tolerance);
    let m = randomize(
        priorities_of(st.jacks, mj),
        rerolls_of(st.jacks, mj, reroll_of(notes.jack_tolerance)),
        weights_of(st.bias, notes.scatter.inverted),
        capped,
        rng1,
    );
    (
        ChordModel { lanes: m.0, scratch },
        GenState {
            bias: bias_after(st.bias, m.0, notes.scatter.strength, notes.scatter.decay),
            jacks: jacks_after(st.jacks, m.0),
            rng: m.1,
        },
    )
}

/// The chords of bar `bar_idx` from step `i` on, and the state after.
pub open spec fn bar_model(
    notes: NotesParams,
    st: GenState,
    bar_idx: int,
    has_scratch: bool,
    i: int,
) -> (Seq<ChordModel>, GenState)
    decreases CHORDS_PER_BAR - i,
{
    if i >= CHORDS_PER_BAR {
        (Seq::<ChordModel>::empty(), st)
    } else {
        let scratch = bar_idx % 8 == 0 && i == 0 && has_scratch;
        let s = step_model(notes, st, i, scratch);
        let rest = bar_model(notes, s.1, bar_idx, has_scratch, i + 1);
        (seq![s.0] + rest.0, rest.1)
    }
}

/// The bars from `bar_idx` to `bars`, and the state after.
pub open spec fn bars_model(
    notes: NotesParams,
    st: GenState,
    bar_idx: int,
    bars: int,
    has_scratch: bool,
) -> (Seq<Seq<ChordModel>>, GenState)
    decreases bars - bar_idx,
{
    if bar_idx >= bars {
        (Seq::<Seq<ChordModel>>::empty(), st)
    } else {
        let b = bar_model(notes, st, bar_idx, has_scratch, 0);
        let rest = bars_model(notes, b.1, bar_idx + 1, bars, has_scratch);
        (seq![b.0] + rest.0, rest.1)
    }
}

/// The whole chart a parameter set generates: a pure function of the
/// parameters, which is what makes generation reproducible bit for bit.
pub open spec fn chart_model(
    chart_params: ChartParams,
    notes: NotesParams,
    has_scratch: bool,
) -> Seq<Seq<ChordModel>> {
    bars_model(
        notes,
        init_state(chart_params.seed),
        0,
        chart_params.bars as int,
        has_scratch,
    ).0
}

/// Whether `v` mentions `lane`.
fn lane_in(v: &Vec<u8>, lane: u8) -> (r: bool)
    ensures
        r == v@.contains(lane),
{
    let mut i: usize = 0;
    while i < v.len()
        invariant
            i <= v@.len(),
            forall|k: int| 0 <= k < i ==> v@[k] != lane,
        decreases v@.len() - i,
    {
        if v[i] == lane {
            return true;
        }
        i = i + 1;
    }
    false
}

/// `frac * wsum / 2^24`: scale a weight total by a drawn fraction.
fn weighted_threshold(frac: u64, wsum: u64) -> (th: u64)
    requires
        frac < FP_ONE,
        wsum <= 14 * WEIGHT_CAP,
    ensures
        th as int == frac * wsum / (FP_ONE as int),
        th <= wsum,
{
    proof {
        assert(frac * wsum <= FP_ONE * wsum) by (nonlinear_arith)
            requires
                frac <= FP_ONE && 0 <= wsum,
        ;
        vstd::arithmetic::div_mod::lemma_div_is_ordered(
            frac * wsum,
            FP_ONE * wsum,
            FP_ONE as int,
        );
        assert(FP_ONE * wsum / (FP_ONE as int) == wsum) by (nonlinear_arith)
            requires
                FP_ONE > 0,
        ;
        assert(0 <= frac * wsum) by (nonlinear_arith)
            requires
                0 <= frac && 0 <= wsum,
        ;
    }
    let p: u128 = (frac as u128) * (wsum as u128);
    (p / (FP_ONE as u128)) as u64
}

/// The per-step lane selector: priority tiers (0 most eligible), one spent
/// reroll chance per lane, and a sampling weight per lane.
#[derive(Debug, Clone, PartialEq)]
pub struct NoteRandomizer {
    pub weight: Vec<u64>,
    pub priorities: Vec<usize>,
    pub reroll_chances: Vec<u64>,
}

impl NoteRandomizer {
    pub open spec fn wf(&self) -> bool {
        &&& self.priorities@.len() == LANES
        &&& self.reroll_chances@.len() == LANES
        &&& self.weight@.len() == LANES
        &&& forall|i: int| 0 <= i < LANES ==> #[trigger] self.weight@[i] <= WEIGHT_CAP
        &&& forall|i: int| 0 <= i < LANES ==> #[trigger] self.priorities@[i] <= 0x1000_0000
    }

    /// One vector of each per-lane quantity; the lengths must match the lane
    /// count, and the values stay within the bounds generation itself keeps.
    pub fn new(priorities: Vec<usize>, reroll_chances: Vec<u64>, weight: Vec<u64>) -> (r:
        NoteRandomizer)
        requires
            priorities@.len() == LANES,
            reroll_chances@.len() == LANES,
            weight@.len() == LANES,
            forall|i: int| 0 <= i < LANES ==> #[trigger] weight@[i] <= WEIGHT_CAP,
            forall|i: int| 0 <= i < LANES ==> #[trigger] priorities@[i] <= 0x1000_0000,
        ensures
            r.priorities == priorities,
            r.reroll_chances == reroll_chances,
            r.weight == weight,
            r.wf(),
    {
        NoteRandomizer { weight, priorities, reroll_chances }
    }

    /// Derive the selector from the rolling state: a lane's priority is how
    /// far its streak stands above the tolerance ceiling, lanes exactly at
    /// the ceiling get the fractional reroll chance, and weights come from
    /// the bias accumulator.
    pub fn from_context(context: &GenerateContext) -> (r: NoteRandomizer)
        requires
            context.wf(),
        ensures
            r.priorities@ == priorities_of(
                context.ongoing_jacks@,
                max_jacks_of(context.notes_params.jack_tolerance),
            ),
            r.reroll_chances@ == rerolls_of(
                context.ongoing_jacks@,
                max_jacks_of(context.notes_params.jack_tolerance),
                reroll_of(context.notes_params.jack_tolerance),
            ),
            r.weight@ == weights_of(context.bias@, context.notes_params.scatter.inverted),
            r.wf(),
    {
        let jt = context.notes_params.jack_tolerance;
        let mjq: u64 = (jt + (FP_ONE - 1)) / FP_ONE;
        proof {
            vstd::arithmetic::div_mod::lemma_div_is_ordered(
                jt + FP_ONE - 1,
                BIAS_CAP + FP_ONE - 1,
                FP_ONE as int,
            );
        }
        let max_jacks: usize = mjq as usize;
        let frac = jt % FP_ONE;
        let reroll: u64 = if frac == 0 {
            0
        } else {
            FP_ONE - frac
        };

        let ghost jacks = context.ongoing_jacks@;
        let ghost mj = max_jacks_of(jt);

        let mut priorities: Vec<usize> = Vec::new();
        let mut i: usize = 0;
        while i < LANES
            invariant
                i <= LANES,
                context.wf(),
                jacks == context.ongoing_jacks@,
                max_jacks as int == mj,
                priorities@.len() == i,
                forall|k: int| 0 <= k < i ==> priorities@[k] == priorities_of(jacks, mj)[k],
                forall|k: int| 0 <= k < i ==> #[trigger] priorities@[k] <= 0x1000_0000,
            decreases LANES - i,
        {
            let j = context.ongoing_jacks[i];
            if j > max_jacks {
                priorities.push(j - max_jacks);
            } else {
                priorities.push(0);
            }
            i = i + 1;
        }
        assert(priorities@ =~= priorities_of(jacks, mj));

        let mut rerolls: Vec<u64> = Vec::new();
        let mut i: usize = 0;
        while i < LANES
            invariant
                i <= LANES,
                context.wf(),
                jacks == context.ongoing_jacks@,
                max_jacks as int == mj,
                reroll == reroll_of(jt),
                jt == context.notes_params.jack_tolerance,
                rerolls@.len() == i,
                forall|k: int| 0 <= k < i ==> rerolls@[k] == rerolls_of(jacks, mj, reroll)[k],
            decreases LANES - i,
        {
            let j = context.ongoing_jacks[i];
            if j == max_jacks {
                rerolls.push(reroll);
            } else {
                rerolls.push(0);
            }
            i = i + 1;
        }
        assert(rerolls@ =~= rerolls_of(jacks, mj, reroll));

        let weight = context.bias_to_weight();
        NoteRandomizer { weight, priorities, reroll_chances: rerolls }
    }

    /// Select up to `count` distinct lanes, honouring tier order, weighted
    /// sampling and one-shot rerolls, and return them sorted ascending.  The
    /// whole pass is pinned to the `randomize` model: the notes, the
    /// generator state after, and the spent reroll chances are each exactly
    /// what the model says.
    #[verifier::loop_isolation(false)]
    #[verifier::rlimit(30)]
    pub fn generate(&mut self, count: usize, rng: &mut RNG) -> (notes: Vec<u8>)
        requires
            old(self).wf(),
        ensures
            ({
                let m = randomize(
                    old(self).priorities@,
                    old(self).reroll_chances@,
                    old(self).weight@,
                    count as int,
                    *old(rng),
                );
                &&& notes@ == m.0
                &&& *final(rng) == m.1
                &&& final(self).reroll_chances@ == m.2
            }),
            final(self).priorities@ == old(self).priorities@,
            final(self).weight@ == old(self).weight@,
            final(self).wf(),
            forall|i: int| 0 <= i < notes@.len() ==> #[trigger] notes@[i] < LANES as u8,
            forall|i: int, j: int| 0 <= i < j < notes@.len() ==> notes@[i] < notes@[j],
    {
        let ghost pr = self.priorities@;
        let ghost rc0 = self.reroll_chances@;
        let ghost w = self.weight@;
        let ghost rng0 = *rng;
        let ghost tiersv = tiers_of(pr);
        let ghost model = sel_tiers(tiersv, 0, Seq::<u8>::empty(), count as int, rc0, w, rng0);

        // Tier count: one past the largest priority.
        let mut maxp: usize = 0;
        let mut i: usize = 0;
        proof {
            assert(pr.skip(0) =~= pr);
        }
        while i < LANES
            invariant
                i <= LANES,
                self.wf(),
                pr == self.priorities@,
                maxp <= 0x1000_0000,
                seq_max_usize(pr) == if maxp as int >= seq_max_usize(pr.skip(i as int)) {
                    maxp as int
                } else {
                    seq_max_usize(pr.skip(i as int))
                },
            decreases LANES - i,
        {
            proof {
                assert(pr.skip(i as int).drop_first() =~= pr.skip(i + 1));
                assert(pr.skip(i as int)[0] == pr[i as int]);
            }
            let p = self.priorities[i];
            if p > maxp {
                maxp = p;
            }
            i = i + 1;
        }
        assert(pr.skip(LANES as int) =~= Seq::<usize>::empty());
        assert(maxp as int == seq_max_usize(pr));

        // Build the tiers: tier p holds the lanes with priority p, ascending.
        let tier_count = maxp + 1;
        let mut tiers: Vec<Vec<u8>> = Vec::new();
        let mut p: usize = 0;
        while p < tier_count
            invariant
                p <= tier_count,
                tier_count == seq_max_usize(pr) + 1,
                self.wf(),
                pr == self.priorities@,
                tiers@.len() == p,
                forall|q: int| 0 <= q < p ==> #[trigger] tiers@[q]@ == tiersv[q],
            decreases tier_count - p,
        {
            let mut tier: Vec<u8> = Vec::new();
            let mut l: usize = 0;
            while l < LANES
                invariant
                    l <= LANES,
                    self.wf(),
                    pr == self.priorities@,
                    tier@ == lanes_with_upto(pr, p as int, l as int),
                decreases LANES - l,
            {
                proof {
                    if pr[l as int] == p as int {
                        assert(lanes_with_upto(pr, p as int, l + 1) =~= tier@ + seq![l as u8]);
                    } else {
                        assert(lanes_with_upto(pr, p as int, l + 1) =~= tier@);
                    }
                }
                if self.priorities[l] == p {
                    tier.push(l as u8);
                }
                l = l + 1;
            }
            proof {
                assert(tier@ == lanes_with_upto(pr, p as int, pr.len() as int));
                assert(seq_max_usize(pr) >= 0);
                assert(tiersv.len() == seq_max_usize(pr) + 1);
                assert(tiersv[p as int] == lanes_with_upto(pr, p as int, pr.len() as int));
            }
            tiers.push(tier);
            p = p + 1;
        }

        let mut selected: Vec<u8> = Vec::new();
        let mut deferred: Vec<u8> = Vec::new();
        let mut cnt: usize = count;
        let mut t: usize = 0;
        proof {
            assert(Seq::<u8>::empty() + model.0 =~= model.0);
        }
        while t < tiers.len() && cnt > 0
            invariant
                t <= tiers@.len(),
                tiers@.len() == tiersv.len(),
                tiersv == tiers_of(pr),
                forall|q: int| 0 <= q < tiersv.len() ==> #[trigger] tiers@[q]@ == tiersv[q],
                self.wf(),
                pr == self.priorities@,
                w == self.weight@,
                forall|a: int, b: int| 0 <= a < b < deferred@.len() ==> deferred@[a] != deferred@[b],
                forall|a: int| 0 <= a < deferred@.len() ==> #[trigger] deferred@[a] < LANES as u8,
                forall|a: int|
                    0 <= a < deferred@.len() ==> self.reroll_chances@[#[trigger] deferred@[a] as int]
                        == 0,
                ({
                    let cur = sel_tiers(
                        tiersv,
                        t as int,
                        deferred@,
                        cnt as int,
                        self.reroll_chances@,
                        w,
                        *rng,
                    );
                    &&& model.0 == selected@ + cur.0
                    &&& model.1 == cur.1
                    &&& model.2 == cur.2
                }),
            decreases tiers@.len() - t,
        {
            let ghost def_entry = deferred@;
            proof {
                lemma_distinct_len(def_entry, LANES as int);
                lemma_lanes_with_props(pr, t as int, LANES as int);
                assert(tiersv[t as int] == lanes_with_upto(pr, t as int, pr.len() as int));
            }

            // Pool for this tier: its own lanes, then whatever was deferred.
            let mut pool: Vec<u8> = Vec::new();
            let tier_len = tiers[t].len();
            let mut k: usize = 0;
            while k < tier_len
                invariant
                    k <= tier_len,
                    t < tiers@.len(),
                    tier_len == tiers@[t as int]@.len(),
                    pool@.len() == k,
                    forall|a: int| 0 <= a < k ==> pool@[a] == tiers@[t as int]@[a],
                decreases tier_len - k,
            {
                let lane = tiers[t][k];
                pool.push(lane);
                k = k + 1;
            }
            pool.append(&mut deferred);
            proof {
                assert(pool@ =~= tiersv[t as int] + def_entry);
                assert(deferred@ =~= Seq::<u8>::empty());
            }

            while pool.len() > 0 && cnt > 0
                invariant
                    t < tiers@.len(),
                    tiers@.len() == tiersv.len(),
                    tiersv == tiers_of(pr),
                    self.wf(),
                    pr == self.priorities@,
                    w == self.weight@,
                    pool@.len() <= 14,
                    forall|a: int| 0 <= a < pool@.len() ==> #[trigger] pool@[a] < LANES as u8,
                    forall|a: int, b: int|
                        0 <= a < b < deferred@.len() ==> deferred@[a] != deferred@[b],
                    forall|a: int|
                        0 <= a < deferred@.len() ==> #[trigger] deferred@[a] < LANES as u8,
                    forall|a: int|
                        0 <= a < deferred@.len() ==> self.reroll_chances@[#[trigger] deferred@[a] as int] == 0,
                    ({
                        let cur = sel_pool(
                            tiersv,
                            t as int,
                            pool@,
                            deferred@,
                            cnt as int,
                            self.reroll_chances@,
                            w,
                            *rng,
                        );
                        &&& model.0 == selected@ + cur.0
                        &&& model.1 == cur.1
                        &&& model.2 == cur.2
                    }),
                decreases pool@.len(),
            {
                let ghost pool_b = pool@;
                let ghost def_b = deferred@;
                let ghost rc_b = self.reroll_chances@;
                let ghost rng_b = *rng;
                let ghost cnt_b = cnt as int;
                let ghost cur_b = sel_pool(tiersv, t as int, pool_b, def_b, cnt_b, rc_b, w, rng_b);

                // Total weight of the pool.
                proof {
                    lemma_wsum_bounds(pool_b, w);
                    assert(pool_b.skip(0) =~= pool_b);
                }
                let mut wsum: u64 = 0;
                let mut k: usize = 0;
                while k < pool.len()
                    invariant
                        k <= pool_b.len(),
                        pool_b == pool@,
                        pool_b.len() <= 14,
                        self.wf(),
                        w == self.weight@,
                        forall|a: int| 0 <= a < pool_b.len() ==> #[trigger] pool_b[a] < LANES as u8,
                        wsum as int == seq_wsum(pool_b, w) - seq_wsum(pool_b.skip(k as int), w),
                        seq_wsum(pool_b, w) <= 14 * WEIGHT_CAP,
                    decreases pool_b.len() - k,
                {
                    proof {
                        assert(pool_b.skip(k as int).drop_first() =~= pool_b.skip(k + 1));
                        assert(pool_b.skip(k as int)[0] == pool_b[k as int]);
                        lemma_wsum_bounds(pool_b.skip(k + 1), w);
                    }
                    let lane = pool[k];
                    wsum = wsum + self.weight[lane as usize];
                    k = k + 1;
                }
                assert(pool_b.skip(pool_b.len() as int) =~= Seq::<u8>::empty());
                assert(wsum as int == seq_wsum(pool_b, w));

                let frac = rng.next_fraction();
                let th = weighted_threshold(frac, wsum);
                let ghost th_spec = crate::rng::rng_fraction(rng_b) * seq_wsum(pool_b, w) / (
                FP_ONE as int);
                assert(th as int == th_spec);

                // The cumulative-weight pick.
                proof {
                    assert(pool_b.skip(0) =~= pool_b);
                }
                let mut idx: usize = pool.len() - 1;
                let mut found = false;
                let mut acc: u64 = 0;
                let mut k: usize = 0;
                while k < pool.len() && !found
                    invariant
                        k <= pool_b.len(),
                        pool_b == pool@,
                        pool_b.len() >= 1,
                        self.wf(),
                        w == self.weight@,
                        forall|a: int| 0 <= a < pool_b.len() ==> #[trigger] pool_b[a] < LANES as u8,
                        seq_wsum(pool_b, w) <= 14 * WEIGHT_CAP,
                        !found ==> acc as int == seq_wsum(pool_b, w) - seq_wsum(
                            pool_b.skip(k as int),
                            w,
                        ),
                        !found ==> pick_idx(pool_b, w, th as int, 0, 0) == pick_idx(
                            pool_b,
                            w,
                            th as int,
                            k as int,
                            acc as int,
                        ),
                        !found ==> idx == pool_b.len() - 1,
                        found ==> (idx < pool_b.len() && pick_idx(pool_b, w, th as int, 0, 0)
                            == idx as int),
                    decreases pool_b.len() - k, (if found { 0int } else { 1int }),
                {
                    proof {
                        assert(pool_b.skip(k as int).drop_first() =~= pool_b.skip(k + 1));
                        assert(pool_b.skip(k as int)[0] == pool_b[k as int]);
                        lemma_wsum_bounds(pool_b.skip(k + 1), w);
                        lemma_wsum_bounds(pool_b.skip(k as int), w);
                    }
                    let lane = pool[k];
                    let acc2 = acc + self.weight[lane as usize];
                    if th < acc2 {
                        idx = k;
                        found = true;
                    } else {
                        acc = acc2;
                    }
                    k = k + 1;
                }
                proof {
                    if !found {
                        assert(pool_b.skip(pool_b.len() as int) =~= Seq::<u8>::empty());
                    }
                    lemma_pick_in_range(pool_b, w, th as int, 0, 0);
                    assert(idx as int == pick_idx(pool_b, w, th as int, 0, 0));
                }

                let lane = pool.swap_remove(idx);
                assert(lane < LANES as u8);
                let chance = self.reroll_chances[lane as usize];
                self.reroll_chances[lane as usize] = 0;
                let frac2 = rng.next_fraction();

                proof {
                    assert(forall|a: int|
                        0 <= a < pool@.len() ==> #[trigger] pool@[a] < LANES as u8);
                }

                if chance > frac2 {
                    proof {
                        assert(forall|a: int|
                            0 <= a < def_b.len() ==> rc_b[#[trigger] def_b[a] as int] == 0);
                        assert(chance == rc_b[lane as int]);
                        assert(forall|a: int| 0 <= a < def_b.len() ==> def_b[a] != lane);
                    }
                    deferred.push(lane);
                    proof {
                        assert(deferred@ == def_b.push(lane));
                        assert(cur_b == sel_pool(
                            tiersv,
                            t as int,
                            pool@,
                            deferred@,
                            cnt as int,
                            self.reroll_chances@,
                            w,
                            *rng,
                        ));
                    }
                } else {
                    cnt = cnt - 1;
                    selected.push(lane);
                    proof {
                        let rest = sel_pool(
                            tiersv,
                            t as int,
                            pool@,
                            deferred@,
                            cnt as int,
                            self.reroll_chances@,
                            w,
                            *rng,
                        );
                        assert(cur_b.0 == seq![lane] + rest.0);
                        assert(model.0 == (selected@.drop_last() + seq![lane]) + rest.0);
                        assert(selected@.drop_last() + seq![lane] =~= selected@);
                        assert(model.0 == selected@ + rest.0);
                    }
                }
            }

            proof {
                let cur = sel_pool(
                    tiersv,
                    t as int,
                    pool@,
                    deferred@,
                    cnt as int,
                    self.reroll_chances@,
                    w,
                    *rng,
                );
                if cnt == 0 {
                    assert(cur == sel_tiers(
                        tiersv,
                        t + 1,
                        deferred@,
                        cnt as int,
                        self.reroll_chances@,
                        w,
                        *rng,
                    ));
                } else {
                    assert(pool@.len() == 0);
                    assert(cur == sel_tiers(
                        tiersv,
                        t + 1,
                        deferred@,
                        cnt as int,
                        self.reroll_chances@,
                        w,
                        *rng,
                    ));
                }
            }
            t = t + 1;
        }

        proof {
            let cur = sel_tiers(
                tiersv,
                t as int,
                deferred@,
                cnt as int,
                self.reroll_chances@,
                w,
                *rng,
            );
            assert(cur.0 =~= Seq::<u8>::empty());
            assert(model.0 == selected@ + cur.0);
            assert(selected@ + Seq::<u8>::empty() =~= selected@);
            assert(model.0 == selected@);
        }

        // Ascending, duplicate-free output: keep each lane that was selected.
        let mut notes: Vec<u8> = Vec::new();
        let mut l: u8 = 0;
        while l < LANES as u8
            invariant
                l <= LANES as u8,
                selected@ == model.0,
                notes@ == lanes_upto(selected@, l as int),
            decreases LANES as u8 - l,
        {
            proof {
                if selected@.contains(l) {
                    assert(lanes_upto(selected@, l + 1) =~= notes@ + seq![l]);
                } else {
                    assert(lanes_upto(selected@, l + 1) =~= notes@);
                }
            }
            if lane_in(&selected, l) {
                notes.push(l);
            }
            l = l + 1;
        }
        proof {
            lemma_lanes_upto_props(model.0, LANES as int);
        }
        notes
    }
}

/// Generate one bar: sixteen steps, each drawing its note count from the
/// density table and selecting lanes through the randomizer; the first step
/// of every eighth bar is the scratch step when scratch is enabled.
#[verifier::loop_isolation(false)]
fn generate_bar(bar_idx: usize, context: &mut GenerateContext, has_scratch: bool) -> (bar: Vec<
    Chord,
>)
    requires
        old(context).wf(),
        old(context).generated_chords@.len() + CHORDS_PER_BAR <= 0x1000_0000,
    ensures
        final(context).wf(),
        final(context).notes_params == old(context).notes_params,
        final(context).generated_chords@.len() == old(context).generated_chords@.len()
            + CHORDS_PER_BAR,
        bar@.len() == CHORDS_PER_BAR,
        ({
            let m = bar_model(
                *old(context).notes_params,
                state_of(*old(context)),
                bar_idx as int,
                has_scratch,
                0,
            );
            &&& bar.deep_view() == m.0
            &&& state_of(*final(context)) == m.1
        }),
{
    let ghost np = *old(context).notes_params;
    let ghost full = bar_model(np, state_of(*old(context)), bar_idx as int, has_scratch, 0);
    let mut bar: Vec<Chord> = Vec::new();
    let mut i: usize = 0;
    proof {
        assert(Seq::<ChordModel>::empty() + full.0 =~= full.0);
        assert(bar.deep_view() =~= Seq::<ChordModel>::empty());
    }
    while i < CHORDS_PER_BAR
        invariant
            i <= CHORDS_PER_BAR,
            context.wf(),
            context.notes_params == old(context).notes_params,
            context.generated_chords@.len() == old(context).generated_chords@.len() + i,
            bar@.len() == i,
            ({
                let cur = bar_model(np, state_of(*context), bar_idx as int, has_scratch, i as int);
                &&& full.0 == bar.deep_view() + cur.0
                &&& full.1 == cur.1
            }),
        decreases CHORDS_PER_BAR - i,
    {
        let ghost st_b = state_of(*context);
        let ghost scr = bar_idx as int % 8 == 0 && i as int == 0 && has_scratch;
        let ghost sm = step_model(np, st_b, i as int, scr);
        let ghost dv_b = bar.deep_view();

        let np_ref = context.notes_params;
        let mut r = context.rng;
        let count = np_ref.chord_density.generate_chord_density(i, &mut r);
        context.rng = r;

        let cnt: usize = if count >= LANES as u64 {
            LANES
        } else {
            count as usize
        };

        let mut randomizer = NoteRandomizer::from_context(context);
        let mut r2 = context.rng;
        let notes = randomizer.generate(cnt, &mut r2);
        context.rng = r2;

        let scratch = bar_idx % 8 == 0 && i == 0 && has_scratch;
        let chord = Chord::new(notes, scratch);
        let copy = chord.duplicate();
        context.push_chord(copy);
        proof {
            assert(chord@ == sm.0);
            assert(state_of(*context) == sm.1);
        }
        bar.push(chord);
        proof {
            let rest = bar_model(np, sm.1, bar_idx as int, has_scratch, i + 1);
            assert(bar.deep_view() =~= dv_b.push(chord@));
            assert(full.0 == dv_b + (seq![sm.0] + rest.0));
            assert(dv_b + (seq![sm.0] + rest.0) =~= dv_b.push(sm.0) + rest.0);
        }
        i = i + 1;
    }
    proof {
        let cur = bar_model(np, state_of(*context), bar_idx as int, has_scratch, i as int);
        assert(cur.0 =~= Seq::<ChordModel>::empty());
        assert(bar.deep_view() + cur.0 =~= bar.deep_view());
    }
    bar
}

/// Generate a whole single-play chart from the parameters: the result is
/// exactly `chart_model(params, notes, true)`, a pure function of the
/// parameters, so repeated calls with the same inputs give identical charts.
#[verifier::loop_isolation(false)]
pub fn generate_chart(chart_params: &ChartParams, notes_params: &NotesParams) -> (chart: Chart)
    requires
        notes_params.wf(),
        chart_params.bars <= 0xFF_FFFF,
    ensures
        chart.bpm == chart_params.bpm,
        chart.bars@.len() == chart_params.bars,
        chart.bars.deep_view() == chart_model(*chart_params, *notes_params, true),
        chart_wf(&chart),
{
    let mut context = GenerateContext::new(chart_params, notes_params);
    let mut chart = Chart::new(chart_params.bpm);
    let ghost np = *notes_params;
    let ghost full = bars_model(
        np,
        init_state(chart_params.seed),
        0,
        chart_params.bars as int,
        true,
    );
    proof {
        assert(state_of(context) == init_state(chart_params.seed));
        assert(Seq::<Seq<ChordModel>>::empty() + full.0 =~= full.0);
        assert(chart.bars.deep_view() =~= Seq::<Seq<ChordModel>>::empty());
    }
    let mut bar_idx: usize = 0;
    while bar_idx < chart_params.bars
        invariant
            bar_idx <= chart_params.bars,
            context.wf(),
            context.notes_params == notes_params,
            context.generated_chords@.len() == bar_idx * CHORDS_PER_BAR,
            chart.bpm == chart_params.bpm,
            chart.bars@.len() == bar_idx,
            ({
                let cur = bars_model(
                    np,
                    state_of(context),
                    bar_idx as int,
                    chart_params.bars as int,
                    true,
                );
                &&& full.0 == chart.bars.deep_view() + cur.0
                &&& full.1 == cur.1
            }),
        decreases chart_params.bars - bar_idx,
    {
        let ghost st_b = state_of(context);
        let ghost bm = bar_model(np, st_b, bar_idx as int, true, 0);
        let ghost dv_b = chart.bars.deep_view();
        let bar = generate_bar(bar_idx, &mut context, true);
        chart.bars.push(bar);
        proof {
            let rest = bars_model(
                np,
                bm.1,
                bar_idx + 1,
                chart_params.bars as int,
                true,
            );
            assert(chart.bars.deep_view() =~= dv_b.push(bm.0));
            assert(full.0 == dv_b + (seq![bm.0] + rest.0));
            assert(dv_b + (seq![bm.0] + rest.0) =~= dv_b.push(bm.0) + rest.0);
        }
        bar_idx = bar_idx + 1;
    }
    proof {
        let cur = bars_model(
            np,
            state_of(context),
            bar_idx as int,
            chart_params.bars as int,
            true,
        );
        assert(cur.0 =~= Seq::<Seq<ChordModel>>::empty());
        assert(chart.bars.deep_view() + cur.0 =~= chart.bars.deep_view());
        lemma_chart_model_wf(
            np,
            init_state(chart_params.seed),
            0,
            chart_params.bars as int,
            true,
        );
        let dv = chart.bars.deep_view();
        assert forall|b: int| 0 <= b < chart.bars@.len() implies (
        #[trigger] chart.bars@[b])@.len() == CHORDS_PER_BAR by {
            assert(dv[b] == chart.bars@[b].deep_view());
        }
        assert forall|b: int, i: int|
            0 <= b < chart.bars@.len() && 0 <= i < chart.bars@[b]@.len() implies chord_lanes_ok(
            #[trigger] chart.bars@[b]@[i]@,
        ) by {
            assert(dv[b] == chart.bars@[b].deep_view());
            assert(dv[b][i] == chart.bars@[b]@[i]@);
        }
    }
    chart
}

/// The parameters the right-hand side of a dual-play chart is generated
/// with: the same tempo and length, the bitwise complement of the seed.
pub open spec fn dp_right_params(chart_params: ChartParams) -> ChartParams {
    ChartParams { bpm: chart_params.bpm, bars: chart_params.bars, seed: !chart_params.seed }
}

/// Generate a dual-play chart: two fully independent generation passes (the
/// right side seeded with the complement of the seed, neither side with a
/// scratch lane), zipped step by step into left/right pairs.
#[verifier::loop_isolation(false)]
#[verifier::rlimit(30)]
pub fn generate_chart_dp(
    chart_params: &ChartParams,
    notes_params_left: &NotesParams,
    notes_params_right: &NotesParams,
) -> (chart: ChartDp)
    requires
        notes_params_left.wf(),
        notes_params_right.wf(),
        chart_params.bars <= 0xFF_FFFF,
    ensures
        chart.bpm == chart_params.bpm,
        chart.bars@.len() == chart_params.bars,
        forall|b: int|
            0 <= b < chart_params.bars ==> #[trigger] chart.bars@[b]@.len() == CHORDS_PER_BAR,
        ({
            let lm = chart_model(*chart_params, *notes_params_left, false);
            let rm = chart_model(dp_right_params(*chart_params), *notes_params_right, false);
            forall|b: int, i: int|
                0 <= b < chart_params.bars && 0 <= i < CHORDS_PER_BAR ==> (#[trigger] chart.bars@[b]@[i]@[0]@
                    == lm[b][i] && chart.bars@[b]@[i]@[1]@ == rm[b][i])
        }),
{
    let mut context_left = GenerateContext::new(chart_params, notes_params_left);
    let right_chart_params = ChartParams {
        bpm: chart_params.bpm,
        bars: chart_params.bars,
        seed: !chart_params.seed,
    };
    let mut context_right = GenerateContext::new(&right_chart_params, notes_params_right);
    let mut chart = ChartDp::new(chart_params.bpm);
    let ghost npl = *notes_params_left;
    let ghost npr = *notes_params_right;
    let ghost lfull = bars_model(
        npl,
        init_state(chart_params.seed),
        0,
        chart_params.bars as int,
        false,
    );
    let ghost rfull = bars_model(
        npr,
        init_state(!chart_params.seed),
        0,
        chart_params.bars as int,
        false,
    );
    proof {
        assert(state_of(context_left) == init_state(chart_params.seed));
        assert(state_of(context_right) == init_state(!chart_params.seed));
        assert(Seq::<Seq<ChordModel>>::empty() + lfull.0 =~= lfull.0);
        assert(Seq::<Seq<ChordModel>>::empty() + rfull.0 =~= rfull.0);
    }
    let ghost lm = lfull.0;
    let ghost rm = rfull.0;
    let mut bar_idx: usize = 0;
    while bar_idx < chart_params.bars
        invariant
            bar_idx <= chart_params.bars,
            context_left.wf(),
            context_right.wf(),
            context_left.notes_params == notes_params_left,
            context_right.notes_params == notes_params_right,
            context_left.generated_chords@.len() == bar_idx * CHORDS_PER_BAR,
            context_right.generated_chords@.len() == bar_idx * CHORDS_PER_BAR,
            chart.bpm == chart_params.bpm,
            chart.bars@.len() == bar_idx,
            ({
                let lcur = bars_model(
                    npl,
                    state_of(context_left),
                    bar_idx as int,
                    chart_params.bars as int,
                    false,
                );
                &&& lm == chart_lanes_dp(chart.bars@, 0) + lcur.0
                &&& lfull.1 == lcur.1
            }),
            ({
                let rcur = bars_model(
                    npr,
                    state_of(context_right),
                    bar_idx as int,
                    chart_params.bars as int,
                    false,
                );
                &&& rm == chart_lanes_dp(chart.bars@, 1) + rcur.0
                &&& rfull.1 == rcur.1
            }),
            forall|b: int| 0 <= b < bar_idx ==> #[trigger] chart.bars@[b]@.len() == CHORDS_PER_BAR,
        decreases chart_params.bars - bar_idx,
    {
        let ghost lbm = bar_model(npl, state_of(context_left), bar_idx as int, false, 0);
        let ghost rbm = bar_model(npr, state_of(context_right), bar_idx as int, false, 0);
        let ghost bars_b = chart.bars@;
        let bar_left = generate_bar(bar_idx, &mut context_left, false);
        let bar_right = generate_bar(bar_idx, &mut context_right, false);

        let mut bl = bar_left;
        let mut br = bar_right;
        let mut bar: Vec<[Chord; 2]> = Vec::new();
        let mut k: usize = 0;
        while k < CHORDS_PER_BAR
            invariant
                k <= CHORDS_PER_BAR,
                bar@.len() == k,
                bl@.len() == CHORDS_PER_BAR - k,
                br@.len() == CHORDS_PER_BAR - k,
                bl.deep_view() == lbm.0.skip(k as int),
                br.deep_view() == rbm.0.skip(k as int),
                forall|j: int| 0 <= j < k ==> #[trigger] bar@[j]@[0]@ == lbm.0[j],
                forall|j: int| 0 <= j < k ==> #[trigger] bar@[j]@[1]@ == rbm.0[j],
            decreases CHORDS_PER_BAR - k,
        {
            let ghost blv = bl@;
            let ghost brv = br@;
            let ghost bl_dv = bl.deep_view();
            let ghost br_dv = br.deep_view();
            let a = bl.remove(0);
            let b = br.remove(0);
            proof {
                assert(a.deep_view() == bl_dv[0]);
                assert(a@ == lbm.0.skip(k as int)[0]);
                assert(b@ == rbm.0.skip(k as int)[0]);
                assert(lbm.0.skip(k as int)[0] == lbm.0[k as int]);
                assert(rbm.0.skip(k as int)[0] == rbm.0[k as int]);
                assert forall|j: int| 0 <= j < bl@.len() implies #[trigger] bl.deep_view()[j]
                    == lbm.0.skip(k + 1)[j] by {
                    assert(bl@[j] == blv[j + 1]);
                    assert(bl.deep_view()[j] == bl@[j].deep_view());
                    assert(bl_dv[j + 1] == blv[j + 1].deep_view());
                    assert(lbm.0.skip(k as int)[j + 1] == lbm.0.skip(k + 1)[j]);
                }
                assert(bl.deep_view() =~= lbm.0.skip(k + 1));
                assert forall|j: int| 0 <= j < br@.len() implies #[trigger] br.deep_view()[j]
                    == rbm.0.skip(k + 1)[j] by {
                    assert(br@[j] == brv[j + 1]);
                    assert(br.deep_view()[j] == br@[j].deep_view());
                    assert(br_dv[j + 1] == brv[j + 1].deep_view());
                    assert(rbm.0.skip(k as int)[j + 1] == rbm.0.skip(k + 1)[j]);
                }
                assert(br.deep_view() =~= rbm.0.skip(k + 1));
            }
            let pair = [a, b];
            proof {
                assert(pair@[0] == a && pair@[1] == b);
            }
            bar.push(pair);
            k = k + 1;
        }
        let ghost barv = bar@;
        proof {
            assert forall|j: int| 0 <= j < bar@.len() implies bar@.map_values(
                |p: [Chord; 2]| p@[0]@,
            )[j] == lbm.0[j] && bar@.map_values(|p: [Chord; 2]| p@[1]@)[j] == rbm.0[j] by {
                assert(bar@[j]@[0]@ == lbm.0[j]);
                assert(bar@[j]@[1]@ == rbm.0[j]);
            }
            assert(bar@.map_values(|p: [Chord; 2]| p@[0]@) =~= lbm.0);
            assert(bar@.map_values(|p: [Chord; 2]| p@[1]@) =~= rbm.0);
            assert(barv.map_values(|p: [Chord; 2]| p@[0]@) == lbm.0);
            assert(barv.map_values(|p: [Chord; 2]| p@[1]@) == rbm.0);
        }
        chart.bars.push(bar);
        proof {
            assert(chart.bars@[chart.bars@.len() - 1]@ == barv);
            assert forall|b: int| 0 <= b < chart.bars@.len() implies #[trigger] chart_lanes_dp(
                chart.bars@,
                0,
            )[b] == chart_lanes_dp(bars_b, 0).push(lbm.0)[b] && chart_lanes_dp(chart.bars@, 1)[b]
                == chart_lanes_dp(bars_b, 1).push(rbm.0)[b] by {
                if b < bars_b.len() {
                    assert(chart.bars@[b] == bars_b[b]);
                }
            }
            assert(chart_lanes_dp(chart.bars@, 0) =~= chart_lanes_dp(bars_b, 0).push(lbm.0));
            assert(chart_lanes_dp(chart.bars@, 1) =~= chart_lanes_dp(bars_b, 1).push(rbm.0));
            let lrest = bars_model(
                npl,
                lbm.1,
                bar_idx + 1,
                chart_params.bars as int,
                false,
            );
            assert(lm == chart_lanes_dp(bars_b, 0) + (seq![lbm.0] + lrest.0));
            assert(chart_lanes_dp(bars_b, 0) + (seq![lbm.0] + lrest.0) =~= chart_lanes_dp(
                bars_b,
                0,
            ).push(lbm.0) + lrest.0);
            let rrest = bars_model(
                npr,
                rbm.1,
                bar_idx + 1,
                chart_params.bars as int,
                false,
            );
            assert(rm == chart_lanes_dp(bars_b, 1) + (seq![rbm.0] + rrest.0));
            assert(chart_lanes_dp(bars_b, 1) + (seq![rbm.0] + rrest.0) =~= chart_lanes_dp(
                bars_b,
                1,
            ).push(rbm.0) + rrest.0);
        }
        bar_idx = bar_idx + 1;
    }
    proof {
        let lcur = bars_model(
            npl,
            state_of(context_left),
            bar_idx as int,
            chart_params.bars as int,
            false,
        );
        let rcur = bars_model(
            npr,
            state_of(context_right),
            bar_idx as int,
            chart_params.bars as int,
            false,
        );
        assert(lcur.0 =~= Seq::<Seq<ChordModel>>::empty());
        assert(rcur.0 =~= Seq::<Seq<ChordModel>>::empty());
        assert(chart_lanes_dp(chart.bars@, 0) + lcur.0 =~= chart_lanes_dp(chart.bars@, 0));
        assert(chart_lanes_dp(chart.bars@, 1) + rcur.0 =~= chart_lanes_dp(chart.bars@, 1));
        assert forall|b: int, i: int|
            0 <= b < chart_params.bars && 0 <= i < CHORDS_PER_BAR implies (#[trigger] chart.bars@[b]@[i]@[0]@
            == lm[b][i] && chart.bars@[b]@[i]@[1]@ == rm[b][i]) by {
            assert(chart_lanes_dp(chart.bars@, 0)[b] == chart.bars@[b]@.map_values(
                |p: [Chord; 2]| p@[0]@,
            ));
            assert(chart_lanes_dp(chart.bars@, 1)[b] == chart.bars@[b]@.map_values(
                |p: [Chord; 2]| p@[1]@,
            ));
        }
    }
    chart
}

/// One side's chord models of a dual-play bar list: side 0 is the left
/// chord of each pair, side 1 the right.
pub open spec fn chart_lanes_dp(bars: Seq<Vec<[Chord; 2]>>, side: int) -> Seq<Seq<ChordModel>> {
    Seq::new(bars.len(), |b: int| bars[b]@.map_values(|p: [Chord; 2]| p@[side]@))
}

/// How many lanes below `n` satisfy `f`.
pub open spec fn count_lanes(f: spec_fn(u8) -> bool, n: int) -> int
    decreases n,
{
    if n <= 0 {
        0
    } else {
        count_lanes(f, n - 1) + if f((n - 1) as u8) {
            1int
        } else {
            0int
        }
    }
}

proof fn lemma_count_lanes_mono(f: spec_fn(u8) -> bool, g: spec_fn(u8) -> bool, n: int)
    requires
        forall|l: u8| #[trigger] f(l) ==> g(l),
    ensures
        count_lanes(f, n) <= count_lanes(g, n),
    decreases n,
{
    if n > 0 {
        lemma_count_lanes_mono(f, g, n - 1);
    }
}

proof fn lemma_count_lanes_ext(f: spec_fn(u8) -> bool, g: spec_fn(u8) -> bool, n: int)
    requires
        forall|l: u8| l < n ==> (#[trigger] f(l) == g(l)),
    ensures
        count_lanes(f, n) == count_lanes(g, n),
    decreases n,
{
    if n > 0 {
        lemma_count_lanes_ext(f, g, n - 1);
    }
}

proof fn lemma_count_lanes_none(f: spec_fn(u8) -> bool, n: int)
    requires
        forall|l: u8| !#[trigger] f(l),
    ensures
        count_lanes(f, n) == 0,
    decreases n,
{
    if n > 0 {
        lemma_count_lanes_none(f, n - 1);
    }
}

proof fn lemma_count_lanes_complement(f: spec_fn(u8) -> bool, g: spec_fn(u8) -> bool, n: int)
    requires
        0 <= n,
        forall|l: u8| #[trigger] g(l) <==> !f(l),
    ensures
        count_lanes(f, n) + count_lanes(g, n) == n,
    decreases n,
{
    if n > 0 {
        lemma_count_lanes_complement(f, g, n - 1);
    }
}

proof fn lemma_count_lanes_contains(s: Seq<u8>, n: int)
    ensures
        count_lanes(|l: u8| s.contains(l), n) == count_contains(s, n),
    decreases n,
{
    if n > 0 {
        lemma_count_lanes_contains(s, n - 1);
    }
}

proof fn lemma_lanes_with_len(pr: Seq<usize>, p: int, n: int)
    requires
        n <= 256,
    ensures
        lanes_with_upto(pr, p, n).len() == count_lanes(|l: u8| pr[l as int] == p, n),
    decreases n,
{
    if n > 0 {
        lemma_lanes_with_len(pr, p, n - 1);
    }
}

proof fn lemma_count_contains_empty(s: Seq<u8>, n: int)
    requires
        s.len() == 0,
    ensures
        count_contains(s, n) == 0,
    decreases n,
{
    if n > 0 {
        lemma_count_contains_empty(s, n - 1);
    }
}

proof fn lemma_count_drop_last(s: Seq<u8>, n: int)
    requires
        s.len() > 0,
        n <= 256,
    ensures
        count_contains(s, n) <= count_contains(s.drop_last(), n) + 1,
        s.last() as int >= n ==> count_contains(s, n) == count_contains(s.drop_last(), n),
    decreases n,
{
    if n > 0 {
        lemma_count_drop_last(s, n - 1);
        let l = (n - 1) as u8;
        let dl = s.drop_last();
        if s.contains(l) && !dl.contains(l) {
            let i = choose|i: int| 0 <= i < s.len() && s[i] == l;
            if i < s.len() - 1 {
                assert(dl[i] == l);
                assert(dl.contains(l));
            }
            assert(s.last() == l);
        }
        if dl.contains(l) {
            let i = choose|i: int| 0 <= i < dl.len() && dl[i] == l;
            assert(s[i] == l);
            assert(s.contains(l));
        }
    }
}

/// A sequence mentions at most as many distinct lanes as it has entries.
proof fn lemma_count_le_len(s: Seq<u8>, n: int)
    requires
        0 <= n <= 256,
    ensures
        0 <= count_contains(s, n) <= s.len(),
    decreases s.len(),
{
    lemma_count_le(s, n);
    if s.len() == 0 {
        lemma_count_contains_empty(s, n);
    } else {
        lemma_count_drop_last(s, n);
        lemma_count_le_len(s.drop_last(), n);
    }
}

/// Selection never returns more lanes than were asked for.
proof fn lemma_sel_pool_len(
    tiers: Seq<Seq<u8>>,
    t: int,
    pool: Seq<u8>,
    deferred: Seq<u8>,
    count: int,
    rc: Seq<u64>,
    w: Seq<u64>,
    rng: RNG,
)
    ensures
        count >= 0 ==> sel_pool(tiers, t, pool, deferred, count, rc, w, rng).0.len() <= count,
        count < 0 ==> sel_pool(tiers, t, pool, deferred, count, rc, w, rng).0.len() == 0,
    decreases tiers.len() - t, 0int, pool.len(),
{
    if count <= 0 || tiers.len() - t <= 0 {
    } else if pool.len() == 0 {
        lemma_sel_tiers_len(tiers, t + 1, deferred, count, rc, w, rng);
    } else {
        let frac1 = crate::rng::rng_fraction(rng);
        let rng1 = crate::rng::rng_step(rng);
        let th = frac1 * seq_wsum(pool, w) / (FP_ONE as int);
        let idx0 = pick_idx(pool, w, th, 0, 0);
        let idx = if 0 <= idx0 < pool.len() {
            idx0
        } else {
            pool.len() - 1
        };
        let lane = pool[idx];
        let pool2 = pool.update(idx, pool.last()).drop_last();
        let frac2 = crate::rng::rng_fraction(rng1);
        let rng2 = crate::rng::rng_step(rng1);
        let rc2 = rc.update(lane as int, 0u64);
        if rc[lane as int] > frac2 {
            lemma_sel_pool_len(tiers, t, pool2, deferred.push(lane), count, rc2, w, rng2);
        } else {
            lemma_sel_pool_len(tiers, t, pool2, deferred, count - 1, rc2, w, rng2);
        }
    }
}

proof fn lemma_sel_tiers_len(
    tiers: Seq<Seq<u8>>,
    t: int,
    deferred: Seq<u8>,
    count: int,
    rc: Seq<u64>,
    w: Seq<u64>,
    rng: RNG,
)
    ensures
        count >= 0 ==> sel_tiers(tiers, t, deferred, count, rc, w, rng).0.len() <= count,
        count < 0 ==> sel_tiers(tiers, t, deferred, count, rc, w, rng).0.len() == 0,
    decreases tiers.len() - t, 1int, 0int,
{
    if count <= 0 || t >= tiers.len() {
    } else {
        lemma_sel_pool_len(tiers, t, tiers[t] + deferred, Seq::<u8>::empty(), count, rc, w, rng);
    }
}

/// With every reroll chance zero and no more notes wanted than the pool
/// holds, every selected lane comes out of the pool itself: selection never
/// reaches a later tier.
proof fn lemma_sel_pool_zero(
    tiers: Seq<Seq<u8>>,
    t: int,
    pool: Seq<u8>,
    deferred: Seq<u8>,
    count: int,
    rc: Seq<u64>,
    w: Seq<u64>,
    rng: RNG,
)
    requires
        rc.len() == LANES,
        forall|i: int| 0 <= i < rc.len() ==> rc[i] == 0,
        forall|i: int| 0 <= i < pool.len() ==> pool[i] < LANES as u8,
        0 <= count <= pool.len(),
        t < tiers.len(),
    ensures
        forall|l: u8|
            #[trigger] sel_pool(tiers, t, pool, deferred, count, rc, w, rng).0.contains(l)
                ==> pool.contains(l),
    decreases pool.len(),
{
    if count > 0 {
        let frac1 = crate::rng::rng_fraction(rng);
        let rng1 = crate::rng::rng_step(rng);
        let th = frac1 * seq_wsum(pool, w) / (FP_ONE as int);
        let idx0 = pick_idx(pool, w, th, 0, 0);
        let idx = if 0 <= idx0 < pool.len() {
            idx0
        } else {
            pool.len() - 1
        };
        let lane = pool[idx];
        assert(pool.contains(lane));
        assert(lane < LANES as u8);
        assert(rc[lane as int] == 0);
        let pool2 = pool.update(idx, pool.last()).drop_last();
        let frac2 = crate::rng::rng_fraction(rng1);
        let rng2 = crate::rng::rng_step(rng1);
        let rc2 = rc.update(lane as int, 0u64);
        assert forall|i: int| 0 <= i < pool2.len() implies pool2[i] < LANES as u8
            && pool.contains(#[trigger] pool2[i]) by {
            if i == idx {
                assert(pool2[i] == pool.last());
            } else {
                assert(pool2[i] == pool[i]);
            }
        }
        lemma_sel_pool_zero(tiers, t, pool2, deferred, count - 1, rc2, w, rng2);
        let r = sel_pool(tiers, t, pool, deferred, count, rc, w, rng);
        let rest = sel_pool(tiers, t, pool2, deferred, count - 1, rc2, w, rng2);
        assert(r.0 == seq![lane] + rest.0);
        assert forall|l: u8| #[trigger] r.0.contains(l) implies pool.contains(l) by {
            let i = choose|i: int| 0 <= i < r.0.len() && r.0[i] == l;
            if i == 0 {
                assert(l == lane);
            } else {
                assert(rest.0[i - 1] == l);
                assert(rest.0.contains(l));
                assert(pool2.contains(l));
                let j = choose|j: int| 0 <= j < pool2.len() && pool2[j] == l;
                assert(pool.contains(pool2[j]));
            }
        }
    }
}

/// The consecutive-strike streak a chord history ends with on lane `l`.
pub open spec fn streak(hist: Seq<ChordModel>, l: u8) -> int
    decreases hist.len(),
{
    if hist.len() == 0 {
        0
    } else if hist.last().lanes.contains(l) {
        1 + streak(hist.drop_last(), l)
    } else {
        0
    }
}

proof fn lemma_streak_lower(hist: Seq<ChordModel>, l: u8, m: int)
    requires
        0 <= m <= hist.len(),
        forall|u: int| hist.len() - m <= u < hist.len() ==> (#[trigger] hist[u].lanes).contains(l),
    ensures
        streak(hist, l) >= m,
    decreases m,
{
    lemma_streak_le_len(hist, l);
    if m > 0 {
        assert(hist[hist.len() - 1].lanes.contains(l));
        let dl = hist.drop_last();
        assert forall|u: int| dl.len() - (m - 1) <= u < dl.len() implies (
        #[trigger] dl[u].lanes).contains(l) by {
            assert(dl[u] == hist[u]);
            assert(hist[u].lanes.contains(l));
        }
        lemma_streak_lower(dl, l, m - 1);
    }
}

/// A streak never exceeds the history length.
proof fn lemma_streak_le_len(hist: Seq<ChordModel>, l: u8)
    ensures
        0 <= streak(hist, l) <= hist.len(),
    decreases hist.len(),
{
    if hist.len() > 0 {
        lemma_streak_le_len(hist.drop_last(), l);
    }
}

/// Lane `l` is struck at every step in [s, e) of the chord stream.
pub open spec fn strikes_all(chords: Seq<ChordModel>, s: int, e: int, l: u8) -> bool {
    forall|u: int| s <= u < e ==> (#[trigger] chords[u].lanes).contains(l)
}

/// No lane is struck at `k + 2` consecutive steps of the chord stream.
pub open spec fn no_jack_window(chords: Seq<ChordModel>, k: int) -> bool {
    forall|s: int, l: u8|
        0 <= s && s + k + 2 <= chords.len() ==> !#[trigger] strikes_all(chords, s, s + k + 2, l)
}

/// The global conditions of the anti-jack law: a whole-number tolerance of
/// `k` strikes (so no fractional rerolls), and a density table that never
/// asks for more than `c` notes a step, with room for two disjoint chords.
pub open spec fn anti_jack_conditions(notes: NotesParams, k: int, c: int) -> bool {
    &&& notes.chord_density@.len() > 0
    &&& forall|r: int|
        0 <= r < notes.chord_density@.len() ==> crate::chord::max_total(
            #[trigger] notes.chord_density@[r],
        ) <= c
    &&& max_jacks_of(notes.jack_tolerance) == k
    &&& reroll_of(notes.jack_tolerance) == 0
    &&& 0 <= k
    &&& 0 <= c
    &&& c + c <= LANES
}

/// One step under the anti-jack conditions: the new chord holds at most `c`
/// lanes, none of them a lane whose streak already stands above `k`, so the
/// extended history still has no `k + 2` window; and the new streak counters
/// match the extended history.
proof fn lemma_step_no_jack(
    notes: NotesParams,
    st: GenState,
    slot: int,
    scratch: bool,
    hist: Seq<ChordModel>,
    k: int,
    c: int,
)
    requires
        anti_jack_conditions(notes, k, c),
        0 <= slot,
        hist.len() < usize::MAX,
        st.jacks.len() == LANES,
        forall|l: u8| l < LANES as u8 ==> st.jacks[l as int] == streak(hist, l),
        forall|u: int| 0 <= u < hist.len() ==> (#[trigger] hist[u].lanes).len() <= c,
        no_jack_window(hist, k),
    ensures
        ({
            let r = step_model(notes, st, slot, scratch);
            let hist2 = hist.push(r.0);
            &&& r.0.lanes.len() <= c
            &&& r.1.jacks.len() == LANES
            &&& forall|l: u8| l < LANES as u8 ==> r.1.jacks[l as int] == streak(hist2, l)
            &&& no_jack_window(hist2, k)
        }),
{
    let table = notes.chord_density@;
    let row = table[slot % table.len() as int];
    let cnt = crate::chord::draw_total(row, st.rng);
    crate::chord::lemma_draw_le_max(row, st.rng);
    assert(0 <= slot % (table.len() as int) && slot % (table.len() as int) < table.len());
    assert(cnt <= c);
    let capped = if cnt > LANES {
        LANES as int
    } else {
        cnt
    };
    assert(0 <= capped <= c);

    let mj = max_jacks_of(notes.jack_tolerance);
    let pr = priorities_of(st.jacks, mj);
    let rc = rerolls_of(st.jacks, mj, reroll_of(notes.jack_tolerance));
    assert(forall|i: int| 0 <= i < rc.len() ==> rc[i] == 0);
    let w = weights_of(st.bias, notes.scatter.inverted);
    let rng1 = crate::rng::rng_skip(st.rng, row.len());

    assert forall|l: u8| l < LANES as u8 implies 0 <= #[trigger] st.jacks[l as int]
        <= hist.len() by {
        lemma_streak_le_len(hist, l);
    }

    // The streak-heavy lanes are confined to the previous chord.
    let fjk = |l: u8| l < LANES as u8 && st.jacks[l as int] > k;
    if hist.len() == 0 {
        assert forall|l: u8| !#[trigger] fjk(l) by {
            if l < LANES as u8 {
                assert(st.jacks[l as int] == streak(hist, l));
            }
        }
        lemma_count_lanes_none(fjk, LANES as int);
    } else {
        let fprev = |l: u8| hist.last().lanes.contains(l);
        assert forall|l: u8| #[trigger] fjk(l) implies fprev(l) by {
            assert(st.jacks[l as int] == streak(hist, l));
            assert(streak(hist, l) > 0);
        }
        lemma_count_lanes_mono(fjk, fprev, LANES as int);
        lemma_count_lanes_contains(hist.last().lanes, LANES as int);
        lemma_count_lanes_ext(
            fprev,
            |l: u8| hist.last().lanes.contains(l),
            LANES as int,
        );
        lemma_count_le_len(hist.last().lanes, LANES as int);
        assert(hist[hist.len() - 1].lanes.len() <= c);
    }
    assert(count_lanes(fjk, LANES as int) <= c);

    // Tier 0 therefore has room for the whole chord.
    let tiers = tiers_of(pr);
    assert(seq_max_usize(pr) >= 0);
    assert(tiers.len() >= 1);
    let tier0 = tiers[0];
    assert(tier0 == lanes_with_upto(pr, 0, LANES as int));
    lemma_lanes_with_len(pr, 0, LANES as int);
    let fz = |l: u8| pr[l as int] == 0;
    let fnz = |l: u8| l < LANES as u8 && pr[l as int] != 0;
    let fnzc = |l: u8| !(l < LANES as u8 && pr[l as int] != 0);
    lemma_count_lanes_complement(fnz, fnzc, LANES as int);
    lemma_count_lanes_ext(fz, fnzc, LANES as int);
    assert forall|l: u8| #[trigger] fnz(l) implies fjk(l) by {
        assert(pr[l as int] == priorities_of(st.jacks, mj)[l as int]);
    }
    lemma_count_lanes_mono(fnz, fjk, LANES as int);
    assert(tier0.len() == count_lanes(fz, LANES as int));
    assert(tier0.len() >= LANES - c >= c >= capped);

    let sel = sel_tiers(tiers, 0, Seq::<u8>::empty(), capped, rc, w, rng1);
    let r = step_model(notes, st, slot, scratch);
    assert(r.0.lanes == lanes_upto(sel.0, LANES as int));
    lemma_lanes_upto_props(sel.0, LANES as int);
    lemma_count_le_len(sel.0, LANES as int);
    lemma_sel_tiers_len(tiers, 0, Seq::<u8>::empty(), capped, rc, w, rng1);
    lemma_lanes_with_props(pr, 0, LANES as int);

    if capped > 0 {
        assert(tiers[0] + Seq::<u8>::empty() =~= tier0);
        lemma_sel_pool_zero(tiers, 0, tier0, Seq::<u8>::empty(), capped, rc, w, rng1);
        assert(sel == sel_pool(tiers, 0, tier0, Seq::<u8>::empty(), capped, rc, w, rng1));
    } else {
        assert(sel.0 =~= Seq::<u8>::empty());
    }

    // Every selected lane had a streak at or under k.
    assert forall|l: u8| #[trigger] r.0.lanes.contains(l) implies l < LANES as u8
        && st.jacks[l as int] <= k by {
        assert(sel.0.contains(l) && l < LANES as u8);
        assert(tier0.contains(l));
        assert(pr[l as int] == 0);
    }
    assert(r.0.lanes.len() <= c);

    // Streak counters track the extended history.
    let hist2 = hist.push(r.0);
    assert(hist2.drop_last() =~= hist);
    assert forall|l: u8| l < LANES as u8 implies r.1.jacks[l as int] == streak(hist2, l) by {
        assert(hist2.last() == r.0);
        assert(r.1.jacks == jacks_after(st.jacks, r.0.lanes));
        if r.0.lanes.contains(l) {
            assert(st.jacks[l as int] < usize::MAX);
            assert(r.1.jacks[l as int] == st.jacks[l as int] + 1);
            assert(streak(hist2, l) == 1 + streak(hist, l));
        } else {
            assert(r.1.jacks[l as int] == 0);
            assert(streak(hist2, l) == 0);
        }
    }

    // And no k+2 window appears.
    assert forall|s: int, l: u8| 0 <= s && s + k + 2 <= hist2.len() implies !#[trigger] strikes_all(
        hist2,
        s,
        s + k + 2,
        l,
    ) by {
        if s + k + 2 <= hist.len() {
            assert(!strikes_all(hist, s, s + k + 2, l));
            if strikes_all(hist2, s, s + k + 2, l) {
                assert forall|u: int| s <= u < s + k + 2 implies (#[trigger] hist[u].lanes).contains(
                    l,
                ) by {
                    assert(hist2[u].lanes.contains(l));
                    assert(hist2[u] == hist[u]);
                }
            }
        } else {
            if strikes_all(hist2, s, s + k + 2, l) {
                assert(hist2[hist2.len() - 1].lanes.contains(l));
                assert(r.0.lanes.contains(l));
                assert(st.jacks[l as int] <= k);
                assert forall|u: int| hist.len() - (k + 1) <= u < hist.len() implies (
                #[trigger] hist[u].lanes).contains(l) by {
                    assert(hist2[u].lanes.contains(l));
                    assert(hist2[u] == hist[u]);
                }
                lemma_streak_lower(hist, l, k + 1);
                assert(streak(hist, l) >= k + 1);
            }
        }
    }
}

proof fn lemma_bar_model_len(
    notes: NotesParams,
    st: GenState,
    bar_idx: int,
    has_scratch: bool,
    i: int,
)
    ensures
        bar_model(notes, st, bar_idx, has_scratch, i).0.len() == if i < CHORDS_PER_BAR {
            CHORDS_PER_BAR - i
        } else {
            0int
        },
    decreases CHORDS_PER_BAR - i,
{
    if i < CHORDS_PER_BAR {
        let scr = bar_idx % 8 == 0 && i == 0 && has_scratch;
        let s = step_model(notes, st, i, scr);
        lemma_bar_model_len(notes, s.1, bar_idx, has_scratch, i + 1);
    }
}

proof fn lemma_bar_no_jack(
    notes: NotesParams,
    st: GenState,
    bar_idx: int,
    has_scratch: bool,
    i: int,
    hist: Seq<ChordModel>,
    k: int,
    c: int,
)
    requires
        anti_jack_conditions(notes, k, c),
        0 <= i,
        hist.len() + (CHORDS_PER_BAR - i) <= usize::MAX,
        st.jacks.len() == LANES,
        forall|l: u8| l < LANES as u8 ==> st.jacks[l as int] == streak(hist, l),
        forall|u: int| 0 <= u < hist.len() ==> (#[trigger] hist[u].lanes).len() <= c,
        no_jack_window(hist, k),
    ensures
        ({
            let r = bar_model(notes, st, bar_idx, has_scratch, i);
            let hist2 = hist + r.0;
            &&& r.1.jacks.len() == LANES
            &&& forall|l: u8| l < LANES as u8 ==> r.1.jacks[l as int] == streak(hist2, l)
            &&& forall|u: int| 0 <= u < hist2.len() ==> (#[trigger] hist2[u].lanes).len() <= c
            &&& no_jack_window(hist2, k)
        }),
    decreases CHORDS_PER_BAR - i,
{
    let r = bar_model(notes, st, bar_idx, has_scratch, i);
    if i >= CHORDS_PER_BAR {
        assert(hist + r.0 =~= hist);
    } else {
        let scr = bar_idx % 8 == 0 && i == 0 && has_scratch;
        let s = step_model(notes, st, i, scr);
        lemma_step_no_jack(notes, st, i, scr, hist, k, c);
        let hist1 = hist.push(s.0);
        lemma_bar_no_jack(notes, s.1, bar_idx, has_scratch, i + 1, hist1, k, c);
        let rest = bar_model(notes, s.1, bar_idx, has_scratch, i + 1);
        assert(r.0 == seq![s.0] + rest.0);
        assert(hist + r.0 =~= hist1 + rest.0);
    }
}

proof fn lemma_bars_no_jack(
    notes: NotesParams,
    st: GenState,
    bar_idx: int,
    bars: int,
    has_scratch: bool,
    hist: Seq<ChordModel>,
    k: int,
    c: int,
)
    requires
        anti_jack_conditions(notes, k, c),
        hist.len() + (bars - bar_idx) * (CHORDS_PER_BAR as int) <= usize::MAX,
        st.jacks.len() == LANES,
        forall|l: u8| l < LANES as u8 ==> st.jacks[l as int] == streak(hist, l),
        forall|u: int| 0 <= u < hist.len() ==> (#[trigger] hist[u].lanes).len() <= c,
        no_jack_window(hist, k),
    ensures
        no_jack_window(hist + bars_model(notes, st, bar_idx, bars, has_scratch).0.flatten(), k),
    decreases bars - bar_idx,
{
    let r = bars_model(notes, st, bar_idx, bars, has_scratch);
    if bar_idx >= bars {
        assert(r.0.flatten() =~= Seq::<ChordModel>::empty());
        assert(hist + r.0.flatten() =~= hist);
    } else {
        let b = bar_model(notes, st, bar_idx, has_scratch, 0);
        lemma_bar_model_len(notes, st, bar_idx, has_scratch, 0);
        assert((bars - bar_idx) * (CHORDS_PER_BAR as int) == CHORDS_PER_BAR + (bars - bar_idx - 1)
            * (CHORDS_PER_BAR as int)) by (nonlinear_arith);
        lemma_bar_no_jack(notes, st, bar_idx, has_scratch, 0, hist, k, c);
        let hist1 = hist + b.0;
        lemma_bars_no_jack(notes, b.1, bar_idx + 1, bars, has_scratch, hist1, k, c);
        let rest = bars_model(notes, b.1, bar_idx + 1, bars, has_scratch);
        assert(r.0 == seq![b.0] + rest.0);
        assert(r.0.first() == b.0);
        assert(r.0.drop_first() =~= rest.0);
        assert(r.0.flatten() == b.0 + rest.0.flatten());
        assert(hist + r.0.flatten() =~= hist1 + rest.0.flatten());
    }
}

/// The anti-jack law.  With a whole-number jack tolerance of `k` consecutive
/// strikes (no fractional reroll), and a density table that never asks for
/// more than `c` notes a step where two such chords fit among the lanes
/// (`2c` at most the lane count), no lane of the generated chart is struck
/// at `k + 2` consecutive steps, bar boundaries included.  With tolerance 0
/// consecutive steps never share a lane; with tolerance 1 no lane is struck
/// three steps running.  `generate_chart` promises its bars equal
/// `chart_model`, so the law carries over to every chart it returns.
pub proof fn lemma_anti_jack(
    chart_params: ChartParams,
    notes: NotesParams,
    has_scratch: bool,
    k: int,
    c: int,
)
    requires
        anti_jack_conditions(notes, k, c),
        chart_params.bars <= 0xFF_FFFF,
    ensures
        no_jack_window(chart_model(chart_params, notes, has_scratch).flatten(), k),
{
    let st = init_state(chart_params.seed);
    let hist = Seq::<ChordModel>::empty();
    assert(forall|l: u8| l < LANES as u8 ==> st.jacks[l as int] == streak(hist, l));
    lemma_bars_no_jack(notes, st, 0, chart_params.bars as int, has_scratch, hist, k, c);
    assert(hist + chart_model(chart_params, notes, has_scratch).flatten() =~= chart_model(
        chart_params,
        notes,
        has_scratch,
    ).flatten());
}

/// Every lane of the chord is a real lane index.
pub open spec fn chord_lanes_ok(c: ChordModel) -> bool {
    forall|j: int| 0 <= j < c.lanes.len() ==> #[trigger] c.lanes[j] < LANES as u8
}

/// Sixteen chords a bar, every lane in range: what the encoder relies on.
pub open spec fn chart_wf(chart: &Chart) -> bool {
    &&& forall|b: int|
        0 <= b < chart.bars@.len() ==> (#[trigger] chart.bars@[b])@.len() == CHORDS_PER_BAR
    &&& forall|b: int, i: int|
        0 <= b < chart.bars@.len() && 0 <= i < chart.bars@[b]@.len() ==> chord_lanes_ok(
            #[trigger] chart.bars@[b]@[i]@,
        )
}

proof fn lemma_step_model_lanes(notes: NotesParams, st: GenState, slot: int, scratch: bool)
    ensures
        chord_lanes_ok(step_model(notes, st, slot, scratch).0),
{
    let table = notes.chord_density@;
    let row = table[slot % table.len() as int];
    let cnt = crate::chord::draw_total(row, st.rng);
    let capped = if cnt > LANES {
        LANES as int
    } else {
        cnt
    };
    let mj = max_jacks_of(notes.jack_tolerance);
    let sel = sel_tiers(
        tiers_of(priorities_of(st.jacks, mj)),
        0,
        Seq::<u8>::empty(),
        capped,
        rerolls_of(st.jacks, mj, reroll_of(notes.jack_tolerance)),
        weights_of(st.bias, notes.scatter.inverted),
        crate::rng::rng_skip(st.rng, row.len()),
    );
    lemma_lanes_upto_props(sel.0, LANES as int);
}

proof fn lemma_bar_model_wf(
    notes: NotesParams,
    st: GenState,
    bar_idx: int,
    has_scratch: bool,
    i: int,
)
    ensures
        forall|q: int|
            0 <= q < bar_model(notes, st, bar_idx, has_scratch, i).0.len() ==> chord_lanes_ok(
                #[trigger] bar_model(notes, st, bar_idx, has_scratch, i).0[q],
            ),
    decreases CHORDS_PER_BAR - i,
{
    if i < CHORDS_PER_BAR {
        let scr = bar_idx % 8 == 0 && i == 0 && has_scratch;
        let s = step_model(notes, st, i, scr);
        lemma_step_model_lanes(notes, st, i, scr);
        lemma_bar_model_wf(notes, s.1, bar_idx, has_scratch, i + 1);
        let r = bar_model(notes, st, bar_idx, has_scratch, i);
        let rest = bar_model(notes, s.1, bar_idx, has_scratch, i + 1);
        assert forall|q: int| 0 <= q < r.0.len() implies chord_lanes_ok(#[trigger] r.0[q]) by {
            if q == 0 {
                assert(r.0[q] == s.0);
            } else {
                assert(r.0[q] == rest.0[q - 1]);
            }
        }
    }
}

/// Every chart the model describes is well-formed: 16 chords a bar, lanes
/// in range.
pub proof fn lemma_chart_model_wf(
    notes: NotesParams,
    st: GenState,
    bar_idx: int,
    bars: int,
    has_scratch: bool,
)
    ensures
        forall|b: int|
            0 <= b < bars_model(notes, st, bar_idx, bars, has_scratch).0.len()
                ==> (#[trigger] bars_model(notes, st, bar_idx, bars, has_scratch).0[b]).len()
                == CHORDS_PER_BAR,
        forall|b: int, q: int|
            0 <= b < bars_model(notes, st, bar_idx, bars, has_scratch).0.len() && 0 <= q
                < bars_model(notes, st, bar_idx, bars, has_scratch).0[b].len()
                ==> chord_lanes_ok(
                #[trigger] bars_model(notes, st, bar_idx, bars, has_scratch).0[b][q],
            ),
    decreases bars - bar_idx,
{
    if bar_idx < bars {
        let b = bar_model(notes, st, bar_idx, has_scratch, 0);
        lemma_bar_model_len(notes, st, bar_idx, has_scratch, 0);
        lemma_bar_model_wf(notes, st, bar_idx, has_scratch, 0);
        lemma_chart_model_wf(notes, b.1, bar_idx + 1, bars, has_scratch);
        let r = bars_model(notes, st, bar_idx, bars, has_scratch);
        let rest = bars_model(notes, b.1, bar_idx + 1, bars, has_scratch);
        assert forall|c: int| 0 <= c < r.0.len() implies (#[trigger] r.0[c]).len()
            == CHORDS_PER_BAR by {
            if c == 0 {
                assert(r.0[c] == b.0);
            } else {
                assert(r.0[c] == rest.0[c - 1]);
            }
        }
        assert forall|c: int, q: int| 0 <= c < r.0.len() && 0 <= q < r.0[c].len() implies
            chord_lanes_ok(#[trigger] r.0[c][q]) by {
            if c == 0 {
                assert(r.0[c] == b.0);
            } else {
                assert(r.0[c] == rest.0[c - 1]);
            }
        }
    }
}

/// The exponential-falloff weight at a whole-number bias gap: a lane whose
/// bias stands `e` whole units above the minimum weighs exactly `2^-e`.
pub proof fn lemma_weight_whole_falloff(bias: Seq<u64>, i: int, e: u64)
    requires
        0 <= i < bias.len(),
        bias[i] - seq_min(bias) == e * FP_ONE,
        e < 25,
    ensures
        weight_of(bias, i, false) == FP_ONE >> e,
{
    lemma_seq_min_le(bias, i);
    let d = (bias[i] - seq_min(bias)) as u64;
    assert(d == e * FP_ONE);
    assert(d / FP_ONE == e && d % FP_ONE == 0) by (nonlinear_arith)
        requires
            d == e * FP_ONE,
            FP_ONE > 0,
    ;
}

} // verus!
