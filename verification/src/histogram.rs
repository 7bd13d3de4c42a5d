//! Occupation histograms over (x, phi) and (x, y).

use vstd::prelude::*;
use crate::channel::Pose;
use crate::config::{HIST_PHI_BINS, HIST_X_BINS, HIST_Y_BINS, HIST_Y_MAX};
use crate::double::Double;
use crate::formula::{
    floor_of, gives, lit, minus, nat_of, neg_of, num, over, plus, times, Arithmetic, Calc, Expr,
    HALF, PI, TAU, TWO,
};

verus! {

/// The bits of 100, the bins along x.
pub const X_BINS: u64 = 0x4059_0000_0000_0000;

/// The bits of 36, the bins of the angle.
pub const PHI_BINS: u64 = 0x4042_0000_0000_0000;

/// The bits of 64, the bins of y.
pub const Y_BINS: u64 = 0x4050_0000_0000_0000;

/// The bins of a pose along x, phi and y, before they are held to the range of bins: x is folded
/// into one period, phi into one turn, and y is held to the range of the histogram.
pub open spec fn raw_bins_gives<K: Arithmetic>(k: &K, pose: Pose, bins: (u64, u64, u64)) -> bool {
    exists|x: Double, phi: Double, y: Double|
        {
            &&& #[trigger] gives(k, x_place(pose.x), x)
            &&& #[trigger] gives(k, phi_place(pose.phi), phi)
            &&& #[trigger] gives(k, y_place(held_y(pose.y)), y)
            &&& call_ensures(K::to_unsigned, (k, x), bins.0)
            &&& call_ensures(K::to_unsigned, (k, phi), bins.1)
            &&& call_ensures(K::to_unsigned, (k, y), bins.2)
        }
}

/// Where a place lies in one period, in bins.
pub open spec fn x_place(x: Double) -> Expr {
    times(minus(num(x), floor_of(num(x))), lit(X_BINS))
}

/// Where an angle lies in one turn, in bins.
pub open spec fn phi_place(phi: Double) -> Expr {
    let turns = floor_of(over(num(phi), lit(TAU)));
    times(over(minus(num(phi), times(lit(TAU), turns)), lit(TAU)), lit(PHI_BINS))
}

/// A height held to the range of the histogram.
pub open spec fn held_y(y: Double) -> Double {
    y.clamped((Double { bits: HIST_Y_MAX }).negated(), Double { bits: HIST_Y_MAX })
}

/// Where a height lies in the range of the histogram, in bins.
pub open spec fn y_place(y: Double) -> Expr {
    times(
        over(plus(num(y), lit(HIST_Y_MAX)), times(lit(TWO), lit(HIST_Y_MAX))),
        lit(Y_BINS),
    )
}

/// The bins of a pose, before they are held to the range of bins.
pub fn raw_bins<K: Arithmetic>(k: &K, pose: Pose) -> (bins: (u64, u64, u64))
    ensures
        raw_bins_gives(k, pose, bins),
{
    let c = Calc::new(k);
    let px = c.num(pose.x);
    let x = c.times(c.minus(px, c.floor_of(px)), c.lit(X_BINS)).value;
    assert(gives(k, x_place(pose.x), x));
    let tau = c.lit(TAU);
    let angle = c.num(pose.phi);
    let turns = c.floor_of(c.over(angle, tau));
    let phi = c.times(c.over(c.minus(angle, c.times(tau, turns)), tau), c.lit(PHI_BINS)).value;
    assert(gives(k, phi_place(pose.phi), phi));
    let top = Double::from_bits(HIST_Y_MAX);
    let held = pose.y.clamp(top.neg(), top);
    let span = c.times(c.lit(TWO), c.lit(HIST_Y_MAX));
    let y = c.times(c.over(c.plus(c.num(held), c.lit(HIST_Y_MAX)), span), c.lit(Y_BINS)).value;
    assert(gives(k, y_place(held_y(pose.y)), y));
    (k.to_unsigned(x), k.to_unsigned(phi), k.to_unsigned(y))
}

/// The middle of a bin along x: (bin + 1/2) / 100.
pub open spec fn x_center_of(bin: usize) -> Expr {
    over(plus(nat_of(bin as u64), lit(HALF)), lit(X_BINS))
}

/// The middle of a bin along x.
pub fn x_center<K: Arithmetic>(k: &K, bin: usize) -> (center: Double)
    ensures
        gives(k, x_center_of(bin), center),
{
    let c = Calc::new(k);
    c.over(c.plus(c.nat_of(bin as u64), c.lit(HALF)), c.lit(X_BINS)).value
}

/// The middle of a bin of the angle: (bin + 1/2) 2 pi / 36.
pub open spec fn phi_center_of(bin: usize) -> Expr {
    over(
        times(times(plus(nat_of(bin as u64), lit(HALF)), lit(TWO)), lit(PI)),
        lit(PHI_BINS),
    )
}

/// The middle of a bin of the angle.
pub fn phi_center<K: Arithmetic>(k: &K, bin: usize) -> (center: Double)
    ensures
        gives(k, phi_center_of(bin), center),
{
    let c = Calc::new(k);
    let turned = c.times(c.times(c.plus(c.nat_of(bin as u64), c.lit(HALF)), c.lit(TWO)), c.lit(PI));
    c.over(turned, c.lit(PHI_BINS)).value
}

/// The middle of a bin of y: -y_max + (bin + 1/2) 2 y_max / 64.
pub open spec fn y_center_of(bin: usize) -> Expr {
    plus(
        neg_of(lit(HIST_Y_MAX)),
        over(
            times(times(plus(nat_of(bin as u64), lit(HALF)), lit(TWO)), lit(HIST_Y_MAX)),
            lit(Y_BINS),
        ),
    )
}

/// The middle of a bin of y.
pub fn y_center<K: Arithmetic>(k: &K, bin: usize) -> (center: Double)
    ensures
        gives(k, y_center_of(bin), center),
{
    let c = Calc::new(k);
    let top = c.lit(HIST_Y_MAX);
    let raised = c.times(c.times(c.plus(c.nat_of(bin as u64), c.lit(HALF)), c.lit(TWO)), top);
    c.plus(c.neg_of(top), c.over(raised, c.lit(Y_BINS))).value
}

/// The sum of all counts.
pub open spec fn total(counts: Seq<u64>) -> nat
    decreases counts.len(),
{
    if counts.len() == 0 {
        0
    } else {
        total(counts.drop_last()) + counts.last() as nat
    }
}

/// The counts with one more vote at a place. A full counter starts over at 0.
pub open spec fn voted(counts: Seq<u64>, at: int) -> Seq<u64> {
    counts.update(at, counts[at].wrapping_add(1))
}

/// The counts of two histograms, bin by bin. A full counter starts over at 0.
pub open spec fn summed(a: Seq<u64>, b: Seq<u64>) -> Seq<u64> {
    Seq::new(a.len(), |i: int| a[i].wrapping_add(b[i]))
}

/// The nearest bin of a range.
pub open spec fn bin_in_range(raw: u64, bins: int) -> int {
    if raw < bins {
        raw as int
    } else {
        bins - 1
    }
}

proof fn lemma_total_bounds(counts: Seq<u64>, at: int)
    requires
        0 <= at < counts.len(),
    ensures
        counts[at] <= total(counts),
    decreases counts.len(),
{
    if at < counts.len() - 1 {
        lemma_total_bounds(counts.drop_last(), at);
    }
}

proof fn lemma_total_update(counts: Seq<u64>, at: int, value: u64)
    requires
        0 <= at < counts.len(),
    ensures
        total(counts.update(at, value)) == total(counts) - counts[at] + value,
    decreases counts.len(),
{
    let after = counts.update(at, value);
    if at < counts.len() - 1 {
        lemma_total_update(counts.drop_last(), at, value);
        assert(after.drop_last() =~= counts.drop_last().update(at, value));
    } else {
        assert(after.drop_last() =~= counts.drop_last());
    }
}

proof fn lemma_total_summed(a: Seq<u64>, b: Seq<u64>)
    requires
        a.len() == b.len(),
        total(a) + total(b) <= u64::MAX,
    ensures
        total(summed(a, b)) == total(a) + total(b),
        forall|i: int| 0 <= i < a.len() ==> a[i] + b[i] <= u64::MAX,
    decreases a.len(),
{
    assert forall|i: int| 0 <= i < a.len() implies a[i] + b[i] <= u64::MAX by {
        lemma_total_bounds(a, i);
        lemma_total_bounds(b, i);
    }
    if a.len() > 0 {
        lemma_total_summed(a.drop_last(), b.drop_last());
        assert(summed(a, b).drop_last() =~= summed(a.drop_last(), b.drop_last()));
        assert(a[a.len() - 1] + b[a.len() - 1] <= u64::MAX);
    }
}

proof fn lemma_total_of_zeros(counts: Seq<u64>)
    requires
        forall|i: int| 0 <= i < counts.len() ==> counts[i] == 0,
    ensures
        total(counts) == 0,
    decreases counts.len(),
{
    if counts.len() > 0 {
        lemma_total_of_zeros(counts.drop_last());
    }
}

/// The sum of the counts in one bin along x, over the `bins` bins of the second axis.
pub open spec fn column(counts: Seq<u64>, x_bin: int, bins: int) -> nat {
    total(counts.subrange(x_bin * bins, x_bin * bins + bins))
}

proof fn lemma_column_bounds(x_bins: int, x_bin: int, bins: int)
    requires
        0 <= x_bin < x_bins,
        0 < bins,
    ensures
        0 <= x_bin * bins,
        x_bin * bins + bins <= x_bins * bins,
{
    assert(0 <= x_bin * bins && x_bin * bins + bins <= x_bins * bins) by (nonlinear_arith)
        requires
            0 <= x_bin < x_bins,
            0 < bins,
    ;
}

/// A change at one place changes the sum of its column alone.
proof fn lemma_column_update(
    counts: Seq<u64>,
    x_bins: int,
    bins: int,
    at_x: int,
    at_bin: int,
    value: u64,
    x_bin: int,
)
    requires
        0 < bins,
        counts.len() == x_bins * bins,
        0 <= at_x < x_bins,
        0 <= at_bin < bins,
        0 <= x_bin < x_bins,
    ensures
        column(counts.update(at_x * bins + at_bin, value), x_bin, bins) == column(
            counts,
            x_bin,
            bins,
        ) + if x_bin == at_x {
            value - counts[at_x * bins + at_bin]
        } else {
            0
        },
{
    let at = at_x * bins + at_bin;
    let from = x_bin * bins;
    lemma_column_bounds(x_bins, x_bin, bins);
    lemma_column_bounds(x_bins, at_x, bins);
    let part = counts.subrange(from, from + bins);
    let changed = counts.update(at, value).subrange(from, from + bins);
    if x_bin == at_x {
        assert(changed =~= part.update(at_bin, value));
        lemma_total_update(part, at_bin, value);
    } else {
        assert(at < from || from + bins <= at) by (nonlinear_arith)
            requires
                x_bin != at_x,
                at == at_x * bins + at_bin,
                from == x_bin * bins,
                0 <= at_bin < bins,
        ;
        assert(changed =~= part);
    }
}

proof fn lemma_column_total(counts: Seq<u64>, from: int, to: int)
    requires
        0 <= from <= to <= counts.len(),
    ensures
        total(counts.subrange(from, to)) <= total(counts),
    decreases counts.len(),
{
    if counts.len() > 0 {
        let part = counts.subrange(from, to);
        if to == counts.len() && from < to {
            lemma_column_total(counts.drop_last(), from, to - 1);
            assert(part.drop_last() =~= counts.drop_last().subrange(from, to - 1));
        } else if from < to {
            lemma_column_total(counts.drop_last(), from, to);
            assert(part =~= counts.drop_last().subrange(from, to));
        }
    }
}

proof fn lemma_column_summed(a: Seq<u64>, b: Seq<u64>, x_bins: int, bins: int, x_bin: int)
    requires
        0 < bins,
        a.len() == x_bins * bins,
        b.len() == a.len(),
        total(a) + total(b) <= u64::MAX,
        0 <= x_bin < x_bins,
    ensures
        column(summed(a, b), x_bin, bins) == column(a, x_bin, bins) + column(b, x_bin, bins),
{
    lemma_column_bounds(x_bins, x_bin, bins);
    let from = x_bin * bins;
    lemma_column_total(a, from, from + bins);
    lemma_column_total(b, from, from + bins);
    lemma_total_summed(a.subrange(from, from + bins), b.subrange(from, from + bins));
    assert(summed(a, b).subrange(from, from + bins) =~= summed(
        a.subrange(from, from + bins),
        b.subrange(from, from + bins),
    ));
}

/// The two histograms of a case, flattened with x as the slow index.
#[derive(Clone, Debug)]
pub struct Histograms {
    pub phi: Vec<u64>,
    pub y: Vec<u64>,
    /// How many poses were counted.
    pub votes: u64,
}

impl Histograms {
    /// Both histograms have their full size.
    pub open spec fn well_formed(self) -> bool {
        &&& self.phi.len() == HIST_X_BINS * HIST_PHI_BINS
        &&& self.y.len() == HIST_X_BINS * HIST_Y_BINS
    }

    /// Whether there is no vote.
    pub open spec fn empty(self) -> bool {
        &&& self.well_formed()
        &&& self.votes == 0
        &&& forall|i: int| 0 <= i < self.phi.len() ==> self.phi@[i] == 0
        &&& forall|i: int| 0 <= i < self.y.len() ==> self.y@[i] == 0
    }

    /// Whether each histogram holds every vote once.
    pub open spec fn holds_votes(self) -> bool {
        &&& total(self.phi@) == self.votes
        &&& total(self.y@) == self.votes
    }

    /// Whether both histograms hold as many votes in each bin along x: each pose is counted once at
    /// its angle and once at its height.
    pub open spec fn columns_agree(self) -> bool {
        forall|x_bin: int|
            0 <= x_bin < HIST_X_BINS ==> #[trigger] column(self.phi@, x_bin, HIST_PHI_BINS as int)
                == column(self.y@, x_bin, HIST_Y_BINS as int)
    }

    /// Whether `after` holds one more vote, for bins as an implementation gave them.
    pub open spec fn counted(self, bins: (u64, u64, u64), after: Histograms) -> bool {
        let x_bin = bin_in_range(bins.0, HIST_X_BINS as int);
        &&& after.phi@ == voted(
            self.phi@,
            x_bin * HIST_PHI_BINS + bin_in_range(bins.1, HIST_PHI_BINS as int),
        )
        &&& after.y@ == voted(
            self.y@,
            x_bin * HIST_Y_BINS + bin_in_range(bins.2, HIST_Y_BINS as int),
        )
        &&& after.votes == self.votes.wrapping_add(1)
    }

    /// Whether `after` holds one more vote, for the bins of a pose.
    pub open spec fn counted_pose<K: Arithmetic>(self, k: &K, pose: Pose, after: Histograms) -> bool {
        exists|bins: (u64, u64, u64)|
            #[trigger] raw_bins_gives(k, pose, bins) && self.counted(bins, after)
    }

    /// Empty histograms.
    pub fn new() -> (h: Histograms)
        ensures
            h.empty(),
    {
        let phi = zeros(HIST_X_BINS * HIST_PHI_BINS);
        let y = zeros(HIST_X_BINS * HIST_Y_BINS);
        Histograms { phi, y, votes: 0 }
    }

    /// Counts a pose in the bins given, each held to its range.
    pub fn count(&mut self, bins: (u64, u64, u64))
        requires
            old(self).well_formed(),
        ensures
            final(self).well_formed(),
            old(self).counted(bins, *final(self)),
    {
        let x_bin: usize = hold(bins.0, HIST_X_BINS);
        let phi_bin: usize = hold(bins.1, HIST_PHI_BINS);
        let y_bin: usize = hold(bins.2, HIST_Y_BINS);
        let phi_at: usize = x_bin * HIST_PHI_BINS + phi_bin;
        let y_at: usize = x_bin * HIST_Y_BINS + y_bin;
        let phi_count: u64 = self.phi[phi_at].wrapping_add(1);
        let y_count: u64 = self.y[y_at].wrapping_add(1);
        self.phi.set(phi_at, phi_count);
        self.y.set(y_at, y_count);
        self.votes = self.votes.wrapping_add(1);
    }

    /// Counts a pose.
    pub fn accumulate_histograms<K: Arithmetic>(&mut self, k: &K, pose: Pose)
        requires
            old(self).well_formed(),
        ensures
            final(self).well_formed(),
            old(self).counted_pose(k, pose, *final(self)),
    {
        let bins = raw_bins(k, pose);
        assert(raw_bins_gives(k, pose, bins));
        self.count(bins);
    }

    /// Adds the counts of another pair of histograms.
    pub fn merge(&mut self, other: &Histograms)
        requires
            old(self).well_formed(),
            other.well_formed(),
        ensures
            final(self).well_formed(),
            final(self).phi@ == summed(old(self).phi@, other.phi@),
            final(self).y@ == summed(old(self).y@, other.y@),
            final(self).votes == old(self).votes.wrapping_add(other.votes),
    {
        add_counts(&mut self.phi, &other.phi);
        add_counts(&mut self.y, &other.y);
        self.votes = self.votes.wrapping_add(other.votes);
    }
}

fn zeros(len: usize) -> (v: Vec<u64>)
    ensures
        v.len() == len,
        forall|i: int| 0 <= i < len ==> v@[i] == 0,
{
    let mut v: Vec<u64> = Vec::new();
    while v.len() < len
        invariant
            v.len() <= len,
            forall|i: int| 0 <= i < v.len() ==> v@[i] == 0,
        decreases len - v.len(),
    {
        v.push(0);
    }
    v
}

fn hold(raw: u64, bins: usize) -> (bin: usize)
    requires
        bins > 0,
    ensures
        bin == bin_in_range(raw, bins as int),
        bin < bins,
{
    if raw < bins as u64 {
        raw as usize
    } else {
        bins - 1
    }
}

fn add_counts(into: &mut Vec<u64>, from: &Vec<u64>)
    requires
        old(into).len() == from.len(),
    ensures
        final(into)@ == summed(old(into)@, from@),
{
    let mut i: usize = 0;
    let ghost before = into@;
    while i < from.len()
        invariant
            i <= from.len(),
            before.len() == from.len(),
            into@.len() == from.len(),
            forall|j: int| 0 <= j < i ==> into@[j] == before[j].wrapping_add(from@[j]),
            forall|j: int| i <= j < from.len() ==> into@[j] == before[j],
        decreases from.len() - i,
    {
        assert(into@[i as int] == before[i as int]);
        let sum: u64 = into[i].wrapping_add(from[i]);
        into.set(i, sum);
        i = i + 1;
    }
    assert(into@ =~= summed(before, from@));
}

/// Whether a step is one that the histograms record: every `stride`-th one, and none when the
/// stride is 0.
pub open spec fn vote_due(steps: u64, stride: u32) -> bool {
    stride > 0 && steps as int % stride as int == 0
}

/// Whether the histograms record a step.
pub fn records_step(steps: u64, stride: u32) -> (b: bool)
    ensures
        b == vote_due(steps, stride),
{
    stride > 0 && steps % (stride as u64) == 0
}

/// Merging depends neither on the order nor on the grouping of the parts.
pub proof fn law_merge_is_commutative(a: Seq<u64>, b: Seq<u64>, c: Seq<u64>)
    requires
        a.len() == b.len() == c.len(),
    ensures
        summed(a, b) == summed(b, a),
        summed(summed(a, b), c) == summed(a, summed(b, c)),
{
    assert(summed(a, b) =~= summed(b, a));
    assert(summed(summed(a, b), c) =~= summed(a, summed(b, c)));
}

/// Histograms that hold every vote once still do with one more vote, as long as the votes fit into
/// a counter.
pub proof fn law_votes_are_counted_once(before: Histograms, bins: (u64, u64, u64), after: Histograms)
    requires
        before.well_formed(),
        before.holds_votes(),
        before.votes < u64::MAX,
        before.counted(bins, after),
    ensures
        after.holds_votes(),
        after.votes == before.votes + 1,
{
    let x_bin = bin_in_range(bins.0, HIST_X_BINS as int);
    let phi_at = x_bin * HIST_PHI_BINS + bin_in_range(bins.1, HIST_PHI_BINS as int);
    let y_at = x_bin * HIST_Y_BINS + bin_in_range(bins.2, HIST_Y_BINS as int);
    lemma_total_bounds(before.phi@, phi_at);
    lemma_total_bounds(before.y@, y_at);
    lemma_total_update(before.phi@, phi_at, (before.phi@[phi_at] + 1) as u64);
    lemma_total_update(before.y@, y_at, (before.y@[y_at] + 1) as u64);
}

/// A vote adds one to the sum of its bin along x, in both histograms, and nothing to any other; so
/// the sums of both go on to agree. The votes have to fit into a counter.
pub proof fn law_columns_agree(before: Histograms, bins: (u64, u64, u64), after: Histograms)
    requires
        before.well_formed(),
        before.holds_votes(),
        before.votes < u64::MAX,
        before.counted(bins, after),
    ensures
        forall|x_bin: int|
            #![trigger column(after.phi@, x_bin, HIST_PHI_BINS as int)]
            #![trigger column(after.y@, x_bin, HIST_Y_BINS as int)]
            0 <= x_bin < HIST_X_BINS ==> {
                let vote = if x_bin == bin_in_range(bins.0, HIST_X_BINS as int) {
                    1int
                } else {
                    0
                };
                &&& column(after.phi@, x_bin, HIST_PHI_BINS as int) == column(
                    before.phi@,
                    x_bin,
                    HIST_PHI_BINS as int,
                ) + vote
                &&& column(after.y@, x_bin, HIST_Y_BINS as int) == column(
                    before.y@,
                    x_bin,
                    HIST_Y_BINS as int,
                ) + vote
            },
        before.columns_agree() ==> after.columns_agree(),
{
    let at_x = bin_in_range(bins.0, HIST_X_BINS as int);
    let phi_bin = bin_in_range(bins.1, HIST_PHI_BINS as int);
    let y_bin = bin_in_range(bins.2, HIST_Y_BINS as int);
    let phi_at = at_x * HIST_PHI_BINS + phi_bin;
    let y_at = at_x * HIST_Y_BINS + y_bin;
    lemma_total_bounds(before.phi@, phi_at);
    lemma_total_bounds(before.y@, y_at);
    let vote = |x_bin: int|
        if x_bin == at_x {
            1int
        } else {
            0
        };
    assert forall|x_bin: int| 0 <= x_bin < HIST_X_BINS implies #[trigger] column(
        after.phi@,
        x_bin,
        HIST_PHI_BINS as int,
    ) == column(before.phi@, x_bin, HIST_PHI_BINS as int) + vote(x_bin) by {
        lemma_column_update(
            before.phi@,
            HIST_X_BINS as int,
            HIST_PHI_BINS as int,
            at_x,
            phi_bin,
            (before.phi@[phi_at] + 1) as u64,
            x_bin,
        );
    }
    assert forall|x_bin: int| 0 <= x_bin < HIST_X_BINS implies #[trigger] column(
        after.y@,
        x_bin,
        HIST_Y_BINS as int,
    ) == column(before.y@, x_bin, HIST_Y_BINS as int) + vote(x_bin) by {
        lemma_column_update(
            before.y@,
            HIST_X_BINS as int,
            HIST_Y_BINS as int,
            at_x,
            y_bin,
            (before.y@[y_at] + 1) as u64,
            x_bin,
        );
    }
    assert(before.columns_agree() ==> after.columns_agree()) by {
        if before.columns_agree() {
            assert forall|x_bin: int| 0 <= x_bin < HIST_X_BINS implies #[trigger] column(
                after.phi@,
                x_bin,
                HIST_PHI_BINS as int,
            ) == column(after.y@, x_bin, HIST_Y_BINS as int) by {
                assert(column(before.phi@, x_bin, HIST_PHI_BINS as int) == column(
                    before.y@,
                    x_bin,
                    HIST_Y_BINS as int,
                ));
            }
        }
    }
}

/// Merged histograms hold as many votes as each other in each bin along x where both parts do, as
/// long as the votes fit into a counter.
pub proof fn law_merge_keeps_columns(a: Histograms, b: Histograms, both: Histograms)
    requires
        a.well_formed(),
        b.well_formed(),
        a.holds_votes(),
        b.holds_votes(),
        a.columns_agree(),
        b.columns_agree(),
        a.votes + b.votes <= u64::MAX,
        both.phi@ == summed(a.phi@, b.phi@),
        both.y@ == summed(a.y@, b.y@),
    ensures
        both.columns_agree(),
{
    assert forall|x_bin: int| 0 <= x_bin < HIST_X_BINS implies #[trigger] column(
        both.phi@,
        x_bin,
        HIST_PHI_BINS as int,
    ) == column(both.y@, x_bin, HIST_Y_BINS as int) by {
        lemma_column_summed(a.phi@, b.phi@, HIST_X_BINS as int, HIST_PHI_BINS as int, x_bin);
        lemma_column_summed(a.y@, b.y@, HIST_X_BINS as int, HIST_Y_BINS as int, x_bin);
        assert(column(a.phi@, x_bin, HIST_PHI_BINS as int) == column(
            a.y@,
            x_bin,
            HIST_Y_BINS as int,
        ));
        assert(column(b.phi@, x_bin, HIST_PHI_BINS as int) == column(
            b.y@,
            x_bin,
            HIST_Y_BINS as int,
        ));
    }
}

/// Merged histograms hold every vote of both parts once, as long as the votes fit into a
/// counter.
pub proof fn law_merge_keeps_votes(a: Histograms, b: Histograms, both: Histograms)
    requires
        a.well_formed(),
        b.well_formed(),
        a.holds_votes(),
        b.holds_votes(),
        a.votes + b.votes <= u64::MAX,
        both.phi@ == summed(a.phi@, b.phi@),
        both.y@ == summed(a.y@, b.y@),
        both.votes == a.votes.wrapping_add(b.votes),
    ensures
        both.holds_votes(),
        both.votes == a.votes + b.votes,
{
    lemma_total_summed(a.phi@, b.phi@);
    lemma_total_summed(a.y@, b.y@);
}

/// Empty histograms hold every vote once, and as many in each bin along x: there is none.
pub proof fn law_empty_holds_votes(h: Histograms)
    requires
        h.empty(),
    ensures
        h.holds_votes(),
        h.columns_agree(),
{
    lemma_total_of_zeros(h.phi@);
    lemma_total_of_zeros(h.y@);
    assert forall|x_bin: int| 0 <= x_bin < HIST_X_BINS implies #[trigger] column(
        h.phi@,
        x_bin,
        HIST_PHI_BINS as int,
    ) == column(h.y@, x_bin, HIST_Y_BINS as int) by {
        lemma_column_bounds(HIST_X_BINS as int, x_bin, HIST_PHI_BINS as int);
        lemma_column_bounds(HIST_X_BINS as int, x_bin, HIST_Y_BINS as int);
        let phi_from = x_bin * HIST_PHI_BINS;
        let y_from = x_bin * HIST_Y_BINS;
        lemma_total_of_zeros(h.phi@.subrange(phi_from, phi_from + HIST_PHI_BINS));
        lemma_total_of_zeros(h.y@.subrange(y_from, y_from + HIST_Y_BINS));
    }
}

/// A line of a histogram table.
#[derive(Clone, Copy, Debug, PartialEq, Eq, Structural)]
pub struct HistogramRow {
    pub x_bin: usize,
    pub value_bin: usize,
    pub count: u64,
}

/// The lines of a histogram table: for each bin along x, the bins of the second axis in order.
pub fn histogram_rows(counts: &Vec<u64>, value_bins: usize) -> (rows: Vec<HistogramRow>)
    requires
        counts.len() >= HIST_X_BINS * value_bins,
    ensures
        rows.len() == HIST_X_BINS * value_bins,
        forall|i: int|
            0 <= i < rows.len() ==> {
                &&& (#[trigger] rows@[i]).x_bin as int == i / value_bins as int
                &&& rows@[i].value_bin as int == i % value_bins as int
                &&& rows@[i].count == counts@[i]
            },
{
    let len: usize = HIST_X_BINS * value_bins;
    let mut rows: Vec<HistogramRow> = Vec::new();
    let mut x_bin: usize = 0;
    let mut value_bin: usize = 0;
    let mut at: usize = 0;
    assert(value_bins > 0 ==> 0int / value_bins as int == 0 && 0int % value_bins as int == 0) by {
        if value_bins > 0 {
            vstd::arithmetic::div_mod::lemma_small_mod(0, value_bins as nat);
            vstd::arithmetic::div_mod::lemma_basic_div(0, value_bins as int);
        }
    }
    while at < len
        invariant
            len == HIST_X_BINS * value_bins,
            len <= counts.len(),
            at <= len,
            rows.len() == at,
            value_bins > 0 ==> {
                &&& value_bin < value_bins
                &&& at == x_bin * value_bins + value_bin
            },
            forall|i: int|
                0 <= i < at ==> {
                    &&& (#[trigger] rows@[i]).x_bin as int == i / value_bins as int
                    &&& rows@[i].value_bin as int == i % value_bins as int
                    &&& rows@[i].count == counts@[i]
                },
        decreases len - at,
    {
        assert(value_bins > 0);
        proof {
            vstd::arithmetic::div_mod::lemma_fundamental_div_mod_converse(
                at as int,
                value_bins as int,
                x_bin as int,
                value_bin as int,
            );
            assert(x_bin * value_bins + value_bin + 1 == (x_bin + 1) * value_bins + (value_bin + 1
                - value_bins)) by (nonlinear_arith);
            assert(x_bin <= at) by (nonlinear_arith)
                requires
                    at == x_bin * value_bins + value_bin,
                    value_bins >= 1,
                    value_bin >= 0,
                    x_bin >= 0,
            ;
        }
        rows.push(HistogramRow { x_bin, value_bin, count: counts[at] });
        value_bin = value_bin + 1;
        if value_bin == value_bins {
            value_bin = 0;
            x_bin = x_bin + 1;
        }
        at = at + 1;
    }
    rows
}

} // verus!
