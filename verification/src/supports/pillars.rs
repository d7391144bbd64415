//! Pillar placement: which grid samples under the overhang regions become
//! pillars, without two pillars on the same grid spot.

use std::collections::HashSet;

use vstd::prelude::*;

use crate::supports::overhangs::lemma_key_split;

verus! {

broadcast use vstd::std_specs::hash::group_hash_axioms;

/// A grid position under an overhang region where a pillar may stand, with
/// what the geometry found above it.
#[derive(Clone, Copy, Debug)]
pub struct PillarSample {
    /// The position on the sampling grid, in thousandths of a unit.
    pub key: (i32, i32),
    /// A contact point on the region lies above this position, higher than
    /// the pillar's tip is long.
    pub usable: bool,
}

/// The samples taken under one overhang region, in sampling order, and
/// whether the region's centroid is high enough to carry a pillar.
#[derive(Debug)]
pub struct RegionSamples {
    pub samples: Vec<PillarSample>,
    pub centroid_usable: bool,
}

/// Where a pillar goes: at a sample of a region, or at the region's
/// centroid.
#[derive(Clone, Copy, Debug, PartialEq, Eq, Structural)]
pub enum PillarPick {
    Sample { region: usize, sample: usize },
    Centroid { region: usize },
}

pub type GridKey = (i32, i32);

/// The picks made among the samples of region `r`, in order, and the grid
/// keys taken after them: a usable sample is picked unless its key is
/// already taken.
pub open spec fn sample_picks(r: int, samples: Seq<PillarSample>, taken: Set<GridKey>) -> (Seq<PillarPick>, Set<GridKey>)
    decreases samples.len(),
{
    if samples.len() == 0 {
        (Seq::empty(), taken)
    } else {
        let before = sample_picks(r, samples.drop_last(), taken);
        let k = samples.len() - 1;
        let sample = samples.last();
        if sample.usable && !before.1.contains(sample.key) {
            (
                before.0.push(PillarPick::Sample { region: r as usize, sample: k as usize }),
                before.1.insert(sample.key),
            )
        } else {
            before
        }
    }
}

/// The picks for all regions, in order, and the grid keys taken: each
/// region takes its sample picks, and when it gets none, its centroid if
/// that is usable. Keys are shared across regions.
pub open spec fn pillar_plan(regions: Seq<RegionSamples>) -> (Seq<PillarPick>, Set<GridKey>)
    decreases regions.len(),
{
    if regions.len() == 0 {
        (Seq::empty(), Set::empty())
    } else {
        let before = pillar_plan(regions.drop_last());
        let r = regions.len() - 1;
        let own = sample_picks(r, regions.last().samples@, before.1);
        let fallback = if own.0.len() == 0 && regions.last().centroid_usable {
            seq![PillarPick::Centroid { region: r as usize }]
        } else {
            Seq::empty()
        };
        (before.0 + own.0 + fallback, own.1)
    }
}

/// The number filed in the set of taken keys for a grid key.
spec fn key_code(key: GridKey) -> int {
    (key.0 + 0x8000_0000) * 0x1_0000_0000 + (key.1 + 0x8000_0000)
}

proof fn lemma_key_code(a: GridKey, b: GridKey)
    ensures
        0 <= key_code(a) <= u64::MAX,
        (key_code(a) == key_code(b)) <==> (a == b),
{
    let hi = a.0 + 0x8000_0000;
    assert(0 <= hi * 0x1_0000_0000 <= 0xffff_ffff * 0x1_0000_0000) by (nonlinear_arith)
        requires
            0 <= hi <= 0xffff_ffff,
    ;
    if key_code(a) == key_code(b) {
        lemma_key_split(a.0 + 0x8000_0000, a.1 + 0x8000_0000, b.0 + 0x8000_0000, b.1 + 0x8000_0000);
    }
}

fn exec_key_code(key: GridKey) -> (code: u64)
    ensures
        code == key_code(key),
{
    proof {
        lemma_key_code(key, key);
    }
    let hi = (key.0 as i64 + 0x8000_0000) as u64;
    let lo = (key.1 as i64 + 0x8000_0000) as u64;
    assert(hi * 0x1_0000_0000 <= 0xffff_ffff * 0x1_0000_0000) by (nonlinear_arith)
        requires
            hi <= 0xffff_ffff,
    ;
    hi * 0x1_0000_0000 + lo
}

/// The set of filed codes holds exactly the codes of the taken keys.
spec fn codes_match(codes: Set<u64>, taken: Set<GridKey>) -> bool {
    &&& forall|key: GridKey| #[trigger] taken.contains(key) ==> codes.contains(key_code(key) as u64)
    &&& forall|c: u64| #[trigger] codes.contains(c) ==> exists|key: GridKey| taken.contains(key) && key_code(key) == c
}

/// Chooses where the pillars under the overhang regions go: for each region
/// in order, each usable sample whose grid key no earlier pillar took; a
/// region that gets no sample pillar gets one at its centroid when the
/// centroid is high enough.
pub fn plan_pillar_supports(regions: &[RegionSamples]) -> (picks: Vec<PillarPick>)
    ensures
        picks@ == pillar_plan(regions@).0,
{
    let mut picks: Vec<PillarPick> = Vec::new();
    let mut seen: HashSet<u64> = HashSet::new();
    let ghost mut taken: Set<GridKey> = Set::empty();
    let mut r: usize = 0;
    while r < regions.len()
        invariant
            0 <= r <= regions.len(),
            (picks@, taken) == pillar_plan(regions@.take(r as int)),
            codes_match(seen@, taken),
        decreases regions.len() - r,
    {
        let region = &regions[r];
        let existing = picks.len();
        let ghost base = picks@;
        let ghost taken0 = taken;
        let mut i: usize = 0;
        while i < region.samples.len()
            invariant
                0 <= i <= region.samples.len(),
                base.len() == existing,
                (picks@.skip(existing as int), taken) == sample_picks(
                    r as int,
                    region.samples@.take(i as int),
                    taken0,
                ),
                picks@.take(existing as int) == base,
                picks@.len() >= existing,
                codes_match(seen@, taken),
            decreases region.samples.len() - i,
        {
            let sample = region.samples[i];
            assert(region.samples@.take(i + 1).drop_last() == region.samples@.take(i as int));
            if sample.usable {
                let code = exec_key_code(sample.key);
                let ghost seen0 = seen@;
                let fresh = seen.insert(code);
                proof {
                    assert(fresh == !taken.contains(sample.key)) by {
                        if taken.contains(sample.key) {
                            assert(seen0.contains(key_code(sample.key) as u64));
                        }
                        if seen0.contains(code) {
                            let key = choose|key: GridKey| taken.contains(key) && key_code(key) == code;
                            lemma_key_code(key, sample.key);
                        }
                    }
                }
                if fresh {
                    let ghost p0 = picks@;
                    picks.push(PillarPick::Sample { region: r, sample: i });
                    proof {
                        taken = taken.insert(sample.key);
                        assert(picks@.skip(existing as int) == p0.skip(existing as int).push(
                            PillarPick::Sample { region: r, sample: i },
                        ));
                        assert(picks@.take(existing as int) == p0.take(existing as int));
                        assert forall|c: u64| #[trigger] seen@.contains(c) implies exists|key: GridKey|
                            taken.contains(key) && key_code(key) == c by {
                            if c != code {
                                let key = choose|key: GridKey|
                                    taken0.contains(key) && key_code(key) == c || taken.contains(key)
                                        && key_code(key) == c;
                            }
                        }
                    }
                }
            }
            i += 1;
        }
        assert(region.samples@.take(region.samples.len() as int) == region.samples@);
        let ghost own = sample_picks(r as int, region.samples@, taken0);
        if picks.len() == existing && region.centroid_usable {
            picks.push(PillarPick::Centroid { region: r });
        }
        proof {
            assert(regions@.take(r + 1).drop_last() == regions@.take(r as int));
            assert(regions@.take(r + 1).last() == *region);
            assert(picks@ =~= base + pillar_plan(regions@.take(r + 1)).0.skip(existing as int));
        }
        r += 1;
    }
    assert(regions@.take(regions.len() as int) == regions@);
    picks
}

/// The region a pick belongs to.
pub open spec fn pick_region(pick: PillarPick) -> int {
    match pick {
        PillarPick::Sample { region, .. } => region as int,
        PillarPick::Centroid { region } => region as int,
    }
}

/// The index of the sample a pick stands on (-1 for a centroid pick).
pub open spec fn pick_sample_index(pick: PillarPick) -> int {
    match pick {
        PillarPick::Sample { sample, .. } => sample as int,
        PillarPick::Centroid { .. } => -1,
    }
}

/// Facts about the picks `p` among the samples of region `r` made with the
/// keys `taken` already taken, ending with the keys `t` taken.
spec fn sample_picks_ok(
    r: int,
    samples: Seq<PillarSample>,
    taken: Set<GridKey>,
    p: Seq<PillarPick>,
    t: Set<GridKey>,
) -> bool {
    &&& forall|i: int|
        0 <= i < p.len() ==> {
            &&& (#[trigger] p[i]) is Sample
            &&& pick_region(p[i]) == r
            &&& 0 <= pick_sample_index(p[i]) < samples.len()
            &&& samples[pick_sample_index(p[i])].usable
            &&& !taken.contains(samples[pick_sample_index(p[i])].key)
        }
    &&& forall|i: int, j: int|
        0 <= i < j < p.len() ==> samples[pick_sample_index(#[trigger] p[i])].key
            != samples[pick_sample_index(#[trigger] p[j])].key
    &&& forall|key: GridKey|
        #[trigger] t.contains(key) <==> (taken.contains(key) || exists|i: int|
            0 <= i < p.len() && samples[pick_sample_index(#[trigger] p[i])].key == key)
}

proof fn lemma_sample_picks(r: int, samples: Seq<PillarSample>, taken: Set<GridKey>)
    requires
        0 <= r <= usize::MAX,
        samples.len() <= usize::MAX + 1,
    ensures
        sample_picks_ok(
            r,
            samples,
            taken,
            sample_picks(r, samples, taken).0,
            sample_picks(r, samples, taken).1,
        ),
    decreases samples.len(),
{
    if samples.len() > 0 {
        let prev = samples.drop_last();
        lemma_sample_picks(r, prev, taken);
        let (p0, t0) = sample_picks(r, prev, taken);
        let (p, t) = sample_picks(r, samples, taken);
        let k = samples.len() - 1;
        let sample = samples.last();
        assert forall|i: int| 0 <= i < p0.len() implies samples[pick_sample_index(#[trigger] p0[i])]
            == prev[pick_sample_index(p0[i])] by {}
        if sample.usable && !t0.contains(sample.key) {
            let new_pick = PillarPick::Sample { region: r as usize, sample: k as usize };
            assert(p == p0.push(new_pick));
            assert(pick_sample_index(new_pick) == k);
            assert forall|i: int| 0 <= i < p0.len() implies samples[pick_sample_index(
                #[trigger] p0[i],
            )].key != sample.key by {
                assert(t0.contains(prev[pick_sample_index(p0[i])].key));
            }
            assert forall|key: GridKey| #[trigger] t.contains(key) <==> (taken.contains(key)
                || exists|i: int| 0 <= i < p.len() && samples[pick_sample_index(#[trigger] p[i])].key == key) by {
                if t0.contains(key) && !taken.contains(key) {
                    let i = choose|i: int|
                        0 <= i < p0.len() && prev[pick_sample_index(#[trigger] p0[i])].key == key;
                    assert(p[i] == p0[i]);
                }
                if key == sample.key {
                    assert(p[p0.len() as int] == new_pick);
                }
                if exists|i: int| 0 <= i < p.len() && samples[pick_sample_index(#[trigger] p[i])].key == key {
                    let i = choose|i: int|
                        0 <= i < p.len() && samples[pick_sample_index(#[trigger] p[i])].key == key;
                    if i < p0.len() {
                        assert(p0[i] == p[i]);
                    }
                }
            }
        } else {
            assert forall|key: GridKey| #[trigger] t.contains(key) <==> (taken.contains(key)
                || exists|i: int| 0 <= i < p.len() && samples[pick_sample_index(#[trigger] p[i])].key == key) by {
                if t0.contains(key) && !taken.contains(key) {
                    let i = choose|i: int|
                        0 <= i < p0.len() && prev[pick_sample_index(#[trigger] p0[i])].key == key;
                }
            }
        }
    }
}

/// The grid key of the sample a pick stands on.
pub open spec fn pick_key(regions: Seq<RegionSamples>, pick: PillarPick) -> GridKey {
    regions[pick_region(pick)].samples@[pick_sample_index(pick)].key
}

/// Slices whose lengths fit in memory.
pub open spec fn regions_fit(regions: Seq<RegionSamples>) -> bool {
    &&& regions.len() <= usize::MAX
    &&& forall|r: int| 0 <= r < regions.len() ==> #[trigger] regions[r].samples@.len() <= usize::MAX
}

/// Facts about the whole plan `p` with the keys `t` taken.
spec fn plan_ok(regions: Seq<RegionSamples>, p: Seq<PillarPick>, t: Set<GridKey>) -> bool {
    &&& forall|i: int|
        0 <= i < p.len() ==> {
            &&& 0 <= pick_region(#[trigger] p[i]) < regions.len()
            &&& p[i] is Sample ==> 0 <= pick_sample_index(p[i]) < regions[pick_region(
                p[i],
            )].samples@.len() && regions[pick_region(p[i])].samples@[pick_sample_index(p[i])].usable
            &&& p[i] is Centroid ==> regions[pick_region(p[i])].centroid_usable
        }
    &&& forall|i: int, j: int|
        0 <= i < j < p.len() ==> pick_region(#[trigger] p[i]) <= pick_region(#[trigger] p[j])
    &&& forall|i: int, j: int|
        0 <= i < j < p.len() && p[i] is Sample && p[j] is Sample ==> pick_key(regions, #[trigger] p[i])
            != pick_key(regions, #[trigger] p[j])
    &&& forall|key: GridKey|
        #[trigger] t.contains(key) <==> exists|i: int|
            0 <= i < p.len() && p[i] is Sample && pick_key(regions, #[trigger] p[i]) == key
    &&& forall|r: int|
        0 <= r < regions.len() && #[trigger] regions[r].centroid_usable ==> exists|i: int|
            0 <= i < p.len() && pick_region(#[trigger] p[i]) == r
}

proof fn lemma_plan(regions: Seq<RegionSamples>)
    requires
        regions_fit(regions),
    ensures
        plan_ok(regions, pillar_plan(regions).0, pillar_plan(regions).1),
    decreases regions.len(),
{
    if regions.len() > 0 {
        let prev = regions.drop_last();
        lemma_plan(prev);
        let r = regions.len() - 1;
        let (p0, t0) = pillar_plan(prev);
        let samples = regions.last().samples@;
        lemma_sample_picks(r, samples, t0);
        let (own, t1) = sample_picks(r, samples, t0);
        let (p, t) = pillar_plan(regions);
        let fallback = if own.len() == 0 && regions.last().centroid_usable {
            seq![PillarPick::Centroid { region: r as usize }]
        } else {
            Seq::empty()
        };
        assert(p == p0 + own + fallback);
        assert forall|i: int| 0 <= i < p0.len() implies pick_key(regions, #[trigger] p0[i]) == pick_key(
            prev,
            p0[i],
        ) && regions[pick_region(p0[i])] == prev[pick_region(p0[i])] by {}
        assert forall|i: int| 0 <= i < own.len() implies pick_key(regions, #[trigger] own[i])
            == samples[pick_sample_index(own[i])].key by {}
        assert forall|i: int| 0 <= i < p.len() implies {
            &&& 0 <= pick_region(#[trigger] p[i]) < regions.len()
            &&& p[i] is Sample ==> 0 <= pick_sample_index(p[i]) < regions[pick_region(
                p[i],
            )].samples@.len() && regions[pick_region(p[i])].samples@[pick_sample_index(p[i])].usable
            &&& p[i] is Centroid ==> regions[pick_region(p[i])].centroid_usable
        } by {
            if i < p0.len() {
                assert(p[i] == p0[i]);
            } else if i < p0.len() + own.len() {
                assert(p[i] == own[i - p0.len()]);
            } else {
                assert(p[i] == fallback[i - p0.len() - own.len()]);
            }
        }
        assert forall|i: int, j: int| 0 <= i < j < p.len() implies pick_region(#[trigger] p[i])
            <= pick_region(#[trigger] p[j]) by {
            if j < p0.len() {
                assert(p[i] == p0[i] && p[j] == p0[j]);
            } else if i < p0.len() {
                assert(p[i] == p0[i]);
                if j < p0.len() + own.len() {
                    assert(p[j] == own[j - p0.len()]);
                } else {
                    assert(p[j] == fallback[j - p0.len() - own.len()]);
                }
            } else if i < p0.len() + own.len() {
                assert(p[i] == own[i - p0.len()]);
                if j < p0.len() + own.len() {
                    assert(p[j] == own[j - p0.len()]);
                } else {
                    assert(p[j] == fallback[j - p0.len() - own.len()]);
                }
            } else {
                assert(p[i] == fallback[i - p0.len() - own.len()]);
                assert(p[j] == fallback[j - p0.len() - own.len()]);
            }
        }
        assert forall|i: int, j: int|
            0 <= i < j < p.len() && p[i] is Sample && p[j] is Sample implies pick_key(
            regions,
            #[trigger] p[i],
        ) != pick_key(regions, #[trigger] p[j]) by {
            if j < p0.len() {
                assert(p[i] == p0[i] && p[j] == p0[j]);
            } else if i < p0.len() {
                assert(p[i] == p0[i]);
                if j < p0.len() + own.len() {
                    let jj = j - p0.len();
                    assert(p[j] == own[jj]);
                    assert(t0.contains(pick_key(prev, p0[i])));
                } else {
                    assert(p[j] == fallback[j - p0.len() - own.len()]);
                }
            } else if i < p0.len() + own.len() {
                assert(p[i] == own[i - p0.len()]);
                if j < p0.len() + own.len() {
                    assert(p[j] == own[j - p0.len()]);
                } else {
                    assert(p[j] == fallback[j - p0.len() - own.len()]);
                }
            } else {
                assert(p[i] == fallback[i - p0.len() - own.len()]);
            }
        }
        assert forall|key: GridKey| #[trigger] t.contains(key) <==> exists|i: int|
            0 <= i < p.len() && p[i] is Sample && pick_key(regions, #[trigger] p[i]) == key by {
            if t0.contains(key) {
                let i = choose|i: int|
                    0 <= i < p0.len() && p0[i] is Sample && pick_key(prev, #[trigger] p0[i]) == key;
                assert(p[i] == p0[i]);
            }
            if t1.contains(key) && !t0.contains(key) {
                let i = choose|i: int|
                    0 <= i < own.len() && samples[pick_sample_index(#[trigger] own[i])].key == key;
                assert(p[p0.len() + i] == own[i]);
            }
            if exists|i: int| 0 <= i < p.len() && p[i] is Sample && pick_key(regions, #[trigger] p[i]) == key {
                let i = choose|i: int|
                    0 <= i < p.len() && p[i] is Sample && pick_key(regions, #[trigger] p[i]) == key;
                if i < p0.len() {
                    assert(p[i] == p0[i]);
                } else if i < p0.len() + own.len() {
                    assert(p[i] == own[i - p0.len()]);
                } else {
                    assert(p[i] == fallback[i - p0.len() - own.len()]);
                }
            }
        }
        assert forall|rr: int|
            0 <= rr < regions.len() && #[trigger] regions[rr].centroid_usable implies exists|i: int|
            0 <= i < p.len() && pick_region(#[trigger] p[i]) == rr by {
            if rr < r {
                assert(prev[rr] == regions[rr]);
                let i = choose|i: int| 0 <= i < p0.len() && pick_region(#[trigger] p0[i]) == rr;
                assert(p[i] == p0[i]);
            } else if own.len() > 0 {
                assert(p[p0.len() as int] == own[0]);
            } else {
                assert(p[p0.len() as int] == fallback[0]);
            }
        }
    }
}

/// No two pillars placed at samples stand on the same grid key, across all
/// regions.
pub proof fn lemma_pillar_keys_distinct(regions: Seq<RegionSamples>, i: int, j: int)
    requires
        regions_fit(regions),
        0 <= i < j < pillar_plan(regions).0.len(),
        pillar_plan(regions).0[i] is Sample,
        pillar_plan(regions).0[j] is Sample,
    ensures
        pick_key(regions, pillar_plan(regions).0[i]) != pick_key(regions, pillar_plan(regions).0[j]),
{
    lemma_plan(regions);
}

/// Every pillar stands where it may: a sample pillar on a usable sample of
/// its region, a centroid pillar on a region whose centroid is usable.
pub proof fn lemma_pillars_usable(regions: Seq<RegionSamples>, i: int)
    requires
        regions_fit(regions),
        0 <= i < pillar_plan(regions).0.len(),
    ensures
        ({
            let pick = pillar_plan(regions).0[i];
            &&& 0 <= pick_region(pick) < regions.len()
            &&& pick is Sample ==> 0 <= pick_sample_index(pick) < regions[pick_region(
                pick,
            )].samples@.len() && regions[pick_region(pick)].samples@[pick_sample_index(pick)].usable
            &&& pick is Centroid ==> regions[pick_region(pick)].centroid_usable
        }),
{
    lemma_plan(regions);
}

/// A region whose centroid is high enough for a pillar always gets at least
/// one pillar.
pub proof fn lemma_usable_region_gets_pillar(regions: Seq<RegionSamples>, r: int)
    requires
        regions_fit(regions),
        0 <= r < regions.len(),
        regions[r].centroid_usable,
    ensures
        exists|i: int|
            0 <= i < pillar_plan(regions).0.len() && pick_region(#[trigger] pillar_plan(regions).0[i])
                == r,
{
    lemma_plan(regions);
}

/// Some pick among `p` stands on sample `k`.
spec fn has_sample_pick(p: Seq<PillarPick>, k: int) -> bool {
    exists|j: int| 0 <= j < p.len() && pick_sample_index(#[trigger] p[j]) == k
}

/// Some pick among `p` stands on an earlier sample than `k` with the same
/// grid key.
spec fn key_picked_before(samples: Seq<PillarSample>, p: Seq<PillarPick>, k: int) -> bool {
    exists|j: int|
        0 <= j < p.len() && pick_sample_index(#[trigger] p[j]) < k && samples[pick_sample_index(p[j])].key
            == samples[k].key
}

proof fn lemma_sample_picks_exact(r: int, samples: Seq<PillarSample>, taken: Set<GridKey>)
    requires
        0 <= r <= usize::MAX,
        samples.len() <= usize::MAX + 1,
    ensures
        ({
            let p = sample_picks(r, samples, taken).0;
            &&& forall|k: int|
                0 <= k < samples.len() ==> (#[trigger] has_sample_pick(p, k) <==> (samples[k].usable
                    && !taken.contains(samples[k].key) && !key_picked_before(samples, p, k)))
            &&& forall|a: int, b: int|
                0 <= a < b < p.len() ==> pick_sample_index(#[trigger] p[a]) < pick_sample_index(#[trigger] p[b])
        }),
    decreases samples.len(),
{
    lemma_sample_picks(r, samples, taken);
    if samples.len() > 0 {
        let prev = samples.drop_last();
        lemma_sample_picks(r, prev, taken);
        lemma_sample_picks_exact(r, prev, taken);
        let (p0, t0) = sample_picks(r, prev, taken);
        let (p, t) = sample_picks(r, samples, taken);
        let n = samples.len() - 1;
        let sample = samples.last();
        assert forall|j: int| 0 <= j < p0.len() implies pick_sample_index(#[trigger] p0[j]) < n by {}
        let picked = sample.usable && !t0.contains(sample.key);
        let new_pick = PillarPick::Sample { region: r as usize, sample: n as usize };
        if picked {
            assert(p == p0.push(new_pick));
        } else {
            assert(p == p0);
        }
        assert forall|k: int| 0 <= k < samples.len() implies (#[trigger] has_sample_pick(p, k) <==> (
        samples[k].usable && !taken.contains(samples[k].key) && !key_picked_before(samples, p, k))) by {
            if k < n {
                assert(samples[k] == prev[k]);
                assert(has_sample_pick(p0, k) <==> (prev[k].usable && !taken.contains(prev[k].key)
                    && !key_picked_before(prev, p0, k)));
                if has_sample_pick(p, k) {
                    let j = choose|j: int| 0 <= j < p.len() && pick_sample_index(#[trigger] p[j]) == k;
                    if j < p0.len() {
                        assert(p0[j] == p[j]);
                    }
                }
                if has_sample_pick(p0, k) {
                    let j = choose|j: int| 0 <= j < p0.len() && pick_sample_index(#[trigger] p0[j]) == k;
                    assert(p[j] == p0[j]);
                }
                if key_picked_before(samples, p, k) {
                    let j = choose|j: int|
                        0 <= j < p.len() && pick_sample_index(#[trigger] p[j]) < k && samples[pick_sample_index(
                            p[j],
                        )].key == samples[k].key;
                    if j < p0.len() {
                        assert(p0[j] == p[j]);
                        assert(prev[pick_sample_index(p0[j])] == samples[pick_sample_index(p[j])]);
                    }
                }
                if key_picked_before(prev, p0, k) {
                    let j = choose|j: int|
                        0 <= j < p0.len() && pick_sample_index(#[trigger] p0[j]) < k && prev[pick_sample_index(
                            p0[j],
                        )].key == prev[k].key;
                    assert(p[j] == p0[j]);
                }
            } else {
                assert(k == n);
                if has_sample_pick(p0, n) {
                    let j = choose|j: int| 0 <= j < p0.len() && pick_sample_index(#[trigger] p0[j]) == n;
                }
                if picked {
                    assert(pick_sample_index(p[p0.len() as int]) == n);
                }
                if has_sample_pick(p, n) && !picked {
                    let j = choose|j: int| 0 <= j < p.len() && pick_sample_index(#[trigger] p[j]) == n;
                    assert(p[j] == p0[j]);
                }
                // The keys taken before the last sample are those of `taken`
                // and of the earlier picks.
                if key_picked_before(samples, p, n) {
                    let j = choose|j: int|
                        0 <= j < p.len() && pick_sample_index(#[trigger] p[j]) < n && samples[pick_sample_index(
                            p[j],
                        )].key == samples[n].key;
                    if j >= p0.len() {
                        assert(p[j] == new_pick);
                    }
                    assert(p0[j] == p[j]);
                    assert(prev[pick_sample_index(p0[j])].key == sample.key);
                    assert(t0.contains(sample.key));
                }
                if t0.contains(sample.key) && !taken.contains(sample.key) {
                    let j = choose|j: int|
                        0 <= j < p0.len() && prev[pick_sample_index(#[trigger] p0[j])].key == sample.key;
                    assert(p[j] == p0[j]);
                    assert(samples[pick_sample_index(p[j])] == prev[pick_sample_index(p0[j])]);
                    assert(key_picked_before(samples, p, n));
                }
            }
        }
        assert forall|a: int, b: int| 0 <= a < b < p.len() implies pick_sample_index(#[trigger] p[a])
            < pick_sample_index(#[trigger] p[b]) by {
            assert(p[a] == p0[a]);
            if b < p0.len() {
                assert(p[b] == p0[b]);
            } else {
                assert(p[b] == new_pick);
            }
        }
    }
}

/// Pick `a` comes before pick `b` in a plan: regions in order; within a
/// region, samples in order, then the centroid.
pub open spec fn pick_before(a: PillarPick, b: PillarPick) -> bool {
    ||| pick_region(a) < pick_region(b)
    ||| pick_region(a) == pick_region(b) && a is Sample && (b is Centroid || pick_sample_index(a)
        < pick_sample_index(b))
}

/// Pick `a` stands on a sample that comes before sample `i` of region `r`:
/// a sample of an earlier region, or an earlier sample of region `r`.
pub open spec fn sample_before(a: PillarPick, r: int, i: int) -> bool {
    a is Sample && (pick_region(a) < r || (pick_region(a) == r && pick_sample_index(a) < i))
}

/// Some pick of `picks` before sample `i` of region `r` stands on that
/// sample's grid key.
pub open spec fn key_taken_before(regions: Seq<RegionSamples>, picks: Seq<PillarPick>, r: int, i: int) -> bool {
    exists|j: int|
        0 <= j < picks.len() && sample_before(#[trigger] picks[j], r, i) && pick_key(regions, picks[j])
            == regions[r].samples@[i].key
}

spec fn plan_has_sample(p: Seq<PillarPick>, r: int, i: int) -> bool {
    exists|j: int| 0 <= j < p.len() && #[trigger] p[j] is Sample && pick_region(p[j]) == r && pick_sample_index(p[j]) == i
}

spec fn region_has_sample_pick(p: Seq<PillarPick>, r: int) -> bool {
    exists|j: int| 0 <= j < p.len() && #[trigger] p[j] is Sample && pick_region(p[j]) == r
}

spec fn plan_has_centroid(p: Seq<PillarPick>, r: int) -> bool {
    exists|j: int| 0 <= j < p.len() && #[trigger] p[j] is Centroid && pick_region(p[j]) == r
}

spec fn plan_exact(regions: Seq<RegionSamples>, p: Seq<PillarPick>) -> bool {
    &&& forall|r: int, i: int|
        0 <= r < regions.len() && 0 <= i < regions[r].samples@.len() ==> (#[trigger] plan_has_sample(p, r, i)
            <==> (regions[r].samples@[i].usable && !key_taken_before(regions, p, r, i)))
    &&& forall|r: int|
        0 <= r < regions.len() ==> (#[trigger] plan_has_centroid(p, r) <==> (regions[r].centroid_usable
            && !region_has_sample_pick(p, r)))
    &&& forall|a: int, b: int| 0 <= a < b < p.len() ==> pick_before(#[trigger] p[a], #[trigger] p[b])
}

proof fn lemma_plan_exact(regions: Seq<RegionSamples>)
    requires
        regions_fit(regions),
    ensures
        plan_exact(regions, pillar_plan(regions).0),
    decreases regions.len(),
{
    if regions.len() > 0 {
        let prev = regions.drop_last();
        assert(regions_fit(prev)) by {
            assert forall|r: int| 0 <= r < prev.len() implies #[trigger] prev[r].samples@.len() <= usize::MAX by {
                assert(prev[r] == regions[r]);
            }
        }
        lemma_plan_exact(prev);
        lemma_plan_exact_samples(regions);
        lemma_plan_exact_centroids(regions);
        lemma_plan_exact_order(regions);
    }
}

proof fn lemma_plan_exact_samples(regions: Seq<RegionSamples>)
    requires
        regions_fit(regions),
        regions.len() > 0,
        regions_fit(regions.drop_last()),
        plan_exact(regions.drop_last(), pillar_plan(regions.drop_last()).0),
    ensures
        forall|r: int, i: int|
            0 <= r < regions.len() && 0 <= i < regions[r].samples@.len() ==> (#[trigger] plan_has_sample(
                pillar_plan(regions).0,
                r,
                i,
            ) <==> (regions[r].samples@[i].usable && !key_taken_before(regions, pillar_plan(regions).0, r, i))),
{
    lemma_plan(regions);
    let prev = regions.drop_last();
    lemma_plan(prev);
    let n = regions.len() - 1;
    let (p0, t0) = pillar_plan(prev);
    let samples = regions.last().samples@;
    assert(regions[n] == regions.last());
    lemma_sample_picks(n, samples, t0);
    lemma_sample_picks_exact(n, samples, t0);
    let (own, t1) = sample_picks(n, samples, t0);
    let p = pillar_plan(regions).0;
    let fallback = if own.len() == 0 && regions.last().centroid_usable {
        seq![PillarPick::Centroid { region: n as usize }]
    } else {
        Seq::empty()
    };
    assert(p == p0 + own + fallback);
    let m: int = (p0.len() + own.len()) as int;
    assert forall|j: int| 0 <= j < p0.len() implies #[trigger] p[j] == p0[j] && pick_region(p0[j]) < n
        && pick_key(regions, p0[j]) == pick_key(prev, p0[j]) by {
        assert(p[j] == p0[j]);
    }
    assert forall|j: int| 0 <= j < own.len() implies #[trigger] p[p0.len() + j] == own[j] && own[j] is Sample
        && pick_region(own[j]) == n && pick_key(regions, own[j]) == samples[pick_sample_index(own[j])].key by {
        assert(p[p0.len() + j] == own[j]);
    }
    assert forall|j: int| m <= j < p.len() implies #[trigger] p[j] == fallback[j - m] && p[j] is Centroid
        && pick_region(p[j]) == n by {}
    // Sample picks.
    assert forall|r: int, i: int|
        0 <= r < regions.len() && 0 <= i < regions[r].samples@.len() implies (#[trigger] plan_has_sample(p, r, i)
        <==> (regions[r].samples@[i].usable && !key_taken_before(regions, p, r, i))) by {
        if r < n {
            assert(regions[r] == prev[r]);
            assert(plan_has_sample(p0, r, i) <==> (prev[r].samples@[i].usable && !key_taken_before(prev, p0, r, i)));
            if plan_has_sample(p, r, i) {
                let j = choose|j: int| 0 <= j < p.len() && #[trigger] p[j] is Sample && pick_region(p[j]) == r && pick_sample_index(p[j]) == i;
                if j >= p0.len() && j < m {
                    assert(p[j] == own[j - p0.len()]);
                }
                assert(p[j] == p0[j]);
            }
            if plan_has_sample(p0, r, i) {
                let j = choose|j: int| 0 <= j < p0.len() && #[trigger] p0[j] is Sample && pick_region(p0[j]) == r && pick_sample_index(p0[j]) == i;
                assert(p[j] == p0[j]);
            }
            if key_taken_before(regions, p, r, i) {
                let j = choose|j: int|
                    0 <= j < p.len() && sample_before(#[trigger] p[j], r, i) && pick_key(regions, p[j])
                        == regions[r].samples@[i].key;
                if j >= p0.len() && j < m {
                    assert(p[j] == own[j - p0.len()]);
                }
                assert(p[j] == p0[j]);
            }
            if key_taken_before(prev, p0, r, i) {
                let j = choose|j: int|
                    0 <= j < p0.len() && sample_before(#[trigger] p0[j], r, i) && pick_key(prev, p0[j])
                        == prev[r].samples@[i].key;
                assert(p[j] == p0[j]);
            }
        } else {
            assert(r == n);
            assert(has_sample_pick(own, i) <==> (samples[i].usable && !t0.contains(samples[i].key)
                && !key_picked_before(samples, own, i)));
            if plan_has_sample(p, r, i) {
                let j = choose|j: int| 0 <= j < p.len() && #[trigger] p[j] is Sample && pick_region(p[j]) == r && pick_sample_index(p[j]) == i;
                if j < p0.len() {
                    assert(p[j] == p0[j]);
                }
                assert(p[j] == own[j - p0.len()]);
                assert(has_sample_pick(own, i));
            }
            if has_sample_pick(own, i) {
                let j = choose|j: int| 0 <= j < own.len() && pick_sample_index(#[trigger] own[j]) == i;
                assert(p[p0.len() + j] == own[j]);
                assert(plan_has_sample(p, r, i));
            }
            if key_taken_before(regions, p, r, i) {
                let j = choose|j: int|
                    0 <= j < p.len() && sample_before(#[trigger] p[j], r, i) && pick_key(regions, p[j])
                        == regions[r].samples@[i].key;
                if j < p0.len() {
                    assert(p[j] == p0[j]);
                    assert(t0.contains(pick_key(prev, p0[j])));
                } else {
                    let jj = j - p0.len();
                    assert(p[j] == own[jj]);
                    assert(key_picked_before(samples, own, i));
                }
            }
            if t0.contains(samples[i].key) {
                let j = choose|j: int|
                    0 <= j < p0.len() && p0[j] is Sample && pick_key(prev, #[trigger] p0[j]) == samples[i].key;
                assert(p[j] == p0[j]);
                assert(sample_before(p[j], r, i));
                assert(key_taken_before(regions, p, r, i));
            }
            if key_picked_before(samples, own, i) {
                let j = choose|j: int|
                    0 <= j < own.len() && pick_sample_index(#[trigger] own[j]) < i && samples[pick_sample_index(
                        own[j],
                    )].key == samples[i].key;
                assert(p[p0.len() + j] == own[j]);
                assert(sample_before(p[p0.len() + j], r, i));
                assert(key_taken_before(regions, p, r, i));
            }
        }
    }
}

proof fn lemma_plan_exact_centroids(regions: Seq<RegionSamples>)
    requires
        regions_fit(regions),
        regions.len() > 0,
        regions_fit(regions.drop_last()),
        plan_exact(regions.drop_last(), pillar_plan(regions.drop_last()).0),
    ensures
        forall|r: int|
            0 <= r < regions.len() ==> (#[trigger] plan_has_centroid(pillar_plan(regions).0, r) <==> (
            regions[r].centroid_usable && !region_has_sample_pick(pillar_plan(regions).0, r))),
{
    lemma_plan(regions);
    let prev = regions.drop_last();
    lemma_plan(prev);
    let n = regions.len() - 1;
    let (p0, t0) = pillar_plan(prev);
    let samples = regions.last().samples@;
    assert(regions[n] == regions.last());
    lemma_sample_picks(n, samples, t0);
    lemma_sample_picks_exact(n, samples, t0);
    let (own, t1) = sample_picks(n, samples, t0);
    let p = pillar_plan(regions).0;
    let fallback = if own.len() == 0 && regions.last().centroid_usable {
        seq![PillarPick::Centroid { region: n as usize }]
    } else {
        Seq::empty()
    };
    assert(p == p0 + own + fallback);
    let m: int = (p0.len() + own.len()) as int;
    assert forall|j: int| 0 <= j < p0.len() implies #[trigger] p[j] == p0[j] && pick_region(p0[j]) < n
        && pick_key(regions, p0[j]) == pick_key(prev, p0[j]) by {
        assert(p[j] == p0[j]);
    }
    assert forall|j: int| 0 <= j < own.len() implies #[trigger] p[p0.len() + j] == own[j] && own[j] is Sample
        && pick_region(own[j]) == n && pick_key(regions, own[j]) == samples[pick_sample_index(own[j])].key by {
        assert(p[p0.len() + j] == own[j]);
    }
    assert forall|j: int| m <= j < p.len() implies #[trigger] p[j] == fallback[j - m] && p[j] is Centroid
        && pick_region(p[j]) == n by {}
    // Centroid picks.
    assert forall|r: int| 0 <= r < regions.len() implies (#[trigger] plan_has_centroid(p, r) <==> (
    regions[r].centroid_usable && !region_has_sample_pick(p, r))) by {
        if r < n {
            assert(regions[r] == prev[r]);
            assert(plan_has_centroid(p0, r) <==> (prev[r].centroid_usable && !region_has_sample_pick(p0, r)));
            if plan_has_centroid(p, r) {
                let j = choose|j: int| 0 <= j < p.len() && #[trigger] p[j] is Centroid && pick_region(p[j]) == r;
                if j >= p0.len() && j < m {
                    assert(p[j] == own[j - p0.len()]);
                }
                assert(p[j] == p0[j]);
            }
            if plan_has_centroid(p0, r) {
                let j = choose|j: int| 0 <= j < p0.len() && #[trigger] p0[j] is Centroid && pick_region(p0[j]) == r;
                assert(p[j] == p0[j]);
            }
            if region_has_sample_pick(p, r) {
                let j = choose|j: int| 0 <= j < p.len() && #[trigger] p[j] is Sample && pick_region(p[j]) == r;
                if j >= p0.len() && j < m {
                    assert(p[j] == own[j - p0.len()]);
                }
                assert(p[j] == p0[j]);
            }
            if region_has_sample_pick(p0, r) {
                let j = choose|j: int| 0 <= j < p0.len() && #[trigger] p0[j] is Sample && pick_region(p0[j]) == r;
                assert(p[j] == p0[j]);
            }
        } else {
            if plan_has_centroid(p, r) {
                let j = choose|j: int| 0 <= j < p.len() && #[trigger] p[j] is Centroid && pick_region(p[j]) == r;
                if j < p0.len() {
                    assert(p[j] == p0[j]);
                }
                if j < m {
                    assert(p[j] == own[j - p0.len()]);
                }
                assert(fallback.len() > 0);
            }
            if region_has_sample_pick(p, r) {
                let j = choose|j: int| 0 <= j < p.len() && #[trigger] p[j] is Sample && pick_region(p[j]) == r;
                if j < p0.len() {
                    assert(p[j] == p0[j]);
                }
                assert(j < m);
                assert(own.len() > 0);
            }
            if own.len() > 0 {
                assert(p[p0.len() as int] == own[0]);
                assert(region_has_sample_pick(p, r));
            }
            if fallback.len() > 0 {
                assert(p[m] == fallback[0]);
                assert(plan_has_centroid(p, r));
            }
        }
    }
}

proof fn lemma_plan_exact_order(regions: Seq<RegionSamples>)
    requires
        regions_fit(regions),
        regions.len() > 0,
        regions_fit(regions.drop_last()),
        plan_exact(regions.drop_last(), pillar_plan(regions.drop_last()).0),
    ensures
        forall|a: int, b: int|
            0 <= a < b < pillar_plan(regions).0.len() ==> pick_before(
                #[trigger] pillar_plan(regions).0[a],
                #[trigger] pillar_plan(regions).0[b],
            ),
{
    lemma_plan(regions);
    let prev = regions.drop_last();
    lemma_plan(prev);
    let n = regions.len() - 1;
    let (p0, t0) = pillar_plan(prev);
    let samples = regions.last().samples@;
    assert(regions[n] == regions.last());
    lemma_sample_picks(n, samples, t0);
    lemma_sample_picks_exact(n, samples, t0);
    let (own, t1) = sample_picks(n, samples, t0);
    let p = pillar_plan(regions).0;
    let fallback = if own.len() == 0 && regions.last().centroid_usable {
        seq![PillarPick::Centroid { region: n as usize }]
    } else {
        Seq::empty()
    };
    assert(p == p0 + own + fallback);
    let m: int = (p0.len() + own.len()) as int;
    assert forall|j: int| 0 <= j < p0.len() implies #[trigger] p[j] == p0[j] && pick_region(p0[j]) < n
        && pick_key(regions, p0[j]) == pick_key(prev, p0[j]) by {
        assert(p[j] == p0[j]);
    }
    assert forall|j: int| 0 <= j < own.len() implies #[trigger] p[p0.len() + j] == own[j] && own[j] is Sample
        && pick_region(own[j]) == n && pick_key(regions, own[j]) == samples[pick_sample_index(own[j])].key by {
        assert(p[p0.len() + j] == own[j]);
    }
    assert forall|j: int| m <= j < p.len() implies #[trigger] p[j] == fallback[j - m] && p[j] is Centroid
        && pick_region(p[j]) == n by {}
    // Order.
    assert forall|a: int, b: int| 0 <= a < b < p.len() implies pick_before(#[trigger] p[a], #[trigger] p[b]) by {
        if b < p0.len() {
            assert(p[a] == p0[a] && p[b] == p0[b]);
        } else if a < p0.len() {
            assert(p[a] == p0[a]);
            if b < m {
                assert(p[b] == own[b - p0.len()]);
            }
        } else if a < m {
            assert(p[a] == own[a - p0.len()]);
            if b < m {
                assert(p[b] == own[b - p0.len()]);
            }
        } else {
            assert(fallback.len() <= 1);
        }
    }
}

/// Every usable sample gets a pillar unless an earlier pillar already
/// stands on its grid key, and no other sample does: sample `i` of region
/// `r` is picked exactly when it is usable and no pick on a sample of an
/// earlier region, or on an earlier sample of region `r`, has its key. A
/// sample skipped for its key stops nothing: the later samples of its
/// region are still considered.
pub proof fn lemma_fresh_usable_samples_are_picked(regions: Seq<RegionSamples>, r: int, i: int)
    requires
        regions_fit(regions),
        0 <= r < regions.len(),
        0 <= i < regions[r].samples@.len(),
    ensures
        pillar_plan(regions).0.contains(PillarPick::Sample { region: r as usize, sample: i as usize }) <==> (
        regions[r].samples@[i].usable && !key_taken_before(regions, pillar_plan(regions).0, r, i)),
{
    lemma_plan_exact(regions);
    let p = pillar_plan(regions).0;
    let pick = PillarPick::Sample { region: r as usize, sample: i as usize };
    assert(plan_has_sample(p, r, i) <==> (regions[r].samples@[i].usable && !key_taken_before(regions, p, r, i)));
    if p.contains(pick) {
        let j = choose|j: int| 0 <= j < p.len() && p[j] == pick;
        assert(plan_has_sample(p, r, i));
    }
    if plan_has_sample(p, r, i) {
        let j = choose|j: int| 0 <= j < p.len() && #[trigger] p[j] is Sample && pick_region(p[j]) == r
            && pick_sample_index(p[j]) == i;
        assert(p[j] == pick);
        assert(p.contains(pick));
    }
}

/// A region gets a pillar at its centroid exactly when its centroid is high
/// enough and none of its samples got a pillar.
pub proof fn lemma_centroid_only_without_samples(regions: Seq<RegionSamples>, r: int)
    requires
        regions_fit(regions),
        0 <= r < regions.len(),
    ensures
        pillar_plan(regions).0.contains(PillarPick::Centroid { region: r as usize }) <==> (
        regions[r].centroid_usable && !exists|j: int|
            0 <= j < pillar_plan(regions).0.len() && #[trigger] pillar_plan(regions).0[j] is Sample
                && pick_region(pillar_plan(regions).0[j]) == r),
{
    lemma_plan_exact(regions);
    let p = pillar_plan(regions).0;
    let pick = PillarPick::Centroid { region: r as usize };
    assert(plan_has_centroid(p, r) <==> (regions[r].centroid_usable && !region_has_sample_pick(p, r)));
    if p.contains(pick) {
        let j = choose|j: int| 0 <= j < p.len() && p[j] == pick;
        assert(plan_has_centroid(p, r));
    }
    if plan_has_centroid(p, r) {
        let j = choose|j: int| 0 <= j < p.len() && #[trigger] p[j] is Centroid && pick_region(p[j]) == r;
        assert(p[j] == pick);
        assert(p.contains(pick));
    }
}

/// The picks come in order: by region, and within a region by sample, with
/// a centroid pick last. So no pick is made twice.
pub proof fn lemma_picks_in_order(regions: Seq<RegionSamples>, a: int, b: int)
    requires
        regions_fit(regions),
        0 <= a < b < pillar_plan(regions).0.len(),
    ensures
        pick_before(pillar_plan(regions).0[a], pillar_plan(regions).0[b]),
{
    lemma_plan_exact(regions);
}

} // verus!
