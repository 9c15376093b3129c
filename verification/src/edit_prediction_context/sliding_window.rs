//! The overlap of a sliding window of text with several targets, kept up to
//! date as regions enter and leave the window.
use crate::edit_prediction_context::occurrences::Occurrences;
use std::collections::VecDeque;
use vstd::multiset::Multiset;
use vstd::prelude::*;

verus! {

broadcast use vstd::multiset::group_multiset_axioms;

/// A hash that entered the window, and how often it occurs in each target.
#[derive(Debug)]
pub struct AddedHash {
    pub hash: u32,
    pub target_counts: Vec<u32>,
}

/// A part of the window.
pub struct WeightedOverlapRegion<D> {
    pub data: D,
    /// The hashes that occur in some target, in the order they entered.
    pub added_hashes: Vec<AddedHash>,
    /// The number of all hashes.
    pub window_count_delta: u32,
    /// All hashes.
    pub hashes: Ghost<Multiset<u32>>,
}

/// A window of hashes with counters for its overlap with each target.
pub struct SlidingWindow<D> {
    pub targets: Vec<Occurrences>,
    pub intersection: Occurrences,
    pub regions: VecDeque<WeightedOverlapRegion<D>>,
    pub window_count: u32,
    pub numerators: Vec<u32>,
    pub jaccard_denominator_parts: Vec<u32>,
}

/// A fraction.
#[derive(Clone, Copy, Debug, PartialEq, Eq, Structural)]
pub struct Ratio {
    pub numerator: u32,
    pub denominator: u32,
}

/// Whether a hash occurs in some target.
pub open spec fn relevant(targets: Seq<Occurrences>, hash: u32) -> bool {
    exists|t: int| 0 <= t < targets.len() && (#[trigger] targets[t])@.count(hash) > 0
}

/// The hashes from `k` on of those that entered.
pub open spec fn hashes_from(added: Seq<AddedHash>, k: int) -> Multiset<u32>
    decreases added.len() - k,
{
    if k >= added.len() {
        Multiset::empty()
    } else {
        hashes_from(added, k + 1).insert(added[k].hash)
    }
}

/// The relevant hashes of all regions.
pub open spec fn kept<D>(regions: Seq<WeightedOverlapRegion<D>>) -> Multiset<u32>
    decreases regions.len(),
{
    if regions.len() == 0 {
        Multiset::empty()
    } else {
        hashes_from(regions[0].added_hashes@, 0).add(kept(regions.drop_first()))
    }
}

/// All hashes of all regions.
pub open spec fn all_hashes<D>(regions: Seq<WeightedOverlapRegion<D>>) -> Multiset<u32>
    decreases regions.len(),
{
    if regions.len() == 0 {
        Multiset::empty()
    } else {
        regions[0].hashes@.add(all_hashes(regions.drop_first()))
    }
}

/// Whether recorded counts are those of a hash in the targets.
pub open spec fn counts_match(targets: Seq<Occurrences>, added: AddedHash) -> bool {
    &&& added.target_counts@.len() == targets.len()
    &&& forall|t: int|
        0 <= t < targets.len() ==> #[trigger] added.target_counts@[t] == targets[t]@.count(
            added.hash,
        )
}

/// Whether a region records its relevant hashes, with their counts, and the
/// number of all.
pub open spec fn region_fits<D>(
    targets: Seq<Occurrences>,
    region: WeightedOverlapRegion<D>,
) -> bool {
    &&& region.window_count_delta == region.hashes@.len()
    &&& forall|k: int|
        0 <= k < region.added_hashes@.len() ==> counts_match(
            targets,
            #[trigger] region.added_hashes@[k],
        )
    &&& forall|hash: u32|
        #![trigger hashes_from(region.added_hashes@, 0).count(hash)]
        hashes_from(region.added_hashes@, 0).count(hash) == if relevant(targets, hash) {
            region.hashes@.count(hash)
        } else {
            0
        }
}

/// A hash more on one side makes the overlap one larger where the other side
/// has more of it, and otherwise the excess.
proof fn lemma_one_more(window: Multiset<u32>, target: Multiset<u32>, hash: u32)
    ensures
        window.insert(hash).intersection_with(target).len() == window.intersection_with(
            target,
        ).len() + if window.count(hash) < target.count(hash) {
            1nat
        } else {
            0nat
        },
        window.insert(hash).difference_with(target).len() == window.difference_with(target).len()
            + if window.count(hash) < target.count(hash) {
            0nat
        } else {
            1nat
        },
{
    broadcast use vstd::multiset::group_multiset_properties;

    let more = window.insert(hash);
    if window.count(hash) < target.count(hash) {
        assert(more.intersection_with(target) =~= window.intersection_with(target).insert(hash));
        assert(more.difference_with(target) =~= window.difference_with(target));
    } else {
        assert(more.intersection_with(target) =~= window.intersection_with(target));
        assert(more.difference_with(target) =~= window.difference_with(target).insert(hash));
    }
}

/// The overlap and the excess make up the whole.
proof fn lemma_overlap_and_excess(window: Multiset<u32>, target: Multiset<u32>)
    ensures
        window.intersection_with(target).len() + window.difference_with(target).len()
            == window.len(),
{
    broadcast use vstd::multiset::group_multiset_properties;

    assert(window.intersection_with(target).add(window.difference_with(target)) =~= window);
}

/// Without occurrences there is neither overlap nor excess.
proof fn lemma_empty_overlap(target: Multiset<u32>)
    ensures
        Multiset::<u32>::empty().intersection_with(target).len() == 0,
        Multiset::<u32>::empty().difference_with(target).len() == 0,
{
    broadcast use vstd::multiset::group_multiset_properties;

    let none = Multiset::<u32>::empty();
    assert(none.intersection_with(target) =~= none);
    assert(none.difference_with(target) =~= none);
}

/// A region at the end adds its hashes.
proof fn lemma_push_region<D>(
    regions: Seq<WeightedOverlapRegion<D>>,
    region: WeightedOverlapRegion<D>,
)
    ensures
        kept(regions.push(region)) == kept(regions).add(hashes_from(region.added_hashes@, 0)),
        all_hashes(regions.push(region)) == all_hashes(regions).add(region.hashes@),
    decreases regions.len(),
{
    if regions.len() == 0 {
        assert(regions.push(region).drop_first() =~= regions);
        assert(kept(regions.push(region)) =~= kept(regions).add(
            hashes_from(region.added_hashes@, 0),
        ));
        assert(all_hashes(regions.push(region)) =~= all_hashes(regions).add(region.hashes@));
    } else {
        assert(regions.push(region).drop_first() =~= regions.drop_first().push(region));
        lemma_push_region(regions.drop_first(), region);
        assert(kept(regions.push(region)) =~= kept(regions).add(
            hashes_from(region.added_hashes@, 0),
        ));
        assert(all_hashes(regions.push(region)) =~= all_hashes(regions).add(region.hashes@));
    }
}

/// A hash that enters last is counted once more.
proof fn lemma_push_hash(added: Seq<AddedHash>, one: AddedHash, k: int)
    requires
        0 <= k <= added.len(),
    ensures
        hashes_from(added.push(one), k) == hashes_from(added, k).insert(one.hash),
    decreases added.len() - k,
{
    let longer = added.push(one);
    if k < added.len() {
        lemma_push_hash(added, one, k + 1);
        assert(hashes_from(longer, k) =~= hashes_from(added, k).insert(one.hash));
    } else {
        assert(hashes_from(longer, k + 1) =~= Multiset::<u32>::empty());
        assert(hashes_from(longer, k) =~= hashes_from(added, k).insert(one.hash));
    }
}

/// The kept hashes are the relevant ones of all.
proof fn lemma_kept<D>(
    targets: Seq<Occurrences>,
    regions: Seq<WeightedOverlapRegion<D>>,
    hash: u32,
)
    requires
        forall|r: int| 0 <= r < regions.len() ==> region_fits(targets, #[trigger] regions[r]),
    ensures
        kept(regions).count(hash) == if relevant(targets, hash) {
            all_hashes(regions).count(hash)
        } else {
            0
        },
    decreases regions.len(),
{
    if regions.len() > 0 {
        let rest = regions.drop_first();
        assert forall|r: int| 0 <= r < rest.len() implies region_fits(
            targets,
            #[trigger] rest[r],
        ) by {
            assert(rest[r] == regions[r + 1]);
        }
        lemma_kept(targets, rest, hash);
        assert(region_fits(targets, regions[0]));
    }
}

impl<D> SlidingWindow<D> {
    /// All hashes in the window.
    pub open spec fn window(&self) -> Multiset<u32> {
        all_hashes(self.regions@)
    }

    /// The data and the hashes of the regions, the oldest first.
    pub open spec fn contents(&self) -> Seq<(D, Multiset<u32>)> {
        self.regions@.map_values(
            |region: WeightedOverlapRegion<D>| (region.data, region.hashes@),
        )
    }

    /// The counters are what they would be if they were computed from the
    /// hashes in the window, and fit their types.
    pub open spec fn inv(&self) -> bool {
        &&& self.counters_match()
        &&& self.intersection.inv()
        &&& self.intersection@ == kept(self.regions@)
        &&& self.window_count == self.window().len()
        &&& forall|r: int|
            0 <= r < self.regions@.len() ==> region_fits(
                self.targets@,
                #[trigger] self.regions@[r],
            )
        &&& self.targets_fit(self.window().len())
    }

    /// The targets are valid and leave room for a window of a size.
    pub open spec fn targets_fit(&self, size: nat) -> bool {
        &&& size <= u32::MAX
        &&& forall|t: int|
            0 <= t < self.targets@.len() ==> (#[trigger] self.targets@[t]).inv()
                && self.targets@[t]@.len() + size <= u32::MAX
    }

    /// The counters belong to the kept hashes.
    pub open spec fn counters_match(&self) -> bool {
        &&& self.numerators@.len() == self.targets@.len()
        &&& self.jaccard_denominator_parts@.len() == self.targets@.len()
        &&& forall|t: int|
            0 <= t < self.targets@.len() ==> #[trigger] self.numerators@[t]
                == self.intersection@.intersection_with(self.targets@[t]@).len()
        &&& forall|t: int|
            0 <= t < self.targets@.len() ==> #[trigger] self.jaccard_denominator_parts@[t]
                == self.targets@[t]@.len() + self.intersection@.difference_with(
                self.targets@[t]@,
            ).len()
    }

    /// Zero for each target, and the size of each target.
    fn fresh_counters(targets: &Vec<Occurrences>) -> (r: (Vec<u32>, Vec<u32>))
        requires
            forall|t: int| 0 <= t < targets@.len() ==> (#[trigger] targets@[t]).inv(),
        ensures
            r.0@.len() == targets@.len(),
            r.1@.len() == targets@.len(),
            forall|t: int| 0 <= t < targets@.len() ==> #[trigger] r.0@[t] == 0,
            forall|t: int| 0 <= t < targets@.len() ==> #[trigger] r.1@[t] == targets@[t]@.len(),
    {
        let mut zeros: Vec<u32> = Vec::new();
        let mut sizes: Vec<u32> = Vec::new();
        let mut t: usize = 0;
        while t < targets.len()
            invariant
                t <= targets@.len(),
                zeros@.len() == t,
                sizes@.len() == t,
                forall|t: int| 0 <= t < targets@.len() ==> (#[trigger] targets@[t]).inv(),
                forall|k: int| 0 <= k < t ==> #[trigger] zeros@[k] == 0,
                forall|k: int| 0 <= k < t ==> #[trigger] sizes@[k] == targets@[k]@.len(),
            decreases targets@.len() - t,
        {
            assert(targets@[t as int].inv());
            zeros.push(0);
            sizes.push(targets[t].len());
            t = t + 1;
        }
        (zeros, sizes)
    }

    /// An empty window.
    pub fn new(targets: Vec<Occurrences>) -> (r: Self)
        requires
            forall|t: int| 0 <= t < targets@.len() ==> (#[trigger] targets@[t]).inv(),
        ensures
            r.inv(),
            r.targets@ == targets@,
            r.contents() == Seq::<(D, Multiset<u32>)>::empty(),
            r.window() == Multiset::<u32>::empty(),
    {
        Self::with_capacity(targets, 0)
    }

    /// An empty window with room for some regions.
    pub fn with_capacity(targets: Vec<Occurrences>, capacity: usize) -> (r: Self)
        requires
            forall|t: int| 0 <= t < targets@.len() ==> (#[trigger] targets@[t]).inv(),
        ensures
            r.inv(),
            r.targets@ == targets@,
            r.contents() == Seq::<(D, Multiset<u32>)>::empty(),
            r.window() == Multiset::<u32>::empty(),
    {
        let (numerators, jaccard_denominator_parts) = Self::fresh_counters(&targets);
        let r = SlidingWindow {
            targets,
            intersection: Occurrences::empty(),
            regions: VecDeque::with_capacity(capacity),
            window_count: 0,
            numerators,
            jaccard_denominator_parts,
        };
        proof {
            r.lemma_empty();
            assert(r.contents() =~= Seq::<(D, Multiset<u32>)>::empty());
        }
        r
    }

    /// Fresh counters are those of an empty window.
    proof fn lemma_empty(&self)
        requires
            self.regions@.len() == 0,
            self.intersection.inv(),
            self.intersection@ == Multiset::<u32>::empty(),
            self.window_count == 0,
            self.numerators@.len() == self.targets@.len(),
            self.jaccard_denominator_parts@.len() == self.targets@.len(),
            forall|t: int|
                0 <= t < self.targets@.len() ==> (#[trigger] self.targets@[t]).inv(),
            forall|t: int| 0 <= t < self.targets@.len() ==> #[trigger] self.numerators@[t] == 0,
            forall|t: int|
                0 <= t < self.targets@.len() ==> #[trigger] self.jaccard_denominator_parts@[t]
                    == self.targets@[t]@.len(),
        ensures
            self.inv(),
            self.window() == Multiset::<u32>::empty(),
    {
        assert forall|t: int| 0 <= t < self.targets@.len() implies #[trigger] self.numerators@[t]
            == self.intersection@.intersection_with(self.targets@[t]@).len() by {
            lemma_empty_overlap(self.targets@[t]@);
        }
        assert forall|t: int|
            0 <= t < self.targets@.len() implies #[trigger] self.jaccard_denominator_parts@[t]
            == self.targets@[t]@.len() + self.intersection@.difference_with(
            self.targets@[t]@,
        ).len() by {
            lemma_empty_overlap(self.targets@[t]@);
        }
        assert(self.window().len() == 0);
    }

    /// Empties the window.
    pub fn clear(&mut self)
        requires
            old(self).inv(),
        ensures
            final(self).inv(),
            final(self).targets@ == old(self).targets@,
            final(self).contents() == Seq::<(D, Multiset<u32>)>::empty(),
            final(self).window() == Multiset::<u32>::empty(),
    {
        assert forall|t: int| 0 <= t < self.targets@.len() implies (
        #[trigger] self.targets@[t]).inv() by {}
        let (numerators, jaccard_denominator_parts) = Self::fresh_counters(&self.targets);
        self.intersection.clear();
        self.regions.clear();
        self.window_count = 0;
        self.numerators = numerators;
        self.jaccard_denominator_parts = jaccard_denominator_parts;
        proof {
            self.lemma_empty();
            assert(self.contents() =~= Seq::<(D, Multiset<u32>)>::empty());
        }
    }

    /// How often a hash occurs in each target, and whether in any.
    fn count_in_targets(&self, hash: u32) -> (r: (Vec<u32>, bool))
        requires
            forall|t: int|
                0 <= t < self.targets@.len() ==> (#[trigger] self.targets@[t]).inv(),
        ensures
            r.0@.len() == self.targets@.len(),
            forall|t: int|
                0 <= t < self.targets@.len() ==> #[trigger] r.0@[t] == self.targets@[t]@.count(
                    hash,
                ),
            r.1 == relevant(self.targets@, hash),
    {
        let mut counts: Vec<u32> = Vec::new();
        let mut any = false;
        let mut t: usize = 0;
        while t < self.targets.len()
            invariant
                t <= self.targets@.len(),
                counts@.len() == t,
                forall|t: int|
                    0 <= t < self.targets@.len() ==> (#[trigger] self.targets@[t]).inv(),
                forall|k: int|
                    0 <= k < t ==> #[trigger] counts@[k] == self.targets@[k]@.count(hash),
                any ==> relevant(self.targets@, hash),
                !any ==> forall|k: int|
                    0 <= k < t ==> (#[trigger] self.targets@[k])@.count(hash) == 0,
            decreases self.targets@.len() - t,
        {
            assert(self.targets@[t as int].inv());
            let count: u32 = self.targets[t].get_count(hash);
            counts.push(count);
            if count > 0 {
                assert(self.targets@[t as int]@.count(hash) > 0);
                any = true;
            }
            t = t + 1;
        }
        (counts, any)
    }

    /// Counts a hash that enters or leaves for each target: towards the
    /// overlap where fewer of it than in the target are in the window without
    /// it, otherwise towards the excess.
    fn count_hash(&mut self, target_counts: &Vec<u32>, without: u32, enters: bool)
        requires
            target_counts@.len() == old(self).targets@.len(),
            old(self).numerators@.len() == old(self).targets@.len(),
            old(self).jaccard_denominator_parts@.len() == old(self).targets@.len(),
            forall|t: int|
                0 <= t < target_counts@.len() ==> if without < #[trigger] target_counts@[t] {
                    if enters {
                        old(self).numerators@[t] < u32::MAX
                    } else {
                        old(self).numerators@[t] > 0
                    }
                } else {
                    if enters {
                        old(self).jaccard_denominator_parts@[t] < u32::MAX
                    } else {
                        old(self).jaccard_denominator_parts@[t] > 0
                    }
                },
        ensures
            final(self).targets == old(self).targets,
            final(self).intersection == old(self).intersection,
            final(self).regions == old(self).regions,
            final(self).window_count == old(self).window_count,
            final(self).numerators@.len() == old(self).numerators@.len(),
            final(self).jaccard_denominator_parts@.len() == old(self).jaccard_denominator_parts@.len(),
            forall|t: int|
                0 <= t < target_counts@.len() ==> #[trigger] final(self).numerators@[t] ==
                    old(self).numerators@[t] + (if without < target_counts@[t] {
                    if enters {
                        1int
                    } else {
                        -1int
                    }
                } else {
                    0int
                }),
            forall|t: int|
                0 <= t < target_counts@.len() ==> #[trigger] final(self).jaccard_denominator_parts@[t]
                    == old(self).jaccard_denominator_parts@[t] + (if without < target_counts@[t] {
                    0int
                } else {
                    if enters {
                        1int
                    } else {
                        -1int
                    }
                }),
    {
        let ghost before = *self;
        let mut t: usize = 0;
        while t < target_counts.len()
            invariant
                t <= target_counts@.len(),
                target_counts@.len() == before.targets@.len(),
                self.targets == before.targets,
                self.intersection == before.intersection,
                self.regions == before.regions,
                self.window_count == before.window_count,
                self.numerators@.len() == before.numerators@.len(),
                before.numerators@.len() == before.targets@.len(),
                before.jaccard_denominator_parts@.len() == before.targets@.len(),
                self.jaccard_denominator_parts@.len() == before.jaccard_denominator_parts@.len(),
                forall|t: int|
                    0 <= t < target_counts@.len() ==> if without < #[trigger] target_counts@[t] {
                        if enters {
                            before.numerators@[t] < u32::MAX
                        } else {
                            before.numerators@[t] > 0
                        }
                    } else {
                        if enters {
                            before.jaccard_denominator_parts@[t] < u32::MAX
                        } else {
                            before.jaccard_denominator_parts@[t] > 0
                        }
                    },
                forall|k: int|
                    t <= k < target_counts@.len() ==> #[trigger] self.numerators@[k]
                        == before.numerators@[k],
                forall|k: int|
                    t <= k < target_counts@.len() ==> #[trigger] self.jaccard_denominator_parts@[k]
                        == before.jaccard_denominator_parts@[k],
                forall|k: int|
                    0 <= k < t ==> #[trigger] self.numerators@[k] == before.numerators@[k] + (
                    if without < target_counts@[k] {
                        if enters {
                            1int
                        } else {
                            -1int
                        }
                    } else {
                        0int
                    }),
                forall|k: int|
                    0 <= k < t ==> #[trigger] self.jaccard_denominator_parts@[k]
                        == before.jaccard_denominator_parts@[k] + (if without < target_counts@[k] {
                        0int
                    } else {
                        if enters {
                            1int
                        } else {
                            -1int
                        }
                    }),
            decreases target_counts@.len() - t,
        {
            let overlaps = without < target_counts[t];
            if overlaps {
                let numerator: u32 = self.numerators[t];
                self.numerators.set(
                    t,
                    if enters {
                        numerator + 1
                    } else {
                        numerator - 1
                    },
                );
            } else {
                let part: u32 = self.jaccard_denominator_parts[t];
                self.jaccard_denominator_parts.set(
                    t,
                    if enters {
                        part + 1
                    } else {
                        part - 1
                    },
                );
            }
            t = t + 1;
        }
    }

    /// Adds a region at the end of the window.
    pub fn push_back(&mut self, data: D, hashes: Vec<u32>)
        requires
            old(self).inv(),
            old(self).targets_fit(old(self).window().len() + hashes@.len()),
        ensures
            final(self).inv(),
            final(self).targets@ == old(self).targets@,
            final(self).contents() == old(self).contents().push((data, hashes@.to_multiset())),
            final(self).window() == old(self).window().add(hashes@.to_multiset()),
    {
        broadcast use vstd::seq_lib::group_to_multiset_ensures;

        let ghost before = *self;
        let ghost targets = self.targets@;
        let mut added_hashes: Vec<AddedHash> = Vec::new();
        let mut i: usize = 0;
        let ghost mut seen: Multiset<u32> = Multiset::empty();
        assert(hashes@.take(0).to_multiset() =~= seen);
        proof {
            assert(self.intersection@ =~= kept(before.regions@).add(
                hashes_from(added_hashes@, 0),
            ));
            self.lemma_intersection_len();
        }
        while i < hashes.len()
            invariant
                i <= hashes@.len(),
                targets == before.targets@,
                self.targets@ == targets,
                before.inv(),
                before.targets_fit(before.window().len() + hashes@.len()),
                self.regions == before.regions,
                self.window_count == before.window_count,
                self.counters_match(),
                self.intersection.inv(),
                seen == hashes@.take(i as int).to_multiset(),
                seen.len() == i,
                self.intersection@ == kept(before.regions@).add(hashes_from(added_hashes@, 0)),
                self.intersection@.len() <= before.window().len() + i,
                forall|k: int|
                    0 <= k < added_hashes@.len() ==> counts_match(
                        targets,
                        #[trigger] added_hashes@[k],
                    ),
                forall|hash: u32|
                    #![trigger hashes_from(added_hashes@, 0).count(hash)]
                    hashes_from(added_hashes@, 0).count(hash) == if relevant(targets, hash) {
                        seen.count(hash)
                    } else {
                        0
                    },
            decreases hashes@.len() - i,
        {
            let hash: u32 = hashes[i];
            assert(hashes@.take(i + 1) =~= hashes@.take(i as int).push(hash));
            proof {
                hashes@.take(i as int).to_multiset_ensures();
            }
            let ghost earlier = added_hashes@;
            let ghost kept_before = self.intersection@;
            let ghost counted = *self;
            assert forall|t: int| 0 <= t < self.targets@.len() implies (
            #[trigger] self.targets@[t]).inv() by {
                assert(before.targets@[t].inv());
            }
            let (target_counts, any) = self.count_in_targets(hash);
            if any {
                proof {
                    assert forall|t: int| 0 <= t < targets.len() implies (
                    #[trigger] self.numerators@[t]) < u32::MAX
                        && self.jaccard_denominator_parts@[t] < u32::MAX by {
                        lemma_overlap_and_excess(kept_before, targets[t]@);
                        assert(before.targets@[t]@.len() + before.window().len() + hashes@.len()
                            <= u32::MAX);
                    }
                }
                let window_hash_count: u32 = self.intersection.add_hash(hash);
                self.count_hash(&target_counts, window_hash_count - 1, true);
                added_hashes.push(AddedHash { hash, target_counts });
                proof {
                    lemma_push_hash(earlier, added_hashes@[earlier.len() as int], 0);
                    assert(added_hashes@ =~= earlier.push(added_hashes@[earlier.len() as int]));
                    assert(self.intersection@ =~= kept(before.regions@).add(
                        hashes_from(added_hashes@, 0),
                    ));
                    assert forall|t: int|
                        0 <= t < targets.len() implies #[trigger] self.numerators@[t]
                        == self.intersection@.intersection_with(targets[t]@).len() by {
                        lemma_one_more(kept_before, targets[t]@, hash);
                        assert(counted.numerators@[t] == kept_before.intersection_with(
                            targets[t]@,
                        ).len());
                        assert(target_counts@[t] == targets[t]@.count(hash));
                    }
                    assert forall|t: int|
                        0 <= t
                            < targets.len() implies #[trigger] self.jaccard_denominator_parts@[t]
                        == targets[t]@.len() + self.intersection@.difference_with(
                        targets[t]@,
                    ).len() by {
                        lemma_one_more(kept_before, targets[t]@, hash);
                        assert(counted.jaccard_denominator_parts@[t] == targets[t]@.len()
                            + kept_before.difference_with(targets[t]@).len());
                        assert(target_counts@[t] == targets[t]@.count(hash));
                    }
                }
            }
            proof {
                let now = seen.insert(hash);
                assert forall|other: u32|
                    #![trigger hashes_from(added_hashes@, 0).count(other)]
                    hashes_from(added_hashes@, 0).count(other) == if relevant(targets, other) {
                        now.count(other)
                    } else {
                        0
                    } by {
                    assert(hashes_from(earlier, 0).count(other) == if relevant(targets, other) {
                        seen.count(other)
                    } else {
                        0
                    });
                }
                seen = now;
            }
            i = i + 1;
        }
        assert(hashes@.take(i as int) =~= hashes@);
        let delta: u32 = hashes.len() as u32;
        self.window_count = self.window_count + delta;
        let region = WeightedOverlapRegion {
            data,
            added_hashes,
            window_count_delta: delta,
            hashes: Ghost(seen),
        };
        proof {
            lemma_push_region(before.regions@, region);
            assert(region_fits(targets, region));
        }
        self.regions.push_back(region);
        proof {
            assert(self.regions@ == before.regions@.push(region));
            assert forall|r: int| 0 <= r < self.regions@.len() implies region_fits(
                self.targets@,
                #[trigger] self.regions@[r],
            ) by {
                if r < before.regions@.len() {
                    assert(region_fits(before.targets@, before.regions@[r]));
                }
            }
            assert(self.contents() =~= before.contents().push((data, hashes@.to_multiset())));
        }
    }

    /// Removes the oldest region and returns its data.
    pub fn pop_front(&mut self) -> (data: D)
        requires
            old(self).inv(),
            old(self).regions@.len() > 0,
        ensures
            final(self).inv(),
            final(self).targets@ == old(self).targets@,
            data == old(self).contents()[0].0,
            final(self).contents() == old(self).contents().drop_first(),
            final(self).window().add(old(self).contents()[0].1) == old(self).window(),
    {
        let ghost before = *self;
        let ghost targets = self.targets@;
        let ghost rest = self.regions@.drop_first();
        assert(region_fits(targets, before.regions@[0]));
        let removed = match self.regions.pop_front() {
            Some(removed) => removed,
            None => vstd::pervasive::unreached(),
        };
        let ghost added = removed.added_hashes@;
        let mut k: usize = 0;
        proof {
            assert(self.regions@ =~= rest);
            assert(self.intersection@ =~= hashes_from(added, 0).add(kept(rest)));
        }
        while k < removed.added_hashes.len()
            invariant
                k <= removed.added_hashes@.len(),
                removed.added_hashes@ == added,
                targets == before.targets@,
                self.targets@ == targets,
                before.inv(),
                self.regions@ == rest,
                self.window_count == before.window_count,
                self.counters_match(),
                self.intersection.inv(),
                self.intersection@ == hashes_from(added, k as int).add(kept(rest)),
                forall|k: int|
                    0 <= k < added.len() ==> counts_match(targets, #[trigger] added[k]),
            decreases removed.added_hashes@.len() - k,
        {
            let hash: u32 = removed.added_hashes[k].hash;
            let target_counts = &removed.added_hashes[k].target_counts;
            assert(counts_match(targets, added[k as int]));
            let ghost counted = *self;
            let ghost smaller = hashes_from(added, k + 1).add(kept(rest));
            assert(self.intersection@ =~= smaller.insert(hash));
            let window_hash_count: u32 = self.intersection.remove_hash(hash);
            assert(self.intersection@ =~= smaller);
            proof {
                assert forall|t: int|
                    0 <= t < target_counts@.len() implies if window_hash_count
                    < #[trigger] target_counts@[t] {
                    self.numerators@[t] > 0
                } else {
                    self.jaccard_denominator_parts@[t] > 0
                } by {
                    lemma_one_more(smaller, targets[t]@, hash);
                    assert(self.numerators@[t] == counted.intersection@.intersection_with(
                        targets[t]@,
                    ).len());
                    assert(self.jaccard_denominator_parts@[t] == targets[t]@.len()
                        + counted.intersection@.difference_with(targets[t]@).len());
                }
            }
            self.count_hash(target_counts, window_hash_count, false);
            proof {
                assert forall|t: int| 0 <= t < targets.len() implies #[trigger] self.numerators@[t]
                    == self.intersection@.intersection_with(targets[t]@).len() by {
                    lemma_one_more(smaller, targets[t]@, hash);
                    assert(counted.numerators@[t] == counted.intersection@.intersection_with(
                        targets[t]@,
                    ).len());
                    assert(target_counts@[t] == targets[t]@.count(hash));
                }
                assert forall|t: int|
                    0 <= t < targets.len() implies #[trigger] self.jaccard_denominator_parts@[t]
                    == targets[t]@.len() + self.intersection@.difference_with(
                    targets[t]@,
                ).len() by {
                    lemma_one_more(smaller, targets[t]@, hash);
                    assert(counted.jaccard_denominator_parts@[t] == targets[t]@.len()
                        + counted.intersection@.difference_with(targets[t]@).len());
                    assert(target_counts@[t] == targets[t]@.count(hash));
                }
            }
            k = k + 1;
        }
        proof {
            assert(hashes_from(added, k as int) =~= Multiset::<u32>::empty());
            assert(self.intersection@ =~= kept(rest));
            assert(before.window() == removed.hashes@.add(all_hashes(rest)));
            assert(all_hashes(rest).add(removed.hashes@) =~= before.window());
        }
        self.window_count = self.window_count - removed.window_count_delta;
        proof {
            assert forall|r: int| 0 <= r < self.regions@.len() implies region_fits(
                self.targets@,
                #[trigger] self.regions@[r],
            ) by {
                assert(region_fits(before.targets@, before.regions@[r + 1]));
            }
            assert(self.contents() =~= before.contents().drop_first());
            assert forall|t: int| 0 <= t < self.targets@.len() implies (
            #[trigger] self.targets@[t]).inv() && self.targets@[t]@.len() + self.window().len()
                <= u32::MAX by {
                assert(before.targets@[t].inv());
            }
        }
        removed.data
    }

    /// The overlap of the window with each target over the size of the smaller
    /// of the two.
    pub fn weighted_overlap_coefficient(&self) -> (r: Vec<Ratio>)
        requires
            self.inv(),
        ensures
            r@.len() == self.targets@.len(),
            forall|t: int|
                0 <= t < r@.len() ==> {
                    let target = self.targets@[t]@;
                    &&& (#[trigger] r@[t]).numerator == self.window().intersection_with(
                        target,
                    ).len()
                    &&& r@[t].denominator == if target.len() < self.window().len() {
                        target.len()
                    } else {
                        self.window().len()
                    }
                },
    {
        let mut r: Vec<Ratio> = Vec::new();
        let mut t: usize = 0;
        while t < self.targets.len()
            invariant
                t <= self.targets@.len(),
                self.inv(),
                r@.len() == t,
                forall|k: int|
                    0 <= k < t ==> {
                        let target = self.targets@[k]@;
                        &&& (#[trigger] r@[k]).numerator == self.window().intersection_with(
                            target,
                        ).len()
                        &&& r@[k].denominator == if target.len() < self.window().len() {
                            target.len()
                        } else {
                            self.window().len()
                        }
                    },
            decreases self.targets@.len() - t,
        {
            assert(self.targets@[t as int].inv());
            proof {
                self.lemma_same_overlap(t as int);
            }
            let size: u32 = self.targets[t].len();
            let denominator: u32 = if size < self.window_count {
                size
            } else {
                self.window_count
            };
            r.push(Ratio { numerator: self.numerators[t], denominator });
            t = t + 1;
        }
        r
    }

    /// The overlap of the window with each target over the size of their union.
    pub fn weighted_jaccard_similarity(&self) -> (r: Vec<Ratio>)
        requires
            self.inv(),
        ensures
            r@.len() == self.targets@.len(),
            forall|t: int|
                0 <= t < r@.len() ==> {
                    let target = self.targets@[t]@;
                    &&& (#[trigger] r@[t]).numerator == self.window().intersection_with(
                        target,
                    ).len()
                    &&& r@[t].denominator == target.len() + self.window().len()
                        - self.window().intersection_with(target).len()
                },
    {
        let mut r: Vec<Ratio> = Vec::new();
        let mut t: usize = 0;
        while t < self.targets.len()
            invariant
                t <= self.targets@.len(),
                self.inv(),
                r@.len() == t,
                forall|k: int|
                    0 <= k < t ==> {
                        let target = self.targets@[k]@;
                        &&& (#[trigger] r@[k]).numerator == self.window().intersection_with(
                            target,
                        ).len()
                        &&& r@[k].denominator == target.len() + self.window().len()
                            - self.window().intersection_with(target).len()
                    },
            decreases self.targets@.len() - t,
        {
            proof {
                assert(self.targets@[t as int].inv());
                self.lemma_same_overlap(t as int);
                self.lemma_intersection_len();
                lemma_overlap_and_excess(self.intersection@, self.targets@[t as int]@);
                assert(self.jaccard_denominator_parts@[t as int] == self.targets@[t as int]@.len()
                    + self.intersection@.difference_with(self.targets@[t as int]@).len());
                assert(self.numerators@[t as int] == self.intersection@.intersection_with(
                    self.targets@[t as int]@,
                ).len());
            }
            let other: u32 = self.window_count - self.intersection.len();
            let denominator: u32 = self.jaccard_denominator_parts[t] + other;
            r.push(Ratio { numerator: self.numerators[t], denominator });
            t = t + 1;
        }
        r
    }

    /// The kept hashes overlap a target as all hashes do.
    proof fn lemma_same_overlap(&self, t: int)
        requires
            self.inv(),
            0 <= t < self.targets@.len(),
        ensures
            self.intersection@.intersection_with(self.targets@[t]@)
                == self.window().intersection_with(self.targets@[t]@),
            self.numerators@[t] == self.window().intersection_with(self.targets@[t]@).len(),
    {
        broadcast use vstd::multiset::group_multiset_properties;

        let target = self.targets@[t]@;
        assert forall|hash: u32|
            self.intersection@.intersection_with(target).count(hash)
                == self.window().intersection_with(target).count(hash) by {
            lemma_kept(self.targets@, self.regions@, hash);
            if target.count(hash) > 0 {
                assert(relevant(self.targets@, hash));
            }
        }
        assert(self.intersection@.intersection_with(target) =~= self.window().intersection_with(
            target,
        ));
        assert(self.numerators@[t] == self.intersection@.intersection_with(
            self.targets@[t]@,
        ).len());
    }

    /// The kept hashes are no more than all.
    proof fn lemma_intersection_len(&self)
        requires
            self.inv(),
        ensures
            self.intersection@.len() <= self.window().len(),
    {
        let inner = self.intersection@;
        let outer = self.window();
        assert forall|hash: u32| inner.count(hash) <= outer.count(hash) by {
            lemma_kept(self.targets@, self.regions@, hash);
        }
        assert(inner.subset_of(outer));
        assert(inner.add(outer.sub(inner)) =~= outer);
    }
}

/// The hashes in a window are those of its regions: how they came and went does
/// not matter.
pub proof fn law_window_is_of_contents<D>(a: SlidingWindow<D>, b: SlidingWindow<D>)
    requires
        a.contents() == b.contents(),
    ensures
        a.window() == b.window(),
{
    lemma_same_hashes(a.regions@, b.regions@);
}

/// Regions with the same contents have the same hashes.
proof fn lemma_same_hashes<D>(
    a: Seq<WeightedOverlapRegion<D>>,
    b: Seq<WeightedOverlapRegion<D>>,
)
    requires
        a.map_values(|region: WeightedOverlapRegion<D>| (region.data, region.hashes@))
            == b.map_values(|region: WeightedOverlapRegion<D>| (region.data, region.hashes@)),
    ensures
        all_hashes(a) == all_hashes(b),
    decreases a.len(),
{
    let model = |region: WeightedOverlapRegion<D>| (region.data, region.hashes@);
    assert(a.map_values(model).len() == b.map_values(model).len());
    if a.len() > 0 {
        assert(a.map_values(model)[0] == b.map_values(model)[0]);
        assert(a.drop_first().map_values(model) =~= b.drop_first().map_values(model)) by {
            assert forall|i: int| 0 <= i < a.len() - 1 implies model(#[trigger] a.drop_first()[i])
                == model(b.drop_first()[i]) by {
                assert(a.map_values(model)[i + 1] == b.map_values(model)[i + 1]);
            }
        }
        lemma_same_hashes(a.drop_first(), b.drop_first());
    }
}

/// The counters of two windows with the same targets and the same hashes are the
/// same, whatever entered and left before.
pub proof fn law_counters_are_of_window<D>(a: SlidingWindow<D>, b: SlidingWindow<D>, t: int)
    requires
        a.inv(),
        b.inv(),
        0 <= t < a.targets@.len(),
        t < b.targets@.len(),
        a.targets@[t]@ == b.targets@[t]@,
        a.window() == b.window(),
    ensures
        a.numerators@[t] == b.numerators@[t],
        a.window_count == b.window_count,
{
    a.lemma_same_overlap(t);
    b.lemma_same_overlap(t);
}

} // verus!
