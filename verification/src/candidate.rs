//! Per-query-word candidates.
//!
//! A `WordCandidate` holds, for one surviving query word, the ids of the
//! documents matched for it, bucketed by typo distance 0 to 3. An id sits
//! in at most one distance bucket; the `exact` bitmap tracks the ids that
//! were matched by an indexed word equal to the normalized query word.

use vstd::prelude::*;
use roaring::RoaringBitmap;
use crate::bitmap::{elems, bm_new, bm_clone, bm_union, bm_subtract, subtract_from, subtract_all, union_at};
use crate::distance::{osa_dist, restricted_distance};
use crate::text::str_eq;

verus! {

/// Clamps a distance into the valid bucket range 0 to 3.
pub open spec fn clamp3(n: nat) -> int {
    if n <= 3 {
        n as int
    } else {
        3
    }
}

/// The prefix of `k` that is held against a query word of length `n`:
/// extra characters of a longer indexed word are not counted as typos.
pub open spec fn truncated(k: Seq<char>, n: nat) -> Seq<char> {
    if k.len() <= n {
        k
    } else {
        k.subrange(0, n as int)
    }
}

pub struct WordCandidate {
    /// The query word as written.
    pub original: String,
    /// The query word normalized.
    pub normalized: String,
    /// Its position in the query.
    pub index: usize,
    /// Ids of matched documents, bucketed by typo distance 0 to 3.
    pub typos: Vec<RoaringBitmap>,
    /// Ids matched by an indexed word equal to the normalized query word.
    pub exact: RoaringBitmap,
}

impl WordCandidate {
    /// The ids in the distance bucket `d`.
    pub open spec fn bucket(self, d: int) -> Set<u32> {
        elems(self.typos@[d])
    }

    /// All ids matched for this word, at any distance.
    pub open spec fn universe(self) -> Set<u32> {
        self.bucket(0) + self.bucket(1) + self.bucket(2) + self.bucket(3)
    }

    /// The ids in the distance buckets strictly below `d`.
    pub open spec fn lower(self, d: int) -> Set<u32> {
        Set::new(|x: u32| exists|j: int| 0 <= j < d && #[trigger] self.bucket(j).contains(x))
    }

    /// The four distance buckets are pairwise disjoint and finite, and the
    /// exact ids all sit in the distance-0 bucket.
    pub open spec fn wf(self) -> bool {
        &&& self.typos@.len() == 4
        &&& self.bucket(0).finite() && self.bucket(1).finite() && self.bucket(2).finite()
            && self.bucket(3).finite()
        &&& self.bucket(0).disjoint(self.bucket(1)) && self.bucket(0).disjoint(self.bucket(2))
            && self.bucket(0).disjoint(self.bucket(3))
        &&& self.bucket(1).disjoint(self.bucket(2)) && self.bucket(1).disjoint(self.bucket(3))
        &&& self.bucket(2).disjoint(self.bucket(3))
        &&& elems(self.exact).finite() && elems(self.exact).subset_of(self.bucket(0))
    }

    /// A fresh candidate for one query word, with empty buckets.
    pub fn new(original: String, normalized: String, index: usize) -> (r: WordCandidate)
        ensures
            r.wf(),
            r.original == original && r.normalized == normalized && r.index == index,
            r.universe() =~= Set::<u32>::empty(),
            elems(r.exact) =~= Set::<u32>::empty(),
    {
        let mut typos: Vec<RoaringBitmap> = Vec::new();
        typos.push(bm_new());
        typos.push(bm_new());
        typos.push(bm_new());
        typos.push(bm_new());
        WordCandidate { original, normalized, index, typos, exact: bm_new() }
    }

    /// Files the matched word's documents under the right typo distance.
    ///
    /// The automaton only reports membership, so the distance is recomputed
    /// with the restricted edit distance against the matched word truncated
    /// to the query word's length (a fuzzy prefix extension costs nothing),
    /// clamped into the bucket range. An id keeps its lowest distance: ids
    /// already filed lower stay there, and ids filed higher move down.
    pub fn insert_with_maybe_typo(&mut self, other: &str, bitmap: &RoaringBitmap)
        requires
            old(self).wf(),
            elems(*bitmap).finite(),
        ensures
            final(self).wf(),
            final(self).original == old(self).original && final(self).normalized == old(
                self,
            ).normalized && final(self).index == old(self).index,
            final(self).universe() =~= old(self).universe().union(elems(*bitmap)),
            ({
                let dd = clamp3(
                    osa_dist(
                        old(self).normalized@,
                        truncated(other@, old(self).normalized@.len()),
                    ),
                );
                &&& forall|j: int| 0 <= j < dd ==> final(self).bucket(j) == old(self).bucket(j)
                &&& final(self).bucket(dd) =~= old(self).bucket(dd).union(
                    elems(*bitmap).difference(old(self).lower(dd)),
                )
                &&& forall|j: int|
                    dd < j < 4 ==> final(self).bucket(j) =~= old(self).bucket(j).difference(
                        elems(*bitmap),
                    )
            }),
            elems(final(self).exact) =~= elems(old(self).exact).union(
                if other@ == old(self).normalized@ {
                    elems(*bitmap)
                } else {
                    Set::<u32>::empty()
                },
            ),
    {
        let nlen = self.normalized.as_str().unicode_len();
        let olen = other.unicode_len();
        let cut = if olen <= nlen {
            olen
        } else {
            nlen
        };
        let trunc = other.substring_char(0, cut).to_owned();
        let dist = restricted_distance(&self.normalized, &trunc);
        let d: usize = if dist <= 3 {
            dist
        } else {
            3
        };
        proof {
            assert(trunc@ == truncated(other@, old(self).normalized@.len()));
            assert(d as int == clamp3(osa_dist(old(self).normalized@, trunc@)));
        }
        // incoming ids that are not already filed at a lower distance
        let mut inc = bm_clone(bitmap);
        let mut j: usize = 0;
        while j < d
            invariant
                d < 4,
                j <= d,
                *self == *old(self),
                old(self).wf(),
                elems(inc).finite(),
                elems(inc) =~= elems(*bitmap).difference(
                    Set::new(
                        |x: u32|
                            exists|k: int|
                                0 <= k < j && #[trigger] old(self).bucket(k).contains(x),
                    ),
                ),
            decreases d - j,
        {
            bm_subtract(&mut inc, &self.typos[j]);
            j = j + 1;
        }
        proof {
            assert(elems(inc) =~= elems(*bitmap).difference(old(self).lower(d as int)));
        }
        // ids matched now at distance d leave any higher bucket
        subtract_from(&mut self.typos, d + 1, bitmap);
        // file the remaining incoming ids at distance d
        union_at(&mut self.typos, d, &inc);
        proof {
            assert(self.bucket(d as int) =~= old(self).bucket(d as int).union(
                elems(*bitmap).difference(old(self).lower(d as int)),
            ));
            assert(forall|j2: int| 0 <= j2 < d ==> self.bucket(j2) == old(self).bucket(j2));
            assert(forall|j2: int|
                d < j2 < 4 ==> self.bucket(j2) == old(self).bucket(j2).difference(elems(*bitmap)));
        }
        // remember the ids matched by the exact normalized word
        if str_eq(other, self.normalized.as_str()) {
            proof {
                assert(d == 0);
            }
            bm_union(&mut self.exact, bitmap);
        }
        proof {
            assert forall|x: u32|
                old(self).universe().contains(x) || elems(*bitmap).contains(
                    x,
                ) implies #[trigger] self.universe().contains(x) by {
                if elems(*bitmap).contains(x) {
                    if old(self).lower(d as int).contains(x) {
                        let j2 = choose|j2: int|
                            0 <= j2 < d && #[trigger] old(self).bucket(j2).contains(x);
                        assert(self.bucket(j2).contains(x));
                    } else {
                        assert(self.bucket(d as int).contains(x));
                    }
                }
            }
            assert(self.universe() =~= old(self).universe().union(elems(*bitmap)));
            assert(elems(self.exact).subset_of(self.bucket(0)));
        }
    }

    /// Removes already-placed ids from every bucket, so a placed document
    /// can never resurface.
    pub fn purge(&mut self, used: &RoaringBitmap)
        requires
            old(self).wf(),
        ensures
            final(self).wf(),
            final(self).original == old(self).original && final(self).normalized == old(
                self,
            ).normalized && final(self).index == old(self).index,
            forall|j: int|
                0 <= j < 4 ==> final(self).bucket(j) =~= old(self).bucket(j).difference(
                    elems(*used),
                ),
            elems(final(self).exact) =~= elems(old(self).exact).difference(elems(*used)),
            final(self).universe() =~= old(self).universe().difference(elems(*used)),
    {
        subtract_all(&mut self.typos, used);
        bm_subtract(&mut self.exact, used);
        proof {
            assert(forall|j: int|
                0 <= j < 4 ==> self.bucket(j) == old(self).bucket(j).difference(elems(*used)));
            assert(elems(self.exact) =~= elems(old(self).exact).difference(elems(*used)));
            assert(self.universe() =~= old(self).universe().difference(elems(*used)));
        }
    }

    /// One bitmap holding every id matched for this word, at any distance.
    pub fn universe_bitmap(&self) -> (r: RoaringBitmap)
        requires
            self.wf(),
        ensures
            elems(r) =~= self.universe(),
            elems(r).finite(),
    {
        let mut r = bm_clone(&self.typos[0]);
        bm_union(&mut r, &self.typos[1]);
        bm_union(&mut r, &self.typos[2]);
        bm_union(&mut r, &self.typos[3]);
        r
    }
}

} // verus!
