//! The ranking cascade.
//!
//! A cursor walks an ordered pipeline of ranking stages sharing one live
//! candidate set. A stage either accepts a partial refinement (the cursor
//! moves toward finer stages) or yields a finished bucket of document ids
//! (handed back toward coarser stages). Every emitted bucket is purged
//! from the candidate set and from every stage's own state, so no
//! document id is ever returned twice: the emitted buckets are pairwise
//! disjoint.

use vstd::prelude::*;
use roaring::RoaringBitmap;
use crate::bitmap::{
    elems,
    bm_new,
    bm_clone,
    bm_union,
    bm_intersect,
    bm_subtract,
    bm_is_empty,
    bm_len,
    bm_to_vec,
    bm_contains,
    subtract_all,
    insert_id_at,
};
use crate::candidate::WordCandidate;

verus! {

/// One ranking criterion of the pipeline.
#[derive(Clone, Copy, PartialEq, Eq, Structural)]
pub enum RankingRule {
    /// Conjunction of the query words, relaxed from the right.
    Word,
    /// Ascending total typo distance.
    Typo,
    /// Exactly matched words first.
    Exact,
}

/// The private state of one stage of the running cascade.
pub enum Stage {
    /// `count` query words are still in the conjunction; `current` is the
    /// selection the stage last offered.
    Word { count: usize, current: RoaringBitmap },
    /// `pending` holds the not-yet-offered distance levels of the
    /// selection handed down, ascending; `current` is the offered level.
    Typo { pending: Vec<RoaringBitmap>, current: RoaringBitmap, active: bool },
    /// `pending` holds the not-yet-yielded parts of the selection handed
    /// down: ids matched exactly everywhere first, the rest after.
    Exact { pending: Vec<RoaringBitmap>, active: bool },
}

/// What one call of `advance` decided.
pub enum Outcome {
    /// The stage accepted a refinement; the cursor may move finer.
    Descend,
    /// The stage hands a finished bucket back toward coarser stages.
    Yielded(RoaringBitmap),
}

/// The ids held by a sequence of bitmaps.
pub open spec fn pending_union(ps: Seq<RoaringBitmap>) -> Set<u32> {
    Set::new(|x: u32| exists|j: int| 0 <= j < ps.len() && #[trigger] elems(ps[j]).contains(x))
}

/// Every id a stage currently tracks.
pub open spec fn stage_contents(s: Stage) -> Set<u32> {
    match s {
        Stage::Word { count, current } => elems(current),
        Stage::Typo { pending, current, active } => pending_union(pending@) + elems(current),
        Stage::Exact { pending, active } => pending_union(pending@),
    }
}

/// Every set a stage tracks is finite, and a Word stage's conjunction
/// width never exceeds the number of query words.
pub open spec fn stage_inv(s: Stage, ncand: nat) -> bool {
    match s {
        Stage::Word { count, current } => elems(current).finite() && count <= ncand,
        Stage::Typo { pending, current, active } => elems(current).finite() && forall|j: int|
            0 <= j < pending@.len() ==> (#[trigger] elems(pending@[j])).finite(),
        Stage::Exact { pending, active } => forall|j: int|
            0 <= j < pending@.len() ==> (#[trigger] elems(pending@[j])).finite(),
    }
}

/// The stage state belongs to the given ranking rule.
pub open spec fn stage_matches(s: Stage, r: RankingRule) -> bool {
    match (s, r) {
        (Stage::Word { .. }, RankingRule::Word) => true,
        (Stage::Typo { .. }, RankingRule::Typo) => true,
        (Stage::Exact { .. }, RankingRule::Exact) => true,
        _ => false,
    }
}

/// The candidates are well formed.
pub open spec fn cands_wf(cs: Seq<WordCandidate>) -> bool {
    forall|i: int| 0 <= i < cs.len() ==> (#[trigger] cs[i]).wf()
}

/// The typo distance of document `x` for one query word: the index of
/// the bucket holding it, zero when the word did not match it.
pub open spec fn word_level(c: WordCandidate, x: u32) -> nat {
    if c.bucket(3).contains(x) {
        3
    } else if c.bucket(2).contains(x) {
        2
    } else if c.bucket(1).contains(x) {
        1
    } else {
        0
    }
}

/// The total typo distance of document `x` over the first `n` query words.
pub open spec fn total_level_to(cs: Seq<WordCandidate>, n: int, x: u32) -> nat
    decreases n,
{
    if n <= 0 {
        0
    } else {
        total_level_to(cs, n - 1, x) + word_level(cs[n - 1], x)
    }
}

/// The total typo distance of document `x` over the whole query.
pub open spec fn total_level(cs: Seq<WordCandidate>, x: u32) -> nat {
    total_level_to(cs, cs.len() as int, x)
}

pub proof fn lemma_total_level_bound(cs: Seq<WordCandidate>, n: int, x: u32)
    requires
        0 <= n <= cs.len(),
    ensures
        total_level_to(cs, n, x) <= 3 * n,
    decreases n,
{
    if n <= 0 {
    } else {
        lemma_total_level_bound(cs, n - 1, x);
    }
}

/// Document `x` was matched exactly (distance zero, not by prefix) for
/// every one of the first `n` query words.
pub open spec fn all_exact_to(cs: Seq<WordCandidate>, n: int, x: u32) -> bool {
    forall|i: int| 0 <= i < n ==> elems(#[trigger] cs[i].exact).contains(x)
}

/// Document `x` was matched exactly for every query word.
pub open spec fn all_exact(cs: Seq<WordCandidate>, x: u32) -> bool {
    all_exact_to(cs, cs.len() as int, x)
}

/// The selection a stage refines: the coarser stage's current bucket, or
/// everything the query matched when the stage is coarsest.
pub open spec fn handed_set(coarser: Option<&RoaringBitmap>, cs: Seq<WordCandidate>) -> Set<u32> {
    match coarser {
        Some(c) => elems(*c),
        None => union_all(cs),
    }
}

/// Whether the stage holds a selection it is still handing out.
pub open spec fn stage_active(s: Stage) -> bool {
    match s {
        Stage::Word { .. } => true,
        Stage::Typo { pending, current, active } => active,
        Stage::Exact { pending, active } => active,
    }
}

/// The ids matched for any of the query words.
pub open spec fn union_all(cs: Seq<WordCandidate>) -> Set<u32> {
    Set::new(
        |x: u32|
            exists|i: int| 0 <= i < cs.len() && (#[trigger] cs[i].universe()).contains(x),
    )
}

pub proof fn lemma_union_all_finite(cs: Seq<WordCandidate>)
    requires
        cands_wf(cs),
    ensures
        union_all(cs).finite(),
    decreases cs.len(),
{
    if cs.len() == 0 {
        assert(union_all(cs) =~= Set::<u32>::empty());
    } else {
        lemma_union_all_finite(cs.drop_last());
        let u = union_all(cs.drop_last()).union(cs.last().universe());
        assert forall|x: u32| union_all(cs).contains(x) implies u.contains(x) by {
            let i = choose|i: int|
                0 <= i < cs.len() && (#[trigger] cs[i].universe()).contains(x);
            if i < cs.len() - 1 {
                assert(cs.drop_last()[i] == cs[i]);
                assert(cs.drop_last()[i].universe().contains(x));
            }
        }
        assert(union_all(cs).subset_of(u));
        vstd::set_lib::lemma_set_subset_finite(u, union_all(cs));
    }
}

/// The conjunction of the first `n` query words: ids matched for every
/// one of them.
pub open spec fn inter_to(cs: Seq<WordCandidate>, n: int) -> Set<u32>
    decreases n,
{
    if n <= 1 {
        cs[0].universe()
    } else {
        inter_to(cs, n - 1).intersect(cs[n - 1].universe())
    }
}

pub proof fn lemma_inter_to_sub(cs: Seq<WordCandidate>, n: int)
    ensures
        inter_to(cs, n).subset_of(cs[0].universe()),
    decreases n,
{
    if n <= 1 {
    } else {
        lemma_inter_to_sub(cs, n - 1);
    }
}

/// How many leading query words match document `x`, counted from `i`.
pub open spec fn lead_matched_from(cs: Seq<WordCandidate>, i: int, x: u32) -> int
    decreases cs.len() - i,
{
    if i < 0 || i >= cs.len() || !cs[i].universe().contains(x) {
        0
    } else {
        1 + lead_matched_from(cs, i + 1, x)
    }
}

/// How many leading query words match document `x`: the word conjunction
/// places a document at exactly this relaxation depth.
pub open spec fn lead_matched(cs: Seq<WordCandidate>, x: u32) -> int {
    lead_matched_from(cs, 0, x)
}

proof fn lemma_lead_from_nonneg(cs: Seq<WordCandidate>, i: int, x: u32)
    ensures
        lead_matched_from(cs, i, x) >= 0,
    decreases cs.len() - i,
{
    if 0 <= i < cs.len() && cs[i].universe().contains(x) {
        lemma_lead_from_nonneg(cs, i + 1, x);
    }
}

proof fn lemma_lead_from_lower(cs: Seq<WordCandidate>, i: int, c: int, x: u32)
    requires
        0 <= i <= c <= cs.len(),
        forall|j: int| i <= j < c ==> (#[trigger] cs[j].universe()).contains(x),
    ensures
        lead_matched_from(cs, i, x) >= c - i,
    decreases c - i,
{
    if i < c {
        assert(cs[i].universe().contains(x));
        lemma_lead_from_lower(cs, i + 1, c, x);
    } else {
        lemma_lead_from_nonneg(cs, i, x);
    }
}

proof fn lemma_lead_from_upper(cs: Seq<WordCandidate>, i: int, i0: int, x: u32)
    requires
        0 <= i <= i0 < cs.len(),
        !cs[i0].universe().contains(x),
    ensures
        lead_matched_from(cs, i, x) <= i0 - i,
    decreases i0 - i,
{
    if i < i0 {
        lemma_lead_from_upper(cs, i + 1, i0, x);
    }
}

proof fn lemma_lead_from_le_len(cs: Seq<WordCandidate>, i: int, x: u32)
    requires
        0 <= i <= cs.len(),
    ensures
        lead_matched_from(cs, i, x) <= cs.len() - i,
    decreases cs.len() - i,
{
    if i < cs.len() && cs[i].universe().contains(x) {
        lemma_lead_from_le_len(cs, i + 1, x);
    }
}

proof fn lemma_lead_from_members(cs: Seq<WordCandidate>, i: int, x: u32)
    requires
        0 <= i,
    ensures
        forall|j: int|
            i <= j < i + lead_matched_from(cs, i, x) ==> (#[trigger] cs[j].universe()).contains(
                x,
            ),
    decreases cs.len() - i,
{
    if 0 <= i < cs.len() && cs[i].universe().contains(x) {
        lemma_lead_from_members(cs, i + 1, x);
        assert forall|j: int|
            i <= j < i + lead_matched_from(cs, i, x) implies (#[trigger] cs[
            j
        ].universe()).contains(x) by {
            if j > i {
                assert(cs[j].universe().contains(x));
            }
        }
    }
}

/// A document is in the conjunction of the first `c` words exactly when
/// every one of those words matched it.
pub proof fn lemma_inter_to_iff(cs: Seq<WordCandidate>, c: int, x: u32)
    requires
        1 <= c <= cs.len(),
    ensures
        inter_to(cs, c).contains(x) <==> (forall|i: int|
            0 <= i < c ==> (#[trigger] cs[i].universe()).contains(x)),
    decreases c,
{
    if c <= 1 {
    } else {
        lemma_inter_to_iff(cs, c - 1, x);
        if inter_to(cs, c).contains(x) {
            assert forall|i: int| 0 <= i < c implies (#[trigger] cs[i].universe()).contains(
                x,
            ) by {
                if i < c - 1 {
                    assert(cs[i].universe().contains(x));
                }
            }
        }
    }
}

/// Intersection over the first `count` candidates of all ids each one
/// matched.
fn intersect_universes(cands: &Vec<WordCandidate>, count: usize) -> (r: RoaringBitmap)
    requires
        1 <= count <= cands@.len(),
        cands_wf(cands@),
    ensures
        elems(r) == inter_to(cands@, count as int),
        elems(r).finite(),
{
    let mut r = cands[0].universe_bitmap();
    let mut k: usize = 1;
    while k < count
        invariant
            1 <= k <= count <= cands@.len(),
            cands_wf(cands@),
            elems(r) == inter_to(cands@, k as int),
            elems(r).finite(),
        decreases count - k,
    {
        let u = cands[k].universe_bitmap();
        bm_intersect(&mut r, &u);
        proof {
            assert(elems(r) =~= inter_to(cands@, k + 1));
        }
        k = k + 1;
    }
    r
}

/// Every id matched for any query word.
pub fn union_universes(cands: &Vec<WordCandidate>) -> (r: RoaringBitmap)
    requires
        cands_wf(cands@),
    ensures
        elems(r) == union_all(cands@),
        elems(r).finite(),
{
    let mut r = bm_new();
    let mut k: usize = 0;
    let n = cands.len();
    while k < n
        invariant
            k <= n,
            n == cands@.len(),
            cands_wf(cands@),
            elems(r).finite(),
            forall|x: u32|
                elems(r).contains(x) <==> exists|i: int|
                    0 <= i < k && (#[trigger] cands@[i].universe()).contains(x),
        decreases n - k,
    {
        let u = cands[k].universe_bitmap();
        bm_union(&mut r, &u);
        proof {
            assert forall|x: u32| elems(r).contains(x) implies exists|i: int|
                0 <= i < k + 1 && (#[trigger] cands@[i].universe()).contains(x) by {
                if cands@[k as int].universe().contains(x) {
                } else {
                    let i = choose|i: int|
                        0 <= i < k && (#[trigger] cands@[i].universe()).contains(x);
                    assert(cands@[i].universe().contains(x));
                }
            }
        }
        k = k + 1;
    }
    proof {
        assert(elems(r) =~= union_all(cands@));
    }
    r
}


/// The conjunction width a Word stage still uses; zero for other stages.
pub open spec fn word_count(s: Stage) -> nat {
    match s {
        Stage::Word { count, .. } => count as nat,
        _ => 0,
    }
}

/// The selection a stage currently offers to finer stages.
pub open spec fn stage_current_set(s: Stage) -> Set<u32> {
    match s {
        Stage::Word { count, current } => elems(current),
        Stage::Typo { pending, current, active } => elems(current),
        Stage::Exact { pending, active } => Set::empty(),
    }
}

/// Everything an advancing stage may draw its next selection from: its own
/// state, the coarser stage's current bucket, and the live candidates.
pub open spec fn avail(st: Stage, coarser: Option<&RoaringBitmap>, cs: Seq<WordCandidate>) -> Set<
    u32,
> {
    stage_contents(st) + (match coarser {
        Some(c) => elems(*c),
        None => Set::empty(),
    }) + union_all(cs)
}

/// A read-only peek at the selection a stage currently offers.
pub fn stage_current_clone(st: &Stage) -> (r: RoaringBitmap)
    requires
        stage_inv(*st, 0xffff_ffff_ffff_ffff),
    ensures
        elems(r).finite(),
        elems(r) == stage_current_set(*st),
        elems(r).subset_of(stage_contents(*st)),
{
    match st {
        Stage::Word { count, current } => bm_clone(current),
        Stage::Typo { pending, current, active } => bm_clone(current),
        Stage::Exact { pending, active } => {
            proof {
                assert(stage_current_set(*st) =~= Set::<u32>::empty());
            }
            bm_new()
        },
    }
}

/// Partitions a selection into its total-typo-distance levels, ascending;
/// empty levels are dropped. Every id of the selection lands in exactly
/// one level; within a level all ids share one total distance, and later
/// levels hold strictly larger totals.
fn typo_levels(sel: &RoaringBitmap, cands: &Vec<WordCandidate>) -> (r: Vec<RoaringBitmap>)
    requires
        elems(*sel).finite(),
        cands_wf(cands@),
        1 <= cands@.len() <= 100_000_000,
    ensures
        forall|j: int|
            0 <= j < r@.len() ==> (#[trigger] elems(r@[j])).finite() && elems(r@[j]).subset_of(
                elems(*sel),
            ),
        pending_union(r@) =~= elems(*sel),
        forall|j: int| 0 <= j < r@.len() ==> #[trigger] elems(r@[j]) != Set::<u32>::empty(),
        forall|j: int, x: u32, y: u32|
            0 <= j < r@.len() && #[trigger] elems(r@[j]).contains(x) && #[trigger] elems(
                r@[j],
            ).contains(y) ==> total_level(cands@, x) == total_level(cands@, y),
        forall|j1: int, j2: int, x1: u32, x2: u32|
            0 <= j1 < j2 < r@.len() && #[trigger] elems(r@[j1]).contains(x1) && #[trigger] elems(
                r@[j2],
            ).contains(x2) ==> total_level(cands@, x1) < total_level(cands@, x2),
{
    let ncand = cands.len();
    let nlev: usize = 3 * ncand + 1;
    let mut levels: Vec<RoaringBitmap> = Vec::new();
    while levels.len() < nlev
        invariant
            levels@.len() <= nlev,
            forall|j: int|
                0 <= j < levels@.len() ==> elems(#[trigger] levels@[j]) == Set::<u32>::empty(),
        decreases nlev - levels@.len(),
    {
        levels.push(bm_new());
    }
    let ids = bm_to_vec(sel);
    let nids = ids.len();
    let mut t: usize = 0;
    while t < nids
        invariant
            t <= nids,
            nids == ids@.len(),
            ncand == cands@.len() <= 100_000_000,
            nlev == 3 * ncand + 1,
            levels@.len() == nlev,
            cands_wf(cands@),
            forall|i: int| 0 <= i < nids ==> elems(*sel).contains(#[trigger] ids@[i]),
            forall|x: u32|
                elems(*sel).contains(x) ==> exists|i: int| 0 <= i < nids && ids@[i] == x,
            forall|j: int, x: u32|
                0 <= j < nlev && #[trigger] elems(levels@[j]).contains(x) ==> elems(
                    *sel,
                ).contains(x) && total_level(cands@, x) == j,
            forall|j: int|
                0 <= j < nlev ==> (#[trigger] elems(levels@[j])).finite(),
            forall|q: int|
                0 <= q < t ==> elems(
                    levels@[total_level(cands@, #[trigger] ids@[q]) as int],
                ).contains(ids@[q]),
        decreases nids - t,
    {
        let id = ids[t];
        let mut total: usize = 0;
        let mut i: usize = 0;
        while i < ncand
            invariant
                i <= ncand,
                ncand == cands@.len() <= 100_000_000,
                cands_wf(cands@),
                total <= 3 * i,
                total == total_level_to(cands@, i as int, id),
            decreases ncand - i,
        {
            // the distance bucket this id sits in for word i, if any
            let mut dcur: usize = 0;
            let mut dd: usize = 0;
            while dd < 4
                invariant
                    dd <= 4,
                    dcur <= 3,
                    i < ncand == cands@.len(),
                    cands_wf(cands@),
                    forall|j: int|
                        0 <= j < dd && #[trigger] cands@[i as int].bucket(j).contains(id) ==> dcur
                            == j,
                    (forall|j: int|
                        0 <= j < dd ==> !(#[trigger] cands@[i as int].bucket(j)).contains(id))
                        ==> dcur == 0,
                decreases 4 - dd,
            {
                if bm_contains(&cands[i].typos[dd], id) {
                    dcur = dd;
                    proof {
                        assert forall|j: int|
                            0 <= j < dd + 1 && #[trigger] cands@[i as int].bucket(j).contains(
                                id,
                            ) implies dcur == j by {
                            if j < dd {
                                assert(cands@[i as int].bucket(j).disjoint(
                                    cands@[i as int].bucket(dd as int),
                                ));
                                assert(false);
                            }
                        }
                    }
                }
                dd = dd + 1;
            }
            proof {
                assert(dcur == word_level(cands@[i as int], id));
            }
            total = total + dcur;
            i = i + 1;
        }
        proof {
            assert(total == total_level(cands@, id));
            lemma_total_level_bound(cands@, ncand as int, id);
        }
        let ghost glv = levels@;
        insert_id_at(&mut levels, total, id);
        proof {
            assert forall|q: int| 0 <= q < t + 1 implies elems(
                levels@[total_level(cands@, #[trigger] ids@[q]) as int],
            ).contains(ids@[q]) by {
                lemma_total_level_bound(cands@, ncand as int, ids@[q]);
                let tl = total_level(cands@, ids@[q]) as int;
                if q < t {
                    if tl != total {
                        assert(levels@[tl] == glv[tl]);
                    } else {
                        assert(elems(levels@[tl]) == elems(glv[tl]).insert(id));
                    }
                    assert(elems(glv[tl]).contains(ids@[q]));
                }
            }
        }
        t = t + 1;
    }
    proof {
        assert forall|x: u32| elems(*sel).contains(x) implies elems(
            levels@[total_level(cands@, x) as int],
        ).contains(x) by {
            let q = choose|i: int| 0 <= i < nids && ids@[i] == x;
        }
    }
    let mut out: Vec<RoaringBitmap> = Vec::new();
    let ghost mut gts: Seq<int> = Seq::empty();
    let mut k: usize = 0;
    while k < nlev
        invariant
            k <= nlev,
            nlev == levels@.len(),
            cands_wf(cands@),
            forall|j: int, x: u32|
                0 <= j < nlev && #[trigger] elems(levels@[j]).contains(x) ==> elems(
                    *sel,
                ).contains(x) && total_level(cands@, x) == j,
            forall|j: int|
                0 <= j < nlev ==> (#[trigger] elems(levels@[j])).finite(),
            forall|x: u32|
                elems(*sel).contains(x) ==> elems(
                    levels@[total_level(cands@, x) as int],
                ).contains(x),
            gts.len() == out@.len(),
            forall|j: int| 0 <= j < gts.len() ==> 0 <= #[trigger] gts[j] < k,
            forall|j1: int, j2: int| 0 <= j1 < j2 < gts.len() ==> #[trigger] gts[j1] < #[trigger] gts[j2],
            forall|j: int, x: u32|
                0 <= j < out@.len() && #[trigger] elems(out@[j]).contains(x) ==> elems(
                    *sel,
                ).contains(x) && total_level(cands@, x) == gts[j],
            forall|j: int|
                0 <= j < out@.len() ==> (#[trigger] elems(out@[j])).finite() && elems(out@[j])
                    != Set::<u32>::empty(),
            forall|x: u32|
                elems(*sel).contains(x) && total_level(cands@, x) < k ==> pending_union(
                    out@,
                ).contains(x),
        decreases nlev - k,
    {
        if !bm_is_empty(&levels[k]) {
            let lv = bm_clone(&levels[k]);
            let ghost gout = out@;
            out.push(lv);
            proof {
                gts = gts.push(k as int);
                assert(elems(out@.last()) == elems(levels@[k as int]));
                assert forall|x: u32|
                    elems(*sel).contains(x) && total_level(cands@, x) < k + 1 implies pending_union(
                    out@,
                ).contains(x) by {
                    if total_level(cands@, x) < k {
                        let j = choose|j: int|
                            0 <= j < gout.len() && #[trigger] elems(gout[j]).contains(x);
                        assert(out@[j] == gout[j]);
                        assert(elems(out@[j]).contains(x));
                    } else {
                        assert(elems(levels@[k as int]).contains(x));
                        assert(elems(out@[out@.len() - 1]).contains(x));
                    }
                }
            }
        } else {
            proof {
                assert forall|x: u32|
                    elems(*sel).contains(x) && total_level(cands@, x) < k + 1 implies pending_union(
                    out@,
                ).contains(x) by {
                    if total_level(cands@, x) == k {
                        assert(elems(levels@[k as int]).contains(x));
                        assert(false);
                    }
                }
            }
        }
        k = k + 1;
    }
    proof {
        assert forall|x: u32| pending_union(out@).contains(x) implies elems(*sel).contains(
            x,
        ) by {
            let j = choose|j: int| 0 <= j < out@.len() && #[trigger] elems(out@[j]).contains(x);
        }
        assert forall|x: u32| elems(*sel).contains(x) implies pending_union(out@).contains(
            x,
        ) by {
            lemma_total_level_bound(cands@, cands@.len() as int, x);
        }
        assert forall|j1: int, j2: int, x1: u32, x2: u32|
            0 <= j1 < j2 < out@.len() && #[trigger] elems(out@[j1]).contains(x1)
                && #[trigger] elems(out@[j2]).contains(x2) implies total_level(cands@, x1)
            < total_level(cands@, x2) by {
            assert(gts[j1] < gts[j2]);
        }
    }
    out
}

/// Splits a selection into the ids every query word matched exactly,
/// then the rest; empty parts are dropped. Together the parts hold the
/// whole selection, each part is uniform in exactness, and the exactly
/// matched ids come first.
fn exact_split(sel: &RoaringBitmap, cands: &Vec<WordCandidate>) -> (r: Vec<RoaringBitmap>)
    requires
        elems(*sel).finite(),
        cands_wf(cands@),
        cands@.len() >= 1,
    ensures
        forall|j: int|
            0 <= j < r@.len() ==> (#[trigger] elems(r@[j])).finite() && elems(r@[j]).subset_of(
                elems(*sel),
            ),
        pending_union(r@) =~= elems(*sel),
        forall|j: int| 0 <= j < r@.len() ==> #[trigger] elems(r@[j]) != Set::<u32>::empty(),
        r@.len() <= 2,
        r@.len() == 2 ==> (forall|x: u32| #[trigger] elems(r@[0]).contains(x) ==> all_exact(
            cands@,
            x,
        )) && (forall|x: u32| #[trigger] elems(r@[1]).contains(x) ==> !all_exact(cands@, x)),
        r@.len() == 1 ==> ((forall|x: u32| #[trigger] elems(r@[0]).contains(x) ==> all_exact(
            cands@,
            x,
        )) || (forall|x: u32| #[trigger] elems(r@[0]).contains(x) ==> !all_exact(cands@, x))),
{
    let mut ex = bm_clone(sel);
    let ncand = cands.len();
    let mut i: usize = 0;
    while i < ncand
        invariant
            i <= ncand,
            ncand == cands@.len(),
            cands_wf(cands@),
            elems(ex).finite(),
            forall|x: u32|
                #[trigger] elems(ex).contains(x) <==> (elems(*sel).contains(x) && all_exact_to(
                    cands@,
                    i as int,
                    x,
                )),
        decreases ncand - i,
    {
        bm_intersect(&mut ex, &cands[i].exact);
        proof {
            assert forall|x: u32| #[trigger] elems(ex).contains(x) implies (elems(
                *sel,
            ).contains(x) && all_exact_to(cands@, i + 1, x)) by {
                assert forall|i2: int|
                    0 <= i2 < i + 1 implies elems(#[trigger] cands@[i2].exact).contains(x) by {
                    if i2 < i {
                        assert(elems(cands@[i2].exact).contains(x));
                    }
                }
            }
        }
        i = i + 1;
    }
    proof {
        assert forall|x: u32| #[trigger] elems(ex).contains(x) implies all_exact(
            cands@,
            x,
        ) by {}
        assert forall|x: u32|
            elems(*sel).contains(x) && !elems(ex).contains(x) implies !all_exact(
            cands@,
            x,
        ) by {}
    }
    let mut rest = bm_clone(sel);
    bm_subtract(&mut rest, &ex);
    let mut out: Vec<RoaringBitmap> = Vec::new();
    let ghost gex = elems(ex);
    let ghost grest = elems(rest);
    let ex_empty = bm_is_empty(&ex);
    if !ex_empty {
        out.push(ex);
    }
    let rest_empty = bm_is_empty(&rest);
    if !rest_empty {
        out.push(rest);
    }
    proof {
        assert forall|x: u32| elems(*sel).contains(x) implies pending_union(out@).contains(
            x,
        ) by {
            if all_exact(cands@, x) {
                assert(gex.contains(x));
                assert(!ex_empty);
                assert(elems(out@[0]) == gex);
                assert(elems(out@[0]).contains(x));
            } else {
                assert(grest.contains(x));
                assert(!rest_empty);
                assert(elems(out@[out@.len() - 1]) == grest);
                assert(elems(out@[out@.len() - 1]).contains(x));
            }
        }
        assert forall|x: u32| pending_union(out@).contains(x) implies elems(*sel).contains(
            x,
        ) by {
            let j = choose|j: int| 0 <= j < out@.len() && #[trigger] elems(out@[j]).contains(x);
        }
    }
    out
}

/// One step of one stage: either accept a refinement (`Descend`) or hand a
/// finished bucket back (`Yielded`). A Word stage offers the conjunction
/// of the first `count` query words, relaxing from the right until the
/// conjunction is non-empty; a Typo stage offers the handed-down selection
/// level by ascending total typo distance; an Exact stage yields the
/// exactly-matched ids first, then the rest.
pub fn stage_advance(st: Stage, coarser: Option<&RoaringBitmap>, cands: &Vec<WordCandidate>) -> (res: (
    Stage,
    Outcome,
))
    requires
        1 <= cands@.len() <= 100_000_000,
        cands_wf(cands@),
        stage_inv(st, cands@.len() as nat),
        (coarser matches Some(c) ==> elems(*c).finite()),
    ensures
        stage_inv(res.0, cands@.len() as nat),
        forall|rr: RankingRule| stage_matches(st, rr) ==> stage_matches(res.0, rr),
        stage_contents(res.0).subset_of(avail(st, coarser, cands@)),
        (res.1 matches Outcome::Yielded(b) ==> elems(b).finite() && elems(b).subset_of(
            avail(st, coarser, cands@),
        )),
        stage_matches(st, RankingRule::Word) ==> {
            &&& word_count(res.0) <= word_count(st)
            &&& (res.1 matches Outcome::Yielded(b) ==> elems(b) =~= Set::<u32>::empty()
                && word_count(res.0) == 0)
            &&& (word_count(res.0) == 0 && word_count(st) > 0 ==> cands@[0].universe()
                =~= Set::<u32>::empty())
            &&& (res.1 matches Outcome::Descend ==> 1 <= word_count(res.0) && stage_current_set(
                res.0,
            ) == inter_to(cands@, word_count(res.0) as int) && stage_current_set(res.0)
                != Set::<u32>::empty())
            &&& forall|c2: int|
                word_count(res.0) < c2 <= word_count(st) ==> inter_to(cands@, c2)
                    =~= Set::<u32>::empty()
        },
        stage_matches(st, RankingRule::Word) ==> stage_contents(res.0).subset_of(
            cands@[0].universe(),
        ),
        (stage_matches(st, RankingRule::Typo) || stage_matches(st, RankingRule::Exact))
            && stage_active(st) ==> stage_contents(res.0).subset_of(stage_contents(st)) && (
        res.1 matches Outcome::Yielded(b) ==> elems(b).subset_of(stage_contents(st))),
        stage_matches(st, RankingRule::Typo) && !stage_active(st) ==> {
            &&& stage_contents(res.0) =~= handed_set(coarser, cands@)
            &&& (handed_set(coarser, cands@) != Set::<u32>::empty() ==> (
            res.1 matches Outcome::Descend))
            &&& (res.1 matches Outcome::Yielded(b) ==> elems(b) =~= Set::<u32>::empty())
        },
        stage_matches(st, RankingRule::Exact) ==> !(res.1 matches Outcome::Descend),
        stage_matches(st, RankingRule::Exact) && !stage_active(st) ==> (
        res.1 matches Outcome::Yielded(b) ==> stage_contents(res.0).union(elems(b))
            =~= handed_set(coarser, cands@) && (handed_set(coarser, cands@)
            != Set::<u32>::empty() ==> elems(b) != Set::<u32>::empty())),
{
    match st {
        Stage::Word { count, current } => {
            let mut c = count;
            loop
                invariant
                    c <= count <= cands@.len(),
                    1 <= cands@.len() <= 100_000_000,
                    cands_wf(cands@),
                    stage_matches(st, RankingRule::Word),
                    word_count(st) == count,
                    stage_inv(st, cands@.len() as nat),
                    c == 0 && count > 0 ==> cands@[0].universe() =~= Set::<u32>::empty(),
                    forall|c2: int|
                        c < c2 <= count ==> inter_to(cands@, c2) =~= Set::<u32>::empty(),
                decreases c,
            {
                if c == 0 {
                    return (
                        Stage::Word { count: 0, current: bm_new() },
                        Outcome::Yielded(bm_new()),
                    );
                }
                let sel = intersect_universes(cands, c);
                if !bm_is_empty(&sel) {
                    proof {
                        lemma_inter_to_sub(cands@, c as int);
                        assert(cands@[0].universe().subset_of(union_all(cands@)));
                        assert(elems(sel).subset_of(avail(st, coarser, cands@)));
                    }
                    return (Stage::Word { count: c, current: sel }, Outcome::Descend);
                }
                proof {
                    if c == 1 {
                        assert(cands@[0].universe() =~= Set::<u32>::empty());
                    }
                }
                c = c - 1;
            }
        },
        Stage::Typo { pending, current, active } => {
            let mut pnd: Vec<RoaringBitmap>;
            if !active {
                let sel = match coarser {
                    Some(cb) => bm_clone(cb),
                    None => union_universes(cands),
                };
                pnd = typo_levels(&sel, cands);
                proof {
                    assert(elems(sel) == handed_set(coarser, cands@));
                    assert(pending_union(pnd@) =~= handed_set(coarser, cands@));
                }
            } else {
                pnd = pending;
            }
            proof {
                assert forall|x: u32| pending_union(pnd@).contains(x) implies avail(
                    st,
                    coarser,
                    cands@,
                ).contains(x) by {
                    let j = choose|j: int|
                        0 <= j < pnd@.len() && #[trigger] elems(pnd@[j]).contains(x);
                }
            }
            if pnd.len() > 0 {
                let ghost full = pnd@;
                let cur = pnd.remove(0);
                proof {
                    assert forall|x: u32| pending_union(full).contains(x) implies pending_union(
                        pnd@,
                    ).union(elems(cur)).contains(x) by {
                        let j = choose|j: int|
                            0 <= j < full.len() && #[trigger] elems(full[j]).contains(x);
                        if j > 0 {
                            assert(pnd@[j - 1] == full[j]);
                            assert(elems(pnd@[j - 1]).contains(x));
                        }
                    }
                    assert forall|x: u32|
                        pending_union(pnd@).union(elems(cur)).contains(x) implies pending_union(
                        full,
                    ).contains(x) by {
                        if pending_union(pnd@).contains(x) {
                            let j = choose|j: int|
                                0 <= j < pnd@.len() && #[trigger] elems(pnd@[j]).contains(x);
                            assert(full[j + 1] == pnd@[j]);
                            assert(elems(full[j + 1]).contains(x));
                        } else {
                            assert(elems(full[0]).contains(x));
                        }
                    }
                    assert(pending_union(full) =~= pending_union(pnd@).union(elems(cur)));
                    assert(elems(cur).subset_of(avail(st, coarser, cands@)));
                    assert forall|x: u32| pending_union(pnd@).contains(x) implies avail(
                        st,
                        coarser,
                        cands@,
                    ).contains(x) by {
                        let j = choose|j: int|
                            0 <= j < pnd@.len() && #[trigger] elems(pnd@[j]).contains(x);
                    }
                }
                (Stage::Typo { pending: pnd, current: cur, active: true }, Outcome::Descend)
            } else {
                proof {
                    if !active {
                        assert(pending_union(pnd@) =~= Set::<u32>::empty());
                        assert(handed_set(coarser, cands@) =~= Set::<u32>::empty());
                    }
                }
                (
                    Stage::Typo { pending: pnd, current: bm_new(), active: false },
                    Outcome::Yielded(bm_new()),
                )
            }
        },
        Stage::Exact { pending, active } => {
            let mut pnd: Vec<RoaringBitmap>;
            if !active {
                let sel = match coarser {
                    Some(cb) => bm_clone(cb),
                    None => union_universes(cands),
                };
                pnd = exact_split(&sel, cands);
                proof {
                    assert(elems(sel) == handed_set(coarser, cands@));
                    assert(pending_union(pnd@) =~= handed_set(coarser, cands@));
                }
            } else {
                pnd = pending;
            }
            proof {
                assert forall|x: u32| pending_union(pnd@).contains(x) implies avail(
                    st,
                    coarser,
                    cands@,
                ).contains(x) by {
                    let j = choose|j: int|
                        0 <= j < pnd@.len() && #[trigger] elems(pnd@[j]).contains(x);
                }
            }
            if pnd.len() > 0 {
                let ghost full = pnd@;
                let b = pnd.remove(0);
                proof {
                    assert forall|x: u32| pending_union(full).contains(x) implies pending_union(
                        pnd@,
                    ).union(elems(b)).contains(x) by {
                        let j = choose|j: int|
                            0 <= j < full.len() && #[trigger] elems(full[j]).contains(x);
                        if j > 0 {
                            assert(pnd@[j - 1] == full[j]);
                            assert(elems(pnd@[j - 1]).contains(x));
                        }
                    }
                    assert forall|x: u32|
                        pending_union(pnd@).union(elems(b)).contains(x) implies pending_union(
                        full,
                    ).contains(x) by {
                        if pending_union(pnd@).contains(x) {
                            let j = choose|j: int|
                                0 <= j < pnd@.len() && #[trigger] elems(pnd@[j]).contains(x);
                            assert(full[j + 1] == pnd@[j]);
                            assert(elems(full[j + 1]).contains(x));
                        } else {
                            assert(elems(full[0]).contains(x));
                        }
                    }
                    assert(pending_union(full) =~= pending_union(pnd@).union(elems(b)));
                    assert(elems(b).subset_of(avail(st, coarser, cands@)));
                    assert forall|x: u32| pending_union(pnd@).contains(x) implies avail(
                        st,
                        coarser,
                        cands@,
                    ).contains(x) by {
                        let j = choose|j: int|
                            0 <= j < pnd@.len() && #[trigger] elems(pnd@[j]).contains(x);
                    }
                }
                (Stage::Exact { pending: pnd, active: true }, Outcome::Yielded(b))
            } else {
                proof {
                    if !active {
                        assert(pending_union(pnd@) =~= Set::<u32>::empty());
                        assert(handed_set(coarser, cands@) =~= Set::<u32>::empty());
                    }
                }
                (Stage::Exact { pending: pnd, active: false }, Outcome::Yielded(bm_new()))
            }
        },
    }
}

/// Purges already-placed ids from a stage's own tracked state.
pub fn stage_purge(st: Stage, used: &RoaringBitmap) -> (r: Stage)
    ensures
        forall|rr: RankingRule| stage_matches(st, rr) ==> stage_matches(r, rr),
        forall|n: nat| stage_inv(st, n) ==> stage_inv(r, n),
        word_count(r) == word_count(st),
        stage_contents(r).subset_of(stage_contents(st).difference(elems(*used))),
{
    match st {
        Stage::Word { count, current } => {
            let mut cur = current;
            bm_subtract(&mut cur, used);
            Stage::Word { count, current: cur }
        },
        Stage::Typo { pending, current, active } => {
            let mut pnd = pending;
            let ghost before = pnd@;
            subtract_all(&mut pnd, used);
            let mut cur = current;
            bm_subtract(&mut cur, used);
            proof {
                assert forall|x: u32| pending_union(pnd@).contains(x) implies pending_union(
                    before,
                ).difference(elems(*used)).contains(x) by {
                    let j = choose|j: int|
                        0 <= j < pnd@.len() && #[trigger] elems(pnd@[j]).contains(x);
                    assert(elems(before[j]).contains(x));
                }
            }
            Stage::Typo { pending: pnd, current: cur, active }
        },
        Stage::Exact { pending, active } => {
            let mut pnd = pending;
            let ghost before = pnd@;
            subtract_all(&mut pnd, used);
            proof {
                assert forall|x: u32| pending_union(pnd@).contains(x) implies pending_union(
                    before,
                ).difference(elems(*used)).contains(x) by {
                    let j = choose|j: int|
                        0 <= j < pnd@.len() && #[trigger] elems(pnd@[j]).contains(x);
                    assert(elems(before[j]).contains(x));
                }
            }
            Stage::Exact { pending: pnd, active }
        },
    }
}

/// Fresh stage states for the configured pipeline, holding nothing yet.
pub fn build_stages(rules: &Vec<RankingRule>, ncand: usize) -> (r: Vec<Stage>)
    ensures
        r@.len() == rules@.len(),
        forall|i: int|
            0 <= i < r@.len() ==> stage_matches(#[trigger] r@[i], rules@[i]) && stage_inv(
                r@[i],
                ncand as nat,
            ) && stage_contents(r@[i]) == Set::<u32>::empty() && word_count(r@[i]) == (
            if rules@[i] == RankingRule::Word {
                ncand as nat
            } else {
                0
            }),
{
    let n = rules.len();
    let mut r: Vec<Stage> = Vec::new();
    let mut i: usize = 0;
    while i < n
        invariant
            i <= n,
            n == rules@.len(),
            r@.len() == i,
            forall|j: int|
                0 <= j < i ==> stage_matches(#[trigger] r@[j], rules@[j]) && stage_inv(
                    r@[j],
                    ncand as nat,
                ) && stage_contents(r@[j]) == Set::<u32>::empty() && word_count(r@[j]) == (
                if rules@[j] == RankingRule::Word {
                    ncand as nat
                } else {
                    0
                }),
        decreases n - i,
    {
        let st = match rules[i] {
            RankingRule::Word => Stage::Word { count: ncand, current: bm_new() },
            RankingRule::Typo => Stage::Typo {
                pending: Vec::new(),
                current: bm_new(),
                active: false,
            },
            RankingRule::Exact => Stage::Exact { pending: Vec::new(), active: false },
        };
        proof {
            assert(stage_contents(st) =~= Set::<u32>::empty());
        }
        r.push(st);
        i = i + 1;
    }
    r
}


pub proof fn lemma_pending_union_push(ps: Seq<RoaringBitmap>, b: RoaringBitmap)
    ensures
        pending_union(ps.push(b)) =~= pending_union(ps).union(elems(b)),
{
    assert forall|x: u32| pending_union(ps.push(b)).contains(x) implies pending_union(
        ps,
    ).union(elems(b)).contains(x) by {
        let j = choose|j: int|
            0 <= j < ps.push(b).len() && #[trigger] elems(ps.push(b)[j]).contains(x);
        if j < ps.len() {
            assert(ps.push(b)[j] == ps[j]);
            assert(elems(ps[j]).contains(x));
        } else {
            assert(ps.push(b)[j] == b);
        }
    }
    assert forall|x: u32|
        pending_union(ps).union(elems(b)).contains(x) implies pending_union(
        ps.push(b),
    ).contains(x) by {
        if pending_union(ps).contains(x) {
            let j = choose|j: int| 0 <= j < ps.len() && #[trigger] elems(ps[j]).contains(x);
            assert(ps.push(b)[j] == ps[j]);
            assert(elems(ps.push(b)[j]).contains(x));
        } else {
            assert(elems(ps.push(b)[ps.len() as int]).contains(x));
        }
    }
}


/// After one bucket is emitted and purged everywhere, the driver's
/// invariants hold again with the bucket counted as placed.
proof fn lemma_emission_invariants(
    resq: Seq<RoaringBitmap>,
    placed: Set<u32>,
    cpost: Seq<WordCandidate>,
    cpre: Seq<WordCandidate>,
    cands0: Seq<WordCandidate>,
    spost: Seq<Stage>,
    spre: Seq<Stage>,
)
    requires
        resq.len() >= 1,
        placed == pending_union(resq.drop_last()),
        pending_union(resq) == placed.union(elems(resq.last())),
        placed.finite(),
        elems(resq.last()).disjoint(placed),
        elems(resq.last()).finite(),
        elems(resq.last()).subset_of(union_all(cands0)),
        forall|i: int|
            0 <= i < resq.len() - 1 ==> (#[trigger] elems(resq[i])).finite() && elems(
                resq[i],
            ).subset_of(union_all(cands0)),
        forall|i: int, j: int|
            0 <= i < j < resq.len() - 1 ==> (#[trigger] elems(resq[i])).disjoint(
                #[trigger] elems(resq[j]),
            ),
        1 <= cpost.len(),
        cpost.len() == cpre.len(),
        cpre.len() == cands0.len(),
        forall|i: int|
            0 <= i < cpost.len() ==> (#[trigger] cpost[i]).universe() == cpre[
                i
            ].universe().difference(elems(resq.last())),
        forall|i: int|
            0 <= i < cpre.len() ==> (#[trigger] cpre[i].universe()).disjoint(placed) && cpre[
                i
            ].universe().subset_of(union_all(cands0)),
        spost.len() == spre.len(),
        forall|i: int|
            0 <= i < spost.len() ==> (#[trigger] stage_contents(spost[i])).subset_of(
                stage_contents(spre[i]).difference(elems(resq.last())),
            ),
        forall|i: int|
            0 <= i < spre.len() ==> (#[trigger] stage_contents(spre[i])).disjoint(placed)
                && stage_contents(spre[i]).subset_of(union_all(cands0)),
        cands0[0].universe().subset_of(placed.union(cpre[0].universe())),
    ensures
        forall|i: int, j: int|
            0 <= i < j < resq.len() ==> (#[trigger] elems(resq[i])).disjoint(
                #[trigger] elems(resq[j]),
            ),
        forall|i: int|
            0 <= i < resq.len() ==> (#[trigger] elems(resq[i])).finite() && elems(
                resq[i],
            ).subset_of(union_all(cands0)),
        forall|i: int|
            0 <= i < cpost.len() ==> (#[trigger] cpost[i].universe()).disjoint(
                pending_union(resq),
            ) && cpost[i].universe().subset_of(union_all(cands0)),
        forall|i: int|
            0 <= i < spost.len() ==> (#[trigger] stage_contents(spost[i])).disjoint(
                pending_union(resq),
            ) && stage_contents(spost[i]).subset_of(union_all(cands0)),
        cands0[0].universe().subset_of(pending_union(resq).union(cpost[0].universe())),
        pending_union(resq).finite(),
{
    let last = resq.len() - 1;
    assert forall|i: int| 0 <= i < last implies elems(resq[i]).subset_of(placed) by {
        assert forall|x: u32| elems(resq[i]).contains(x) implies placed.contains(x) by {
            assert(resq.drop_last()[i] == resq[i]);
            assert(elems(resq.drop_last()[i]).contains(x));
        }
    }
    assert(resq[last] == resq.last());
    assert forall|i: int, j: int| 0 <= i < j < resq.len() implies (#[trigger] elems(
        resq[i],
    )).disjoint(#[trigger] elems(resq[j])) by {
        if j == last {
            assert(elems(resq[i]).subset_of(placed));
        }
    }
    assert forall|i: int|
        0 <= i < cpost.len() implies (#[trigger] cpost[i].universe()).disjoint(
        pending_union(resq),
    ) && cpost[i].universe().subset_of(union_all(cands0)) by {
        assert(cpre[i].universe().disjoint(placed));
    }
    assert forall|i: int|
        0 <= i < spost.len() implies (#[trigger] stage_contents(spost[i])).disjoint(
        pending_union(resq),
    ) && stage_contents(spost[i]).subset_of(union_all(cands0)) by {
        assert(stage_contents(spre[i]).disjoint(placed));
    }
    assert forall|x: u32| cands0[0].universe().contains(x) implies pending_union(resq).union(
        cpost[0].universe(),
    ).contains(x) by {
        if placed.contains(x) {
        } else {
            assert(cpre[0].universe().contains(x));
            if elems(resq.last()).contains(x) {
            } else {
                assert(cpost[0].universe().contains(x));
            }
        }
    }
}

/// Purges already-placed ids from every candidate's buckets: each typo
/// bucket and the exact bitmap lose exactly the used ids, and the words
/// and positions stay as they were.
pub fn purge_cands(cands: &mut Vec<WordCandidate>, used: &RoaringBitmap)
    requires
        cands_wf(old(cands)@),
    ensures
        final(cands)@.len() == old(cands)@.len(),
        cands_wf(final(cands)@),
        forall|i: int|
            0 <= i < old(cands)@.len() ==> (#[trigger] final(cands)@[i]).universe() == old(
                cands,
            )@[i].universe().difference(elems(*used)),
        forall|i: int, j: int|
            0 <= i < old(cands)@.len() && 0 <= j < 4 ==> (#[trigger] final(cands)@[i].bucket(j))
                == old(cands)@[i].bucket(j).difference(elems(*used)),
        forall|i: int|
            0 <= i < old(cands)@.len() ==> {
                let c0 = old(cands)@[i];
                let c1 = (#[trigger] final(cands)@[i]);
                c1.normalized == c0.normalized && c1.original == c0.original && c1.index
                    == c0.index
            },
        forall|i: int|
            0 <= i < old(cands)@.len() ==> elems((#[trigger] final(cands)@[i]).exact) == elems(
                old(cands)@[i].exact,
            ).difference(elems(*used)),
{
    let n = cands.len();
    let mut i: usize = 0;
    while i < n
        invariant
            n == cands@.len(),
            cands@.len() == old(cands)@.len(),
            i <= n,
            cands_wf(old(cands)@),
            forall|j: int|
                0 <= j < i ==> (#[trigger] cands@[j]).wf() && cands@[j].universe() == old(
                    cands,
                )@[j].universe().difference(elems(*used)),
            forall|j: int, k: int|
                0 <= j < i && 0 <= k < 4 ==> (#[trigger] cands@[j].bucket(k)) == old(
                    cands,
                )@[j].bucket(k).difference(elems(*used)),
            forall|j: int|
                0 <= j < i ==> (#[trigger] cands@[j]).normalized == old(cands)@[j].normalized
                    && cands@[j].original == old(cands)@[j].original && cands@[j].index == old(
                    cands,
                )@[j].index,
            forall|j: int|
                0 <= j < i ==> elems((#[trigger] cands@[j]).exact) == elems(
                    old(cands)@[j].exact,
                ).difference(elems(*used)),
            forall|j: int| i <= j < n ==> cands@[j] == old(cands)@[j],
        decreases n - i,
    {
        let ghost prev = cands@;
        let mut c = cands.remove(i);
        c.purge(used);
        cands.insert(i, c);
        proof {
            assert forall|j: int| 0 <= j < prev.len() && j != i implies cands@[j] == prev[j] by {
                assert(cands@ =~= prev.remove(i as int).insert(i as int, cands@[i as int]));
            }
        }
        i = i + 1;
    }
}

/// Purges already-placed ids from every stage's state.
pub fn purge_stages(stages: &mut Vec<Stage>, used: &RoaringBitmap)
    ensures
        final(stages)@.len() == old(stages)@.len(),
        forall|i: int|
            0 <= i < old(stages)@.len() ==> {
                &&& forall|rr: RankingRule|
                    stage_matches(#[trigger] old(stages)@[i], rr) ==> stage_matches(
                        final(stages)@[i],
                        rr,
                    )
                &&& forall|n: nat|
                    stage_inv(old(stages)@[i], n) ==> stage_inv(#[trigger] final(stages)@[i], n)
                &&& word_count(final(stages)@[i]) == word_count(old(stages)@[i])
                &&& stage_contents(final(stages)@[i]).subset_of(
                    stage_contents(old(stages)@[i]).difference(elems(*used)),
                )
            },
{
    let n = stages.len();
    let mut i: usize = 0;
    while i < n
        invariant
            n == stages@.len(),
            stages@.len() == old(stages)@.len(),
            i <= n,
            forall|j: int|
                0 <= j < i ==> {
                    &&& forall|rr: RankingRule|
                        stage_matches(#[trigger] old(stages)@[j], rr) ==> stage_matches(
                            stages@[j],
                            rr,
                        )
                    &&& forall|n2: nat|
                        stage_inv(old(stages)@[j], n2) ==> stage_inv(#[trigger] stages@[j], n2)
                    &&& word_count(stages@[j]) == word_count(old(stages)@[j])
                    &&& stage_contents(stages@[j]).subset_of(
                        stage_contents(old(stages)@[j]).difference(elems(*used)),
                    )
                },
            forall|j: int| i <= j < n ==> stages@[j] == old(stages)@[j],
        decreases n - i,
    {
        let ghost prev = stages@;
        let st = stages.remove(i);
        let st2 = stage_purge(st, used);
        stages.insert(i, st2);
        proof {
            assert forall|j: int| 0 <= j < prev.len() && j != i implies stages@[j] == prev[j] by {
                assert(stages@ =~= prev.remove(i as int).insert(i as int, stages@[i as int]));
            }
        }
        i = i + 1;
    }
}

/// Runs the cascade until the emitted buckets hold at least `limit` ids or
/// nothing more can be placed. The returned buckets are pairwise
/// disjoint, and every id they hold was matched for some query word; when
/// the coarsest stage is the word conjunction, the search is exhausted
/// only once every id matched for the first query word has been placed.
pub fn run_cascade(rules: &Vec<RankingRule>, cands: &mut Vec<WordCandidate>, limit: usize) -> (res:
    Vec<RoaringBitmap>)
    requires
        rules@.len() >= 1,
        1 <= old(cands)@.len() <= 100_000_000,
        cands_wf(old(cands)@),
    ensures
        forall|i: int, j: int|
            0 <= i < j < res@.len() ==> (#[trigger] elems(res@[i])).disjoint(
                #[trigger] elems(res@[j]),
            ),
        forall|i: int|
            0 <= i < res@.len() ==> (#[trigger] elems(res@[i])).finite() && elems(
                res@[i],
            ).subset_of(union_all(old(cands)@)),
        pending_union(res@).finite(),
        rules@.len() > 0 && rules@[0] == RankingRule::Word ==> pending_union(res@).len() >= limit
            || old(cands)@[0].universe().subset_of(pending_union(res@)),
        rules@.len() > 0 && rules@[0] == RankingRule::Word ==> forall|i: int|
            0 <= i < res@.len() ==> (#[trigger] elems(res@[i])).subset_of(
                old(cands)@[0].universe(),
            ),
        rules@ =~= seq![RankingRule::Word] ==> forall|j1: int, j2: int, x1: u32, x2: u32|
            0 <= j1 < j2 < res@.len() && #[trigger] elems(res@[j1]).contains(x1)
                && #[trigger] elems(res@[j2]).contains(x2) ==> lead_matched(old(cands)@, x1)
                > lead_matched(old(cands)@, x2),
        rules@ =~= seq![RankingRule::Word] ==> forall|j: int, x1: u32, x2: u32|
            0 <= j < res@.len() && #[trigger] elems(res@[j]).contains(x1) && #[trigger] elems(
                res@[j],
            ).contains(x2) ==> lead_matched(old(cands)@, x1) == lead_matched(old(cands)@, x2),
{
    let ghost cands0 = cands@;
    let ncand = cands.len();
    let mut stages = build_stages(rules, ncand);
    let mut cursor: usize = 0;
    let mut total: u64 = 0;
    let mut res: Vec<RoaringBitmap> = Vec::new();
    proof {
        assert(pending_union(res@) =~= Set::<u32>::empty());
        assert forall|x: u32| union_all(cands@).contains(x) implies union_all(
            cands0,
        ).contains(x) by {}
    }
    // a step budget bounds the cursor walk, as a guard against pathological
    // pipelines; it is sized far above what the built-in stages can spend
    // per placed document, query word and stage, and for the plain word
    // pipeline it provably never runs out before the search is exhausted
    let live0 = union_universes(cands);
    let ulen = bm_len(&live0);
    let ns: u64 = rules.len() as u64;
    let per_stage: u64 = if ns >= 0x8000 {
        0x1_0004
    } else {
        2 * ns + 4
    };
    let base: u64 = ulen + (ncand as u64) + 4;
    proof {
        assert(base * per_stage <= 0x2_0000_0000 * 0x1_0004) by (nonlinear_arith)
            requires
                0 <= base <= 0x2_0000_0000,
                0 <= per_stage <= 0x1_0004,
        ;
    }
    let mut fuel: u64 = base * per_stage;
    proof {
        assert(fuel >= ulen + 2) by (nonlinear_arith)
            requires
                fuel == base * per_stage,
                base >= ulen + 4,
                per_stage >= 6,
                ulen >= 0,
        ;
    }
    let ghost u0len = union_all(cands0).len();
    proof {
        if rules@ =~= seq![RankingRule::Word] {
            assert forall|y: u32|
                !(#[trigger] pending_union(res@).contains(y)) implies lead_matched(cands0, y)
                <= word_count(stages@[0]) by {
                lemma_lead_from_le_len(cands0, 0, y);
            }
        }
    }
    let mut exhausted: bool = false;
    while fuel > 0 && !exhausted && total < limit as u64
        invariant
            u0len == union_all(cands0).len(),
            cands0 == old(cands)@,
            cands_wf(cands0),
            rules@ =~= seq![RankingRule::Word] ==> total <= u0len && (!exhausted ==> fuel >= 1
                + u0len - total),
            rules@.len() >= 1,
            stages@.len() == rules@.len(),
            cursor < stages@.len(),
            ncand == cands@.len(),
            cands0.len() == ncand,
            1 <= ncand <= 100_000_000,
            cands_wf(cands@),
            forall|i: int|
                0 <= i < stages@.len() ==> stage_inv(#[trigger] stages@[i], ncand as nat)
                    && stage_matches(stages@[i], rules@[i]),
            forall|i: int|
                0 <= i < stages@.len() ==> (#[trigger] stage_contents(stages@[i])).disjoint(
                    pending_union(res@),
                ) && stage_contents(stages@[i]).subset_of(union_all(cands0)),
            forall|i: int|
                0 <= i < ncand ==> (#[trigger] cands@[i].universe()).disjoint(pending_union(res@))
                    && cands@[i].universe().subset_of(union_all(cands0)),
            forall|i: int|
                0 <= i < ncand ==> (#[trigger] cands@[i].universe()).subset_of(
                    cands0[i].universe(),
                ),
            forall|i: int|
                0 <= i < ncand ==> #[trigger] cands@[i].universe() == cands0[
                    i
                ].universe().difference(pending_union(res@)),
            rules@ =~= seq![RankingRule::Word] ==> forall|j1: int, j2: int, x1: u32, x2: u32|
                0 <= j1 < j2 < res@.len() && #[trigger] elems(res@[j1]).contains(x1)
                    && #[trigger] elems(res@[j2]).contains(x2) ==> lead_matched(cands0, x1)
                    > lead_matched(cands0, x2),
            rules@ =~= seq![RankingRule::Word] ==> forall|j: int, x: u32, y: u32|
                0 <= j < res@.len() && #[trigger] elems(res@[j]).contains(x) && !(
                #[trigger] pending_union(res@).contains(y)) ==> lead_matched(cands0, x)
                    > lead_matched(cands0, y),
            rules@ =~= seq![RankingRule::Word] ==> forall|j: int, x1: u32, x2: u32|
                0 <= j < res@.len() && #[trigger] elems(res@[j]).contains(x1) && #[trigger] elems(
                    res@[j],
                ).contains(x2) ==> lead_matched(cands0, x1) == lead_matched(cands0, x2),
            rules@ =~= seq![RankingRule::Word] ==> forall|y: u32|
                !(#[trigger] pending_union(res@).contains(y)) ==> lead_matched(cands0, y)
                    <= word_count(stages@[0]),
            rules@[0] == RankingRule::Word ==> forall|i: int|
                0 <= i < stages@.len() ==> (#[trigger] stage_contents(stages@[i])).subset_of(
                    cands0[0].universe(),
                ),
            rules@[0] == RankingRule::Word ==> forall|j: int|
                0 <= j < res@.len() ==> (#[trigger] elems(res@[j])).subset_of(
                    cands0[0].universe(),
                ),
            forall|i: int, j: int|
                0 <= i < j < res@.len() ==> (#[trigger] elems(res@[i])).disjoint(
                    #[trigger] elems(res@[j]),
                ),
            forall|i: int|
                0 <= i < res@.len() ==> (#[trigger] elems(res@[i])).finite() && elems(
                    res@[i],
                ).subset_of(union_all(cands0)),
            pending_union(res@).finite(),
            total == pending_union(res@).len(),
            cands0[0].universe().subset_of(pending_union(res@).union(cands@[0].universe())),
            (rules@[0] == RankingRule::Word && word_count(stages@[0]) == 0 ==> cands@[0].universe()
                =~= Set::<u32>::empty()),
            exhausted && rules@[0] == RankingRule::Word ==> cands@[0].universe()
                =~= Set::<u32>::empty(),
        decreases fuel,
    {
        fuel = fuel - 1;
        let coarser_bm: Option<RoaringBitmap> = if cursor > 0 {
            Some(stage_current_clone(&stages[cursor - 1]))
        } else {
            None
        };
        let coarser_ref: Option<&RoaringBitmap> = coarser_bm.as_ref();
        let ghost placed = pending_union(res@);
        let ghost cprev = cands@;
        let ghost sprev = stages@;
        proof {
            assert forall|i: int|
                0 <= i < ncand implies (#[trigger] cprev[i].universe()).subset_of(
                cands0[i].universe(),
            ) by {
                assert(cands@[i].universe().subset_of(cands0[i].universe()));
            }
            if rules@[0] == RankingRule::Word {
                assert forall|i: int|
                    0 <= i < sprev.len() implies (#[trigger] stage_contents(sprev[i])).subset_of(
                    cands0[0].universe(),
                ) by {
                    assert(stage_contents(stages@[i]).subset_of(cands0[0].universe()));
                }
            }
        }
        let st = stages.remove(cursor);
        let ghost st_in = st;
        let (st2, oc) = stage_advance(st, coarser_ref, cands);
        stages.insert(cursor, st2);
        proof {
            assert forall|j: int|
                0 <= j < sprev.len() && j != cursor implies stages@[j] == sprev[j] by {
                assert(stages@ =~= sprev.remove(cursor as int).insert(
                    cursor as int,
                    stages@[cursor as int],
                ));
            }
            assert(stages@[cursor as int] == st2);
            assert forall|x: u32| union_all(cands@).contains(x) implies union_all(
                cands0,
            ).contains(x) && !placed.contains(x) by {
                let i = choose|i: int|
                    0 <= i < cands@.len() && (#[trigger] cands@[i].universe()).contains(x);
            }
            assert forall|x: u32| avail(st_in, coarser_ref, cands@).contains(
                x,
            ) implies union_all(cands0).contains(x) && !placed.contains(x) by {
                if stage_contents(st_in).contains(x) {
                    assert(stage_contents(sprev[cursor as int]).contains(x));
                } else if !union_all(cands@).contains(x) {
                    assert(cursor > 0 && elems(coarser_bm.unwrap()).contains(x));
                    assert(stage_contents(sprev[cursor - 1]).contains(x));
                }
            }
            assert(stage_contents(st2).disjoint(pending_union(res@)));
            assert(stage_contents(st2).subset_of(union_all(cands0)));
            assert forall|i: int|
                0 <= i < stages@.len() implies stage_inv(#[trigger] stages@[i], ncand as nat)
                    && stage_matches(stages@[i], rules@[i]) by {
                if i != cursor {
                    assert(stages@[i] == sprev[i]);
                }
            }
            if rules@[0] == RankingRule::Word {
                assert(stage_matches(st_in, rules@[cursor as int]));
                if rules@[cursor as int] == RankingRule::Word {
                    assert(stage_contents(st2).subset_of(cands@[0].universe()));
                    assert(stage_contents(st2).subset_of(cands0[0].universe()));
                } else if stage_active(st_in) {
                    assert(stage_contents(st2).subset_of(stage_contents(st_in)));
                    assert(stage_contents(sprev[cursor as int]).subset_of(
                        cands0[0].universe(),
                    ));
                } else {
                    assert(cursor > 0);
                    assert(elems(coarser_bm.unwrap()).subset_of(
                        stage_contents(sprev[cursor - 1]),
                    ));
                    assert(stage_contents(sprev[cursor - 1]).subset_of(cands0[0].universe()));
                    assert(handed_set(coarser_ref, cands@).subset_of(cands0[0].universe()));
                    if rules@[cursor as int] == RankingRule::Typo {
                        assert(stage_contents(st2) =~= handed_set(coarser_ref, cands@));
                    } else {
                        assert(rules@[cursor as int] == RankingRule::Exact);
                        match &oc {
                            Outcome::Yielded(b) => {
                                assert(stage_contents(st2).union(elems(*b)) =~= handed_set(
                                    coarser_ref,
                                    cands@,
                                ));
                            },
                            Outcome::Descend => {
                                assert(false);
                            },
                        }
                    }
                }
                assert(stage_contents(st2).subset_of(cands0[0].universe()));
                assert forall|i: int|
                    0 <= i < stages@.len() implies (#[trigger] stage_contents(
                    stages@[i],
                )).subset_of(cands0[0].universe()) by {
                    if i != cursor {
                        assert(stages@[i] == sprev[i]);
                        assert(stage_contents(sprev[i]).subset_of(cands0[0].universe()));
                    }
                }
                match &oc {
                    Outcome::Yielded(b) => {
                        if rules@[cursor as int] == RankingRule::Word {
                            assert(elems(*b) =~= Set::<u32>::empty());
                        } else if stage_active(st_in) {
                            assert(elems(*b).subset_of(stage_contents(st_in)));
                        } else if rules@[cursor as int] == RankingRule::Typo {
                            assert(elems(*b) =~= Set::<u32>::empty());
                        } else {
                            assert(stage_contents(st2).union(elems(*b)) =~= handed_set(
                                coarser_ref,
                                cands@,
                            ));
                            assert(elems(*b).subset_of(handed_set(coarser_ref, cands@)));
                        }
                        assert(elems(*b).subset_of(cands0[0].universe()));
                    },
                    Outcome::Descend => {},
                }
            }
            if rules@ =~= seq![RankingRule::Word] {
                // the remaining conjunction width still bounds what any
                // unplaced document can match
                assert(stage_matches(st_in, RankingRule::Word));
                assert(word_count(st_in) == word_count(sprev[0]));
                match &oc {
                    Outcome::Descend => {
                        let cw = word_count(st2) as int;
                        assert forall|y: u32|
                            !(#[trigger] pending_union(res@).contains(y)) implies lead_matched(
                            cands0,
                            y,
                        ) <= cw by {
                            assert(lead_matched(cands0, y) <= word_count(st_in));
                            if lead_matched(cands0, y) > cw {
                                let ld = lead_matched(cands0, y);
                                assert(inter_to(cprev, ld) =~= Set::<u32>::empty());
                                lemma_lead_from_members(cands0, 0, y);
                                assert forall|i2: int|
                                    0 <= i2 < ld implies (#[trigger] cprev[
                                    i2
                                ].universe()).contains(y) by {
                                    assert(cands0[i2].universe().contains(y));
                                    assert(cprev[i2].universe() == cands0[
                                        i2
                                    ].universe().difference(placed));
                                }
                                lemma_inter_to_iff(cprev, ld, y);
                                assert(inter_to(cprev, ld).contains(y));
                                assert(false);
                            }
                        }
                    },
                    Outcome::Yielded(b) => {
                        assert(word_count(st2) == 0);
                        if word_count(st_in) > 0 {
                            assert(cands@[0].universe() =~= Set::<u32>::empty());
                        } else {
                            assert(cands@[0].universe() =~= Set::<u32>::empty());
                        }
                        assert forall|y: u32|
                            !(#[trigger] pending_union(res@).contains(y)) implies lead_matched(
                            cands0,
                            y,
                        ) <= 0 by {
                            if lead_matched(cands0, y) >= 1 {
                                lemma_lead_from_members(cands0, 0, y);
                                assert(cands0[0].universe().contains(y));
                                assert(cands@[0].universe() == cands0[0].universe().difference(
                                    pending_union(res@),
                                ));
                                assert(cands@[0].universe().contains(y));
                                assert(false);
                            }
                        }
                    },
                }
            }
        }
        match oc {
            Outcome::Descend => {
                if cursor == stages.len() - 1 {
                    let bucket = stage_current_clone(&stages[cursor]);
                    proof {
                        assert(elems(bucket).subset_of(stage_contents(st2)));
                        assert(elems(bucket).disjoint(placed));
                        assert(elems(bucket).subset_of(union_all(cands0)));
                    }
                    let ghost sall = stages@;
                    let ghost rprev = res@;
                    proof {
                        if rules@ =~= seq![RankingRule::Word] {
                            assert forall|j1: int, j2: int, x1: u32, x2: u32|
                                0 <= j1 < j2 < rprev.len() && #[trigger] elems(
                                    rprev[j1],
                                ).contains(x1) && #[trigger] elems(rprev[j2]).contains(
                                    x2,
                                ) implies lead_matched(cands0, x1) > lead_matched(
                                cands0,
                                x2,
                            ) by {
                                assert(elems(res@[j1]).contains(x1));
                                assert(elems(res@[j2]).contains(x2));
                            }
                            assert forall|j: int, x: u32, y: u32|
                                0 <= j < rprev.len() && #[trigger] elems(rprev[j]).contains(x)
                                    && !(#[trigger] placed.contains(y)) implies lead_matched(
                                cands0,
                                x,
                            ) > lead_matched(cands0, y) by {
                                assert(elems(res@[j]).contains(x));
                                assert(!pending_union(res@).contains(y));
                            }
                        }
                        if rules@[0] == RankingRule::Word {
                            assert forall|i2: int|
                                0 <= i2 < sall.len() implies (#[trigger] stage_contents(
                                sall[i2],
                            )).subset_of(cands0[0].universe()) by {
                                assert(stage_contents(stages@[i2]).subset_of(
                                    cands0[0].universe(),
                                ));
                            }
                            assert forall|j2: int|
                                0 <= j2 < rprev.len() implies (#[trigger] elems(
                                rprev[j2],
                            )).subset_of(cands0[0].universe()) by {
                                assert(elems(res@[j2]).subset_of(cands0[0].universe()));
                            }
                        }
                    }
                    purge_cands(cands, &bucket);
                    purge_stages(&mut stages, &bucket);
                    let bl = bm_len(&bucket);
                    proof {
                        lemma_pending_union_push(res@, bucket);
                        vstd::set_lib::lemma_set_disjoint_lens(placed, elems(bucket));
                    }
                    res.push(bucket);
                    proof {
                        assert(res@.drop_last() =~= rprev);
                        assert(res@.last() == bucket);
                        assert(pending_union(res@) == placed.union(elems(bucket)));
                        assert forall|i: int|
                            0 <= i < sall.len() implies (#[trigger] stage_contents(
                            sall[i],
                        )).disjoint(placed) && stage_contents(sall[i]).subset_of(
                            union_all(cands0),
                        ) by {
                            if i != cursor {
                                assert(sall[i] == sprev[i]);
                            }
                        }
                        lemma_emission_invariants(
                            res@,
                            placed,
                            cands@,
                            cprev,
                            cands0,
                            stages@,
                            sall,
                        );
                        assert forall|i: int|
                            0 <= i < stages@.len() implies stage_inv(
                            #[trigger] stages@[i],
                            ncand as nat,
                        ) && stage_matches(stages@[i], rules@[i]) by {
                            assert(stage_inv(sall[i], ncand as nat));
                            assert(stage_matches(sall[i], rules@[i]));
                        }
                        assert forall|i2: int|
                            0 <= i2 < ncand implies (#[trigger] cands@[i2].universe()).subset_of(
                            cands0[i2].universe(),
                        ) by {
                            assert(cands@[i2].universe() == cprev[i2].universe().difference(
                                elems(res@.last()),
                            ));
                            assert(cprev[i2].universe().subset_of(cands0[i2].universe()));
                        }
                        if rules@[0] == RankingRule::Word {
                            assert forall|i2: int|
                                0 <= i2 < stages@.len() implies (#[trigger] stage_contents(
                                stages@[i2],
                            )).subset_of(cands0[0].universe()) by {
                                assert(stage_contents(stages@[i2]).subset_of(
                                    stage_contents(sall[i2]).difference(elems(res@.last())),
                                ));
                                assert(stage_contents(sall[i2]).subset_of(
                                    cands0[0].universe(),
                                ));
                            }
                            assert forall|j2: int|
                                0 <= j2 < res@.len() implies (#[trigger] elems(
                                res@[j2],
                            )).subset_of(cands0[0].universe()) by {
                                if j2 < res@.len() - 1 {
                                    assert(res@[j2] == rprev[j2]);
                                    assert(elems(rprev[j2]).subset_of(cands0[0].universe()));
                                }
                            }
                        }
                        if rules@ =~= seq![RankingRule::Word] {
                            let cw = word_count(st2) as int;
                            assert(stage_matches(st_in, RankingRule::Word));
                            assert(1 <= cw <= cprev.len());
                            assert(elems(res@.last()) == inter_to(cprev, cw));
                            assert forall|x: u32|
                                elems(res@.last()).contains(x) implies lead_matched(cands0, x)
                                >= cw by {
                                lemma_inter_to_iff(cprev, cw, x);
                                assert forall|i2: int|
                                    0 <= i2 < cw implies (#[trigger] cands0[
                                    i2
                                ].universe()).contains(x) by {
                                    assert(cprev[i2].universe().contains(x));
                                    assert(cprev[i2].universe() == cands0[
                                        i2
                                    ].universe().difference(placed));
                                }
                                lemma_lead_from_lower(cands0, 0, cw, x);
                            }
                            assert forall|y: u32|
                                !(#[trigger] pending_union(res@).contains(y)) implies lead_matched(
                                cands0,
                                y,
                            ) < cw by {
                                if forall|i2: int|
                                    0 <= i2 < cw ==> (#[trigger] cands0[i2].universe()).contains(
                                        y,
                                    ) {
                                    assert forall|i2: int|
                                        0 <= i2 < cw implies (#[trigger] cprev[
                                        i2
                                    ].universe()).contains(y) by {
                                        assert(cprev[i2].universe() == cands0[
                                            i2
                                        ].universe().difference(placed));
                                        assert(!placed.contains(y));
                                    }
                                    lemma_inter_to_iff(cprev, cw, y);
                                    assert(inter_to(cprev, cw).contains(y));
                                    assert(elems(res@.last()).contains(y));
                                    assert(elems(res@[res@.len() - 1]).contains(y));
                                    assert(pending_union(res@).contains(y));
                                    assert(false);
                                } else {
                                    let i0 = choose|i2: int|
                                        0 <= i2 < cw && !(#[trigger] cands0[
                                            i2
                                        ].universe()).contains(y);
                                    lemma_lead_from_upper(cands0, 0, i0, y);
                                }
                            }
                            assert forall|j1: int, j2: int, x1: u32, x2: u32|
                                0 <= j1 < j2 < res@.len() && #[trigger] elems(
                                    res@[j1],
                                ).contains(x1) && #[trigger] elems(res@[j2]).contains(
                                    x2,
                                ) implies lead_matched(cands0, x1) > lead_matched(
                                cands0,
                                x2,
                            ) by {
                                if j2 == res@.len() - 1 {
                                    assert(res@[j1] == rprev[j1]);
                                    assert(elems(rprev[j1]).contains(x1));
                                    assert(elems(res@.last()).contains(x2));
                                    assert(!placed.contains(x2));
                                } else {
                                    assert(res@[j1] == rprev[j1]);
                                    assert(res@[j2] == rprev[j2]);
                                    assert(elems(rprev[j1]).contains(x1));
                                    assert(elems(rprev[j2]).contains(x2));
                                }
                            }
                            assert forall|j: int, x: u32, y: u32|
                                0 <= j < res@.len() && #[trigger] elems(res@[j]).contains(x) && !(
                                #[trigger] pending_union(res@).contains(y)) implies lead_matched(
                                cands0,
                                x,
                            ) > lead_matched(cands0, y) by {
                                assert(!placed.contains(y));
                                if j == res@.len() - 1 {
                                    assert(elems(res@.last()).contains(x));
                                } else {
                                    assert(res@[j] == rprev[j]);
                                    assert(elems(rprev[j]).contains(x));
                                }
                            }
                        }
                        assert(pending_union(res@).len() == total + bl);
                        if rules@ =~= seq![RankingRule::Word] {
                            assert(stage_matches(st_in, RankingRule::Word));
                            if elems(res@.last()).len() == 0 {
                                elems(res@.last()).lemma_len0_is_empty();
                                assert(false);
                            }
                            lemma_union_all_finite(cands0);
                            vstd::set_lib::lemma_len_subset(
                                pending_union(res@),
                                union_all(cands0),
                            );
                        }
                    }
                    if u64::MAX - total < bl {
                        // more ids placed than any limit could ask for
                        proof {
                            assert(pending_union(res@).len() >= limit as nat);
                        }
                        return res;
                    }
                    total = total + bl;
                } else {
                    cursor = cursor + 1;
                }
            },
            Outcome::Yielded(bucket) => {
                if bm_is_empty(&bucket) {
                    if cursor == 0 {
                        proof {
                            if rules@[0] == RankingRule::Word {
                                assert(stage_matches(st_in, RankingRule::Word));
                                assert(word_count(st2) == 0);
                                if word_count(st_in) > 0 {
                                } else {
                                    assert(word_count(sprev[0]) == 0);
                                }
                                assert(cands@[0].universe() =~= Set::<u32>::empty());
                            }
                        }
                        exhausted = true;
                    } else {
                        cursor = cursor - 1;
                        proof {
                            lemma_pending_union_push(res@, bucket);
                            assert(elems(bucket) =~= Set::<u32>::empty());
                        }
                        res.push(bucket);
                        proof {
                            assert(pending_union(res@) =~= placed);
                            assert(total == pending_union(res@).len());
                        }
                    }
                } else {
                    proof {
                        if rules@ =~= seq![RankingRule::Word] {
                            assert(stage_matches(st_in, RankingRule::Word));
                            assert(false);
                        }
                        assert(elems(bucket).disjoint(placed));
                        assert(elems(bucket).subset_of(union_all(cands0)));
                    }
                    let ghost sall = stages@;
                    let ghost rprev = res@;
                    proof {
                        if rules@ =~= seq![RankingRule::Word] {
                            assert forall|j1: int, j2: int, x1: u32, x2: u32|
                                0 <= j1 < j2 < rprev.len() && #[trigger] elems(
                                    rprev[j1],
                                ).contains(x1) && #[trigger] elems(rprev[j2]).contains(
                                    x2,
                                ) implies lead_matched(cands0, x1) > lead_matched(
                                cands0,
                                x2,
                            ) by {
                                assert(elems(res@[j1]).contains(x1));
                                assert(elems(res@[j2]).contains(x2));
                            }
                            assert forall|j: int, x: u32, y: u32|
                                0 <= j < rprev.len() && #[trigger] elems(rprev[j]).contains(x)
                                    && !(#[trigger] placed.contains(y)) implies lead_matched(
                                cands0,
                                x,
                            ) > lead_matched(cands0, y) by {
                                assert(elems(res@[j]).contains(x));
                                assert(!pending_union(res@).contains(y));
                            }
                        }
                        if rules@[0] == RankingRule::Word {
                            assert forall|i2: int|
                                0 <= i2 < sall.len() implies (#[trigger] stage_contents(
                                sall[i2],
                            )).subset_of(cands0[0].universe()) by {
                                assert(stage_contents(stages@[i2]).subset_of(
                                    cands0[0].universe(),
                                ));
                            }
                            assert forall|j2: int|
                                0 <= j2 < rprev.len() implies (#[trigger] elems(
                                rprev[j2],
                            )).subset_of(cands0[0].universe()) by {
                                assert(elems(res@[j2]).subset_of(cands0[0].universe()));
                            }
                        }
                    }
                    purge_cands(cands, &bucket);
                    purge_stages(&mut stages, &bucket);
                    let bl = bm_len(&bucket);
                    proof {
                        lemma_pending_union_push(res@, bucket);
                        vstd::set_lib::lemma_set_disjoint_lens(placed, elems(bucket));
                    }
                    res.push(bucket);
                    proof {
                        assert(res@.drop_last() =~= rprev);
                        assert(res@.last() == bucket);
                        assert(pending_union(res@) == placed.union(elems(bucket)));
                        assert forall|i: int|
                            0 <= i < sall.len() implies (#[trigger] stage_contents(
                            sall[i],
                        )).disjoint(placed) && stage_contents(sall[i]).subset_of(
                            union_all(cands0),
                        ) by {
                            if i != cursor {
                                assert(sall[i] == sprev[i]);
                            }
                        }
                        lemma_emission_invariants(
                            res@,
                            placed,
                            cands@,
                            cprev,
                            cands0,
                            stages@,
                            sall,
                        );
                        assert forall|i: int|
                            0 <= i < stages@.len() implies stage_inv(
                            #[trigger] stages@[i],
                            ncand as nat,
                        ) && stage_matches(stages@[i], rules@[i]) by {
                            assert(stage_inv(sall[i], ncand as nat));
                            assert(stage_matches(sall[i], rules@[i]));
                        }
                        assert forall|i2: int|
                            0 <= i2 < ncand implies (#[trigger] cands@[i2].universe()).subset_of(
                            cands0[i2].universe(),
                        ) by {
                            assert(cands@[i2].universe() == cprev[i2].universe().difference(
                                elems(res@.last()),
                            ));
                            assert(cprev[i2].universe().subset_of(cands0[i2].universe()));
                        }
                        if rules@[0] == RankingRule::Word {
                            assert forall|i2: int|
                                0 <= i2 < stages@.len() implies (#[trigger] stage_contents(
                                stages@[i2],
                            )).subset_of(cands0[0].universe()) by {
                                assert(stage_contents(stages@[i2]).subset_of(
                                    stage_contents(sall[i2]).difference(elems(res@.last())),
                                ));
                                assert(stage_contents(sall[i2]).subset_of(
                                    cands0[0].universe(),
                                ));
                            }
                            assert forall|j2: int|
                                0 <= j2 < res@.len() implies (#[trigger] elems(
                                res@[j2],
                            )).subset_of(cands0[0].universe()) by {
                                if j2 < res@.len() - 1 {
                                    assert(res@[j2] == rprev[j2]);
                                    assert(elems(rprev[j2]).subset_of(cands0[0].universe()));
                                }
                            }
                        }
                        assert(pending_union(res@).len() == total + bl);
                        if rules@ =~= seq![RankingRule::Word] {
                            assert(stage_matches(st_in, RankingRule::Word));
                            lemma_union_all_finite(cands0);
                            vstd::set_lib::lemma_len_subset(
                                pending_union(res@),
                                union_all(cands0),
                            );
                        }
                    }
                    if u64::MAX - total < bl {
                        proof {
                            assert(pending_union(res@).len() >= limit as nat);
                        }
                        return res;
                    }
                    total = total + bl;
                }
            },
        }
    }
    if !exhausted && total < limit as u64 {
        // the step budget ran out before the limit was reached: hand the
        // first query word's remaining matches back in one final unranked
        // bucket, so no first-word match is ever lost to the budget
        let rest = cands[0].universe_bitmap();
        if !bm_is_empty(&rest) {
            proof {
                lemma_pending_union_push(res@, rest);
                assert(elems(rest).disjoint(pending_union(res@)));
                assert(elems(rest).subset_of(union_all(cands0)));
            }
            let ghost rprev = res@;
            res.push(rest);
            proof {
                assert(res@.drop_last() =~= rprev);
                assert(res@.last() == rest);
                assert forall|i: int, j: int|
                    0 <= i < j < res@.len() implies (#[trigger] elems(res@[i])).disjoint(
                    #[trigger] elems(res@[j]),
                ) by {
                    if j == res@.len() - 1 {
                        assert(res@[i] == rprev[i]);
                        assert forall|x: u32|
                            elems(rprev[i]).contains(x) implies pending_union(rprev).contains(
                            x,
                        ) by {}
                    }
                }
            }
        }
    }
    proof {
        if rules@.len() > 0 && rules@[0] == RankingRule::Word {
            if exhausted {
                assert(cands@[0].universe() =~= Set::<u32>::empty());
                assert forall|x: u32| old(cands)@[0].universe().contains(x) implies pending_union(
                    res@,
                ).contains(x) by {}
            } else if total < limit as u64 {
                // the budget path: everything the first word still matched
                // went into the final bucket
                assert forall|x: u32| old(cands)@[0].universe().contains(x) implies pending_union(
                    res@,
                ).contains(x) by {}
            }
        }
    }
    res
}


} // verus!
