//! Trusted view of `roaring::RoaringBitmap` as a finite set of `u32` ids.
//!
//! The engine stores every group of document ids in a roaring bitmap. The
//! contracts below state what each bitmap operation does to the set of ids
//! the bitmap holds; everything built on top of them is verified.

use vstd::prelude::*;
use roaring::RoaringBitmap;

verus! {

#[verifier::external_type_specification]
#[verifier::external_body]
pub struct ExRoaringBitmap(RoaringBitmap);

/// The set of ids a roaring bitmap holds.
pub uninterp spec fn elems(b: RoaringBitmap) -> Set<u32>;

/// Relies on RoaringBitmap::new: a fresh bitmap holds nothing.
#[verifier::external_body]
pub fn bm_new() -> (r: RoaringBitmap)
    ensures
        elems(r) == Set::<u32>::empty(),
{
    RoaringBitmap::new()
}

/// Relies on RoaringBitmap::insert: adds one id to the bitmap.
#[verifier::external_body]
pub fn bm_insert(b: &mut RoaringBitmap, x: u32)
    ensures
        elems(*final(b)) == elems(*old(b)).insert(x),
{
    b.insert(x);
}

/// Relies on RoaringBitmap::contains.
#[verifier::external_body]
pub fn bm_contains(b: &RoaringBitmap, x: u32) -> (r: bool)
    ensures
        r == elems(*b).contains(x),
{
    b.contains(x)
}

/// Relies on RoaringBitmap::is_empty.
#[verifier::external_body]
pub fn bm_is_empty(b: &RoaringBitmap) -> (r: bool)
    ensures
        r == (elems(*b) == Set::<u32>::empty()),
{
    b.is_empty()
}

/// Relies on RoaringBitmap::len: the number of ids held, never more than
/// the number of distinct 32-bit ids.
#[verifier::external_body]
pub fn bm_len(b: &RoaringBitmap) -> (r: u64)
    requires
        elems(*b).finite(),
    ensures
        r == elems(*b).len() && r <= 0x1_0000_0000,
{
    b.len()
}

/// Relies on RoaringBitmap::clone: the copy holds the same ids.
#[verifier::external_body]
pub fn bm_clone(b: &RoaringBitmap) -> (r: RoaringBitmap)
    ensures
        elems(r) == elems(*b),
{
    b.clone()
}

/// Relies on BitOrAssign for &RoaringBitmap: in-place union.
#[verifier::external_body]
pub fn bm_union(b: &mut RoaringBitmap, o: &RoaringBitmap)
    ensures
        elems(*final(b)) == elems(*old(b)).union(elems(*o)),
{
    *b |= o;
}

/// Relies on BitAndAssign for &RoaringBitmap: in-place intersection.
#[verifier::external_body]
pub fn bm_intersect(b: &mut RoaringBitmap, o: &RoaringBitmap)
    ensures
        elems(*final(b)) == elems(*old(b)).intersect(elems(*o)),
{
    *b &= o;
}

/// Relies on SubAssign for &RoaringBitmap: in-place difference.
#[verifier::external_body]
pub fn bm_subtract(b: &mut RoaringBitmap, o: &RoaringBitmap)
    ensures
        elems(*final(b)) == elems(*old(b)).difference(elems(*o)),
{
    *b -= o;
}

/// Subtracts `o` from the bitmap at position `k`, leaving the rest alone.
pub fn subtract_at(v: &mut Vec<RoaringBitmap>, k: usize, o: &RoaringBitmap)
    requires
        k < old(v)@.len(),
    ensures
        final(v)@.len() == old(v)@.len(),
        elems(final(v)@[k as int]) == elems(old(v)@[k as int]).difference(elems(*o)),
        forall|j: int| 0 <= j < old(v)@.len() && j != k ==> final(v)@[j] == old(v)@[j],
{
    let ghost prev = v@;
    let mut b = v.remove(k);
    bm_subtract(&mut b, o);
    v.insert(k, b);
    proof {
        assert forall|j: int| 0 <= j < prev.len() && j != k implies v@[j] == prev[j] by {
            assert(v@ =~= prev.remove(k as int).insert(k as int, v@[k as int]));
        }
    }
}

/// Unions `o` into the bitmap at position `k`, leaving the rest alone.
pub fn union_at(v: &mut Vec<RoaringBitmap>, k: usize, o: &RoaringBitmap)
    requires
        k < old(v)@.len(),
    ensures
        final(v)@.len() == old(v)@.len(),
        elems(final(v)@[k as int]) == elems(old(v)@[k as int]).union(elems(*o)),
        forall|j: int| 0 <= j < old(v)@.len() && j != k ==> final(v)@[j] == old(v)@[j],
{
    let ghost prev = v@;
    let mut b = v.remove(k);
    bm_union(&mut b, o);
    v.insert(k, b);
    proof {
        assert forall|j: int| 0 <= j < prev.len() && j != k implies v@[j] == prev[j] by {
            assert(v@ =~= prev.remove(k as int).insert(k as int, v@[k as int]));
        }
    }
}

/// Subtracts `o` from every bitmap in the vector from position `from` on,
/// leaving the earlier ones alone.
pub fn subtract_from(v: &mut Vec<RoaringBitmap>, from: usize, o: &RoaringBitmap)
    ensures
        final(v)@.len() == old(v)@.len(),
        forall|j: int| 0 <= j < from && j < old(v)@.len() ==> final(v)@[j] == old(v)@[j],
        forall|j: int|
            from <= j < old(v)@.len() ==> elems(final(v)@[j]) == elems(old(v)@[j]).difference(
                elems(*o),
            ),
{
    let n = v.len();
    let mut k: usize = from;
    while k < n
        invariant
            n == v@.len(),
            v@.len() == old(v)@.len(),
            from <= k || n <= k,
            forall|j: int| 0 <= j < from && j < n ==> v@[j] == old(v)@[j],
            forall|j: int|
                from <= j < k && j < n ==> elems(v@[j]) == elems(old(v)@[j]).difference(elems(*o)),
            forall|j: int| k <= j < n ==> v@[j] == old(v)@[j],
        decreases n - k,
    {
        subtract_at(v, k, o);
        k = k + 1;
    }
}

/// Inserts one id into the bitmap at position `k`, leaving the rest alone.
pub fn insert_id_at(v: &mut Vec<RoaringBitmap>, k: usize, x: u32)
    requires
        k < old(v)@.len(),
    ensures
        final(v)@.len() == old(v)@.len(),
        elems(final(v)@[k as int]) == elems(old(v)@[k as int]).insert(x),
        forall|j: int| 0 <= j < old(v)@.len() && j != k ==> final(v)@[j] == old(v)@[j],
{
    let ghost prev = v@;
    let mut b = v.remove(k);
    bm_insert(&mut b, x);
    v.insert(k, b);
    proof {
        assert forall|j: int| 0 <= j < prev.len() && j != k implies v@[j] == prev[j] by {
            assert(v@ =~= prev.remove(k as int).insert(k as int, v@[k as int]));
        }
    }
}

/// Subtracts `o` from every bitmap in the vector.
pub fn subtract_all(v: &mut Vec<RoaringBitmap>, o: &RoaringBitmap)
    ensures
        final(v)@.len() == old(v)@.len(),
        forall|j: int|
            0 <= j < old(v)@.len() ==> elems(final(v)@[j]) == elems(old(v)@[j]).difference(
                elems(*o),
            ),
{
    subtract_from(v, 0, o);
}

/// Relies on RoaringBitmap::iter, which walks the held ids in ascending
/// order; the collected vector lists each held id exactly once, sorted.
#[verifier::external_body]
pub fn bm_to_vec(b: &RoaringBitmap) -> (r: Vec<u32>)
    requires
        elems(*b).finite(),
    ensures
        r@.len() == elems(*b).len(),
        forall|i: int, j: int| 0 <= i < j < r@.len() ==> r@[i] < r@[j],
        forall|i: int| 0 <= i < r@.len() ==> elems(*b).contains(r@[i]),
        forall|x: u32| elems(*b).contains(x) ==> exists|i: int| 0 <= i < r@.len() && r@[i] == x,
{
    b.iter().collect()
}

} // verus!
