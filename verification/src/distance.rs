//! Edit distances.
//!
//! `lev_dist` is the standard Levenshtein distance (unit-cost insertion,
//! deletion and substitution); the fuzzy automaton that queries the word
//! index matches exactly the keys within this distance of a query word.
//! `osa_dist` names the restricted Damerau-Levenshtein distance that an
//! outside crate computes to place a matched word in its typo bucket.

use vstd::prelude::*;
use crate::text::is_prefix;

verus! {

/// Some prefix of the indexed word `k` lies within `b` edit operations of
/// the query word `w`.
pub open spec fn prefix_matched(w: Seq<char>, k: Seq<char>, b: nat) -> bool {
    exists|p: Seq<char>| is_prefix(p, k) && lev_dist(w, p) <= b
}

pub open spec fn min3(x: nat, y: nat, z: nat) -> nat {
    if x <= y && x <= z {
        x
    } else if y <= z {
        y
    } else {
        z
    }
}

/// The Levenshtein distance between two character sequences.
pub open spec fn lev_dist(a: Seq<char>, b: Seq<char>) -> nat
    decreases a.len() + b.len(),
{
    if a.len() == 0 {
        b.len()
    } else if b.len() == 0 {
        a.len()
    } else {
        let del = lev_dist(a.skip(1), b) + 1;
        let ins = lev_dist(a, b.skip(1)) + 1;
        let sub = lev_dist(a.skip(1), b.skip(1)) + (if a[0] == b[0] {
            0nat
        } else {
            1nat
        });
        min3(del, ins, sub)
    }
}

/// A sequence is at distance zero from itself.
pub proof fn lemma_lev_dist_refl(a: Seq<char>)
    ensures
        lev_dist(a, a) == 0,
    decreases a.len(),
{
    if a.len() == 0 {
    } else {
        lemma_lev_dist_refl(a.skip(1));
    }
}

/// The restricted (adjacent-transposition aware, unit-cost) edit distance
/// between two character sequences; computed by an outside crate, so only
/// named here.
pub uninterp spec fn osa_dist(src: Seq<char>, tar: Seq<char>) -> nat;

/// Relies on text_distance::DamerauLevenshtein with `restricted: true`: the
/// optimal-string-alignment edit distance, a function of the two character
/// sequences alone; equal sequences are at distance zero.
#[verifier::external_body]
pub fn restricted_distance(src: &String, tar: &String) -> (r: usize)
    ensures
        r == osa_dist(src@, tar@),
        src@ == tar@ ==> r == 0,
{
    let d = text_distance::DamerauLevenshtein {
        src: src.clone(),
        tar: tar.clone(),
        restricted: true,
    };
    d.distance()
}

} // verus!
