//! Trusted view of the fst word map.
//!
//! The word index is an `fst::Map` from normalized words to dense bucket
//! ids. Its contents are modelled as a `Map<Seq<char>, u64>`; every word
//! put into it is ASCII, so lexicographic character order coincides with
//! the byte order of the UTF-8 encoded keys that fst sorts by.

use vstd::prelude::*;
use crate::text::{is_ascii_seq, lex_lt};
use crate::distance::{lev_dist, prefix_matched};
use fst::Automaton;
use fst::IntoStreamer;

verus! {

/// The fst map type holding the word index.
pub type WordFst = fst::Map<Vec<u8>>;

/// The builder that assembles the word index.
pub type WordFstBuilder = fst::MapBuilder<Vec<u8>>;

#[verifier::external_type_specification]
#[verifier::external_body]
#[verifier::reject_recursive_types(D)]
pub struct ExFstMap<D>(fst::Map<D>);

#[verifier::external_type_specification]
#[verifier::external_body]
#[verifier::reject_recursive_types(W)]
pub struct ExFstMapBuilder<W>(fst::MapBuilder<W>);

/// The word-to-bucket entries an fst map holds.
pub uninterp spec fn fst_entries(m: WordFst) -> Map<Seq<char>, u64>;

/// The entries recorded in an fst map builder so far.
pub uninterp spec fn builder_entries(b: WordFstBuilder) -> Map<Seq<char>, u64>;

/// Whether the fuzzy automaton for this word and bound can be built:
/// fst::automaton::Levenshtein::new succeeds or fails as a deterministic
/// function of the word and the bound alone (a fixed state-table limit).
pub uninterp spec fn automaton_fits(w: Seq<char>, b: nat) -> bool;

/// Relies on fst::MapBuilder::memory: a fresh builder holds nothing.
#[verifier::external_body]
pub fn builder_new() -> (r: WordFstBuilder)
    ensures
        builder_entries(r) =~= Map::empty(),
{
    fst::MapBuilder::memory()
}

/// Relies on fst::MapBuilder::insert: records the pair. The insert cannot
/// fail: the key is strictly greater than every key already recorded (on
/// ASCII keys character order is byte order) and the in-memory writer does
/// not fail.
#[verifier::external_body]
pub fn builder_insert(b: &mut WordFstBuilder, key: &String, val: u64)
    requires
        is_ascii_seq(key@),
        forall|k: Seq<char>| builder_entries(*old(b)).dom().contains(k) ==> lex_lt(k, key@),
    ensures
        builder_entries(*final(b)) == builder_entries(*old(b)).insert(key@, val),
{
    let _ = b.insert(key.as_str(), val);
}

/// Relies on fst::MapBuilder::into_map: the finished map holds exactly the
/// recorded entries.
#[verifier::external_body]
pub fn builder_into_map(b: WordFstBuilder) -> (r: WordFst)
    ensures
        fst_entries(r) == builder_entries(b),
{
    b.into_map()
}

/// Relies on fst::automaton::Levenshtein, fst::Map::search and
/// fst::Map::get: when the automaton can be built (second component
/// true), the stream of matches holds exactly the entries whose key is
/// within `max_dist` Levenshtein edit operations of `word`; when it
/// cannot, the exact entry for `word` alone is looked up. Either way the
/// matches are real entries within the bound, and the entry for `word`
/// itself is never missed. A stream of the all-ASCII keys recorded here
/// always decodes.
#[verifier::external_body]
pub fn fuzzy_entries(m: &WordFst, word: &String, max_dist: u32) -> (r: (Vec<(String, u64)>, bool))
    requires
        forall|k: Seq<char>| fst_entries(*m).dom().contains(k) ==> is_ascii_seq(k),
        is_ascii_seq(word@),
    ensures
        r.1 == automaton_fits(word@, max_dist as nat),
        forall|i: int|
            0 <= i < r.0@.len() ==> fst_entries(*m).contains_pair(#[trigger] r.0@[i].0@, r.0@[i].1)
                && lev_dist(word@, r.0@[i].0@) <= max_dist,
        fst_entries(*m).dom().contains(word@) ==> exists|i: int|
            0 <= i < r.0@.len() && #[trigger] r.0@[i].0@ == word@,
        r.1 ==> forall|k: Seq<char>|
            fst_entries(*m).dom().contains(k) && lev_dist(word@, k) <= max_dist ==> exists|i: int|
                0 <= i < r.0@.len() && #[trigger] r.0@[i].0@ == k,
{
    let found = match fst::automaton::Levenshtein::new(word.as_str(), max_dist) {
        Ok(aut) => m.search(aut).into_stream().into_str_vec().ok(),
        Err(_) => None,
    };
    match found {
        Some(v) => (v, true),
        None => {
            let mut v: Vec<(String, u64)> = Vec::new();
            if let Some(val) = m.get(word.as_str()) {
                v.push((word.clone(), val));
            }
            (v, false)
        },
    }
}

/// Relies on fst::automaton::Levenshtein, Automaton::starts_with,
/// fst::Map::search and fst::Map::get: when the automaton can be built
/// (second component true), the stream holds exactly the entries some
/// prefix of whose key is within `max_dist` Levenshtein edit operations
/// of `word`; when it cannot, the exact entry for `word` alone is looked
/// up. Either way the matches are real prefix-matched entries, and the
/// entry for `word` itself is never missed.
#[verifier::external_body]
pub fn fuzzy_prefix_entries(m: &WordFst, word: &String, max_dist: u32) -> (r: (
    Vec<(String, u64)>,
    bool,
))
    requires
        forall|k: Seq<char>| fst_entries(*m).dom().contains(k) ==> is_ascii_seq(k),
        is_ascii_seq(word@),
    ensures
        r.1 == automaton_fits(word@, max_dist as nat),
        forall|i: int|
            0 <= i < r.0@.len() ==> fst_entries(*m).contains_pair(#[trigger] r.0@[i].0@, r.0@[i].1)
                && prefix_matched(word@, r.0@[i].0@, max_dist as nat),
        fst_entries(*m).dom().contains(word@) ==> exists|i: int|
            0 <= i < r.0@.len() && #[trigger] r.0@[i].0@ == word@,
        r.1 ==> forall|k: Seq<char>|
            fst_entries(*m).dom().contains(k) && prefix_matched(word@, k, max_dist as nat)
                ==> exists|i: int| 0 <= i < r.0@.len() && #[trigger] r.0@[i].0@ == k,
{
    let found = match fst::automaton::Levenshtein::new(word.as_str(), max_dist) {
        Ok(aut) => m.search(aut.starts_with()).into_stream().into_str_vec().ok(),
        Err(_) => None,
    };
    match found {
        Some(v) => (v, true),
        None => {
            let mut v: Vec<(String, u64)> = Vec::new();
            if let Some(val) = m.get(word.as_str()) {
                v.push((word.clone(), val));
            }
            (v, false)
        },
    }
}

} // verus!
