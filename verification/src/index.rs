//! The index facade: building the word index from a corpus and answering
//! queries through the ranking cascade.

use vstd::prelude::*;
use roaring::RoaringBitmap;
use crate::bitmap::{elems, bm_new, bm_insert, bm_clone, bm_to_vec};
use crate::candidate::WordCandidate;
use crate::cascade::{RankingRule, run_cascade, cands_wf, union_all, pending_union, lemma_pending_union_push};
use crate::distance::{lev_dist, prefix_matched};
use crate::fstmap::{
    WordFst,
    automaton_fits,
    fst_entries,
    builder_entries,
    builder_new,
    builder_insert,
    builder_into_map,
    fuzzy_entries,
    fuzzy_prefix_entries,
};
use crate::text::{
    lex_lt,
    is_ascii_seq,
    is_prefix,
    norm_seq,
    tokens,
    surviving,
    surviving_from,
    normalize,
    split_words,
    str_lt,
    str_eq,
    lemma_norm_from_ascii,
    lemma_lex_connected,
    lemma_lex_trans,
    lemma_lex_irrefl,
};

verus! {

/// A search request: the query text, how many documents to return, and
/// the ranking pipeline to run.
pub struct Search<'a> {
    pub input: &'a str,
    pub limit: usize,
    pub ranking_rules: Vec<RankingRule>,
}

impl<'a> Search<'a> {
    /// A request with the default limit of ten documents and the default
    /// pipeline: word conjunction, then typo count, then exactness.
    pub fn new(input: &'a str) -> (r: Search<'a>)
        ensures
            r.input@ == input@,
            r.limit == 10,
            r.ranking_rules@ =~= seq![RankingRule::Word, RankingRule::Typo, RankingRule::Exact],
    {
        let mut ranking_rules: Vec<RankingRule> = Vec::new();
        ranking_rules.push(RankingRule::Word);
        ranking_rules.push(RankingRule::Typo);
        ranking_rules.push(RankingRule::Exact);
        Search { input, limit: 10, ranking_rules }
    }
}

/// How many typos a query word of `n` characters may carry: one per three
/// characters, at most three.
pub open spec fn typo_bound(n: nat) -> nat {
    if n / 3 <= 3 {
        n / 3
    } else {
        3
    }
}

/// The documents an index matches for a query word within the given edit
/// distance bound.
pub open spec fn fuzzy_docs(m: WordFst, bitmaps: Seq<RoaringBitmap>, w: Seq<char>, b: nat) -> Set<
    u32,
> {
    Set::new(
        |d: u32|
            exists|k: Seq<char>|
                #[trigger] fst_entries(m).dom().contains(k) && lev_dist(w, k) <= b && fst_entries(
                    m,
                )[k] < bitmaps.len() && elems(bitmaps[fst_entries(m)[k] as int]).contains(d),
    )
}

/// The documents an index matches for a query word used as a fuzzy
/// prefix: some prefix of the indexed word lies within the bound.
pub open spec fn fuzzy_prefix_docs(
    m: WordFst,
    bitmaps: Seq<RoaringBitmap>,
    w: Seq<char>,
    b: nat,
) -> Set<u32> {
    Set::new(
        |d: u32|
            exists|k: Seq<char>|
                #[trigger] fst_entries(m).dom().contains(k) && prefix_matched(w, k, b)
                    && fst_entries(m)[k] < bitmaps.len() && elems(
                    bitmaps[fst_entries(m)[k] as int],
                ).contains(d),
    )
}

/// A document holding an indexed word is among the fuzzy matches of that
/// very word, at every typo bound and whether or not the word is used as
/// a prefix: a word is at edit distance zero from itself.
pub proof fn lemma_exact_word_matches(
    m: WordFst,
    bitmaps: Seq<RoaringBitmap>,
    w: Seq<char>,
    b: nat,
    dd: u32,
)
    requires
        fst_entries(m).dom().contains(w),
        fst_entries(m)[w] < bitmaps.len(),
        elems(bitmaps[fst_entries(m)[w] as int]).contains(dd),
    ensures
        fuzzy_docs(m, bitmaps, w, b).contains(dd),
        fuzzy_prefix_docs(m, bitmaps, w, b).contains(dd),
{
    crate::distance::lemma_lev_dist_refl(w);
    assert(is_prefix(w, w)) by {
        assert(w =~= w.subrange(0, w.len() as int));
    }
    assert(prefix_matched(w, w, b));
    assert(fst_entries(m).dom().contains(w) && lev_dist(w, w) <= b && fst_entries(m)[w]
        < bitmaps.len() && elems(bitmaps[fst_entries(m)[w] as int]).contains(dd));
}

/// The string is the text of one of the documents.
pub open spec fn is_doc_text(docs: Seq<String>, s: &str) -> bool {
    exists|d2: int| 0 <= d2 < docs.len() && s@ == docs[d2]@
}

/// `x` stands among the first `n` entries of `ids`.
pub open spec fn id_among(ids: Seq<u32>, n: int, x: u32) -> bool {
    exists|q: int| 0 <= q < n && ids[q] == x
}

/// Document `x` is among the fuzzy matches of some surviving query word
/// (the last one matching also by prefix).
pub open spec fn query_matched(m: WordFst, bitmaps: Seq<RoaringBitmap>, q: Seq<char>, x: u32) -> bool {
    exists|p: int|
        0 <= p < surviving(q).len() && (if p + 1 == surviving(q).len() {
            fuzzy_prefix_docs(
                m,
                bitmaps,
                norm_seq(#[trigger] surviving(q)[p]),
                typo_bound(norm_seq(surviving(q)[p]).len()),
            )
        } else {
            fuzzy_docs(
                m,
                bitmaps,
                norm_seq(surviving(q)[p]),
                typo_bound(norm_seq(surviving(q)[p]).len()),
            )
        }).contains(x)
}

/// The documents the `p`-th surviving query word matches (the last word
/// also by prefix).
pub open spec fn word_match_set(m: WordFst, bitmaps: Seq<RoaringBitmap>, q: Seq<char>, p: int) -> Set<
    u32,
> {
    if p + 1 == surviving(q).len() {
        fuzzy_prefix_docs(m, bitmaps, norm_seq(surviving(q)[p]), typo_bound(norm_seq(surviving(q)[p]).len()))
    } else {
        fuzzy_docs(m, bitmaps, norm_seq(surviving(q)[p]), typo_bound(norm_seq(surviving(q)[p]).len()))
    }
}

/// How many leading query words match document `x`, counted from word `p`.
pub open spec fn query_lead_from(
    m: WordFst,
    bitmaps: Seq<RoaringBitmap>,
    q: Seq<char>,
    p: int,
    x: u32,
) -> int
    decreases surviving(q).len() - p,
{
    if p < 0 || p >= surviving(q).len() || !word_match_set(m, bitmaps, q, p).contains(x) {
        0
    } else {
        1 + query_lead_from(m, bitmaps, q, p + 1, x)
    }
}

/// How many leading query words match document `x`: under the word
/// conjunction this is the relaxation depth at which `x` is placed.
pub open spec fn query_lead(m: WordFst, bitmaps: Seq<RoaringBitmap>, q: Seq<char>, x: u32) -> int {
    query_lead_from(m, bitmaps, q, 0, x)
}

proof fn lemma_query_lead_agrees(
    m: WordFst,
    bitmaps: Seq<RoaringBitmap>,
    q: Seq<char>,
    cs: Seq<WordCandidate>,
    p: int,
    x: u32,
)
    requires
        cs.len() == surviving(q).len(),
        0 <= p,
        forall|p2: int|
            0 <= p2 < cs.len() ==> (#[trigger] cs[p2].universe()) == word_match_set(
                m,
                bitmaps,
                q,
                p2,
            ),
    ensures
        query_lead_from(m, bitmaps, q, p, x) == crate::cascade::lead_matched_from(cs, p, x),
    decreases cs.len() - p,
{
    if 0 <= p < cs.len() {
        lemma_query_lead_agrees(m, bitmaps, q, cs, p + 1, x);
    }
}

/// The text of document `x` stands somewhere in the result list.
pub open spec fn id_in_result(docs: Seq<String>, rs: Seq<&str>, x: u32) -> bool {
    exists|q: int| 0 <= q < rs.len() && rs[q]@ == docs[x as int]@
}

/// Growing a result list loses no covered document.
proof fn lemma_result_grows(docs: Seq<String>, a: Seq<&str>, b: Seq<&str>)
    requires
        a.len() <= b.len(),
        forall|q: int| 0 <= q < a.len() ==> a[q] == b[q],
    ensures
        forall|x: u32| id_in_result(docs, a, x) ==> id_in_result(docs, b, x),
{
    assert forall|x: u32| id_in_result(docs, a, x) implies id_in_result(docs, b, x) by {
        let q = choose|q: int| 0 <= q < a.len() && a[q]@ == docs[x as int]@;
        assert(b[q]@ == docs[x as int]@);
    }
}

/// An immutable fuzzy-searchable word index over a corpus: a sorted map
/// from each distinct normalized word to a dense bucket id, and one
/// bitmap of document ids per bucket.
pub struct Index {
    pub documents: Vec<String>,
    pub fst: WordFst,
    pub bitmaps: Vec<RoaringBitmap>,
}

/// Document `x` has a whitespace word normalizing to `w`.
pub open spec fn doc_has_word(docs: Seq<String>, x: int, w: Seq<char>) -> bool {
    exists|ti: int|
        0 <= ti < tokens(docs[x]@).len() && norm_seq(#[trigger] tokens(docs[x]@)[ti]) == w
}

/// Some entry holds the word `w` with document `dd` in its bitmap.
pub open spec fn covers(es: Seq<(String, RoaringBitmap)>, w: Seq<char>, dd: u32) -> bool {
    exists|j: int| 0 <= j < es.len() && (#[trigger] es[j]).0@ == w && elems(es[j].1).contains(dd)
}

/// During construction: words sorted strictly ascending, ASCII, each
/// paired with a finite bitmap of in-range document ids.
pub open spec fn entries_wf(es: Seq<(String, RoaringBitmap)>, nd: nat) -> bool {
    &&& forall|i: int, j: int|
        0 <= i < j < es.len() ==> #[trigger] lex_lt(es[i].0@, es[j].0@)
    &&& forall|j: int| 0 <= j < es.len() ==> is_ascii_seq(#[trigger] es[j].0@)
    &&& forall|j: int| 0 <= j < es.len() ==> (#[trigger] elems(es[j].1)).finite()
    &&& forall|j: int, x: u32|
        0 <= j < es.len() && #[trigger] elems(es[j].1).contains(x) ==> (x as int) < nd
}

impl Index {
    /// Every word maps to a bucket of the bitmap array, and every bitmap
    /// holds only valid document ids.
    /// The index maps the word `w` to a bucket whose bitmap holds
    /// document `dd`.
    pub open spec fn word_indexed(self, w: Seq<char>, dd: int) -> bool {
        &&& fst_entries(self.fst).dom().contains(w)
        &&& fst_entries(self.fst)[w] < self.bitmaps@.len()
        &&& elems(self.bitmaps@[fst_entries(self.fst)[w] as int]).contains(dd as u32)
    }

    /// The converse of completeness: a word's bitmap holds only documents
    /// actually containing that word, every indexed word occurs somewhere
    /// (its bitmap is non-empty), and bucket ids are assigned densely and
    /// injectively.
    pub open spec fn sound(self) -> bool {
        &&& forall|k: Seq<char>, x: u32|
            #[trigger] fst_entries(self.fst).dom().contains(k) && fst_entries(self.fst)[k]
                < self.bitmaps@.len() && #[trigger] elems(
                self.bitmaps@[fst_entries(self.fst)[k] as int],
            ).contains(x) ==> doc_has_word(self.documents@, x as int, k)
        &&& forall|k: Seq<char>|
            #[trigger] fst_entries(self.fst).dom().contains(k) && fst_entries(self.fst)[k]
                < self.bitmaps@.len() ==> elems(self.bitmaps@[fst_entries(self.fst)[k] as int])
                != Set::<u32>::empty()
        &&& fst_entries(self.fst).dom().finite()
        &&& fst_entries(self.fst).dom().len() == self.bitmaps@.len()
        &&& forall|v: int|
            0 <= v < self.bitmaps@.len() ==> (#[trigger] elems(self.bitmaps@[v])).finite() && (
            exists|k: Seq<char>|
                #[trigger] fst_entries(self.fst).dom().contains(k) && fst_entries(self.fst)[k]
                    == v)
        &&& forall|k1: Seq<char>, k2: Seq<char>|
            #[trigger] fst_entries(self.fst).dom().contains(k1)
                && #[trigger] fst_entries(self.fst).dom().contains(k2) && fst_entries(
                self.fst,
            )[k1] == fst_entries(self.fst)[k2] ==> k1 == k2
    }

    /// Every word of every document is indexed with that document's id.
    pub open spec fn complete(self) -> bool {
        forall|dd: int, ti: int|
            0 <= dd < self.documents@.len() && 0 <= ti < tokens(self.documents@[dd]@).len()
                ==> self.word_indexed(
                norm_seq(#[trigger] tokens(self.documents@[dd]@)[ti]),
                dd,
            )
    }

    pub open spec fn wf(self) -> bool {
        &&& forall|k: Seq<char>|
            #[trigger] fst_entries(self.fst).dom().contains(k) ==> is_ascii_seq(k) && fst_entries(
                self.fst,
            )[k] < self.bitmaps@.len()
        &&& forall|j: int|
            0 <= j < self.bitmaps@.len() ==> (#[trigger] elems(self.bitmaps@[j])).finite()
        &&& forall|j: int, x: u32|
            0 <= j < self.bitmaps@.len() && #[trigger] elems(self.bitmaps@[j]).contains(x) ==> (
            x as int) < self.documents@.len()
    }

    /// Builds the index: tokenize every document, normalize every word,
    /// group the (document, word) pairs by word in sorted order, and
    /// record one bitmap of document ids per distinct word.
    pub fn construct(documents: Vec<String>) -> (r: Index)
        requires
            documents@.len() <= 0xffff_ffff,
        ensures
            r.wf(),
            r.documents@ == documents@,
            r.complete(),
            r.sound(),
    {
        let ndocs = documents.len();
        let mut entries: Vec<(String, RoaringBitmap)> = Vec::new();
        let mut d: usize = 0;
        while d < ndocs
            invariant
                ndocs == documents@.len() <= 0xffff_ffff,
                d <= ndocs,
                entries_wf(entries@, ndocs as nat),
                forall|j2s: int, xs: u32|
                    0 <= j2s < entries@.len() && #[trigger] elems(entries@[j2s].1).contains(xs)
                        ==> doc_has_word(documents@, xs as int, entries@[j2s].0@),
                forall|j2s: int|
                    0 <= j2s < entries@.len() ==> #[trigger] elems(entries@[j2s].1)
                        != Set::<u32>::empty(),
                forall|d2: int, t2: int|
                    0 <= d2 < d && 0 <= t2 < tokens(documents@[d2]@).len() ==> covers(
                        entries@,
                        norm_seq(#[trigger] tokens(documents@[d2]@)[t2]),
                        d2 as u32,
                    ),
            decreases ndocs - d,
        {
            let words = split_words(&documents[d]);
            let nw = words.len();
            let mut t: usize = 0;
            while t < nw
                invariant
                    ndocs == documents@.len() <= 0xffff_ffff,
                    d < ndocs,
                    nw == words@.len(),
                    t <= nw,
                    entries_wf(entries@, ndocs as nat),
                    forall|j2s: int, xs: u32|
                        0 <= j2s < entries@.len() && #[trigger] elems(entries@[j2s].1).contains(
                            xs,
                        ) ==> doc_has_word(documents@, xs as int, entries@[j2s].0@),
                    forall|j2s: int|
                        0 <= j2s < entries@.len() ==> #[trigger] elems(entries@[j2s].1)
                            != Set::<u32>::empty(),
                    forall|t2: int| 0 <= t2 < nw ==> words@[t2]@ == tokens(documents@[d as int]@)[t2],
                    nw == tokens(documents@[d as int]@).len(),
                    forall|d2: int, t2: int|
                        0 <= d2 < d && 0 <= t2 < tokens(documents@[d2]@).len() ==> covers(
                            entries@,
                            norm_seq(#[trigger] tokens(documents@[d2]@)[t2]),
                            d2 as u32,
                        ),
                    forall|t2: int|
                        0 <= t2 < t ==> covers(
                            entries@,
                            norm_seq(#[trigger] tokens(documents@[d as int]@)[t2]),
                            d as u32,
                        ),
                decreases nw - t,
            {
                let norm = normalize(words[t].as_str());
                proof {
                    lemma_norm_from_ascii(words@[t as int]@, 0);
                }
                let nentries = entries.len();
                let mut j: usize = 0;
                while j < nentries && str_lt(entries[j].0.as_str(), norm.as_str())
                    invariant
                        nentries == entries@.len(),
                        j <= nentries,
                        forall|i: int| 0 <= i < j ==> lex_lt(#[trigger] entries@[i].0@, norm@),
                    decreases nentries - j,
                {
                    j = j + 1;
                }
                if j < nentries && str_eq(entries[j].0.as_str(), norm.as_str()) {
                    let ghost prev = entries@;
                    let mut e = entries.remove(j);
                    bm_insert(&mut e.1, d as u32);
                    let ghost enew = e;
                    entries.insert(j, e);
                    proof {
                        assert forall|i: int|
                            0 <= i < prev.len() && i != j implies entries@[i] == prev[i] by {
                            assert(entries@ =~= prev.remove(j as int).insert(
                                j as int,
                                entries@[j as int],
                            ));
                        }
                        assert(entries@[j as int] == enew);
                        assert(enew.0@ == prev[j as int].0@);
                        assert(elems(enew.1) == elems(prev[j as int].1).insert(d as u32));
                        assert forall|i1: int, i2: int|
                            0 <= i1 < i2 < entries@.len() implies #[trigger] lex_lt(
                            entries@[i1].0@,
                            entries@[i2].0@,
                        ) by {
                            assert(entries@[i1].0@ == prev[i1].0@);
                            assert(entries@[i2].0@ == prev[i2].0@);
                            assert(lex_lt(prev[i1].0@, prev[i2].0@));
                        }
                        assert forall|i: int|
                            0 <= i < entries@.len() implies is_ascii_seq(
                            #[trigger] entries@[i].0@,
                        ) && elems(entries@[i].1).finite() by {
                            if i != j {
                                assert(entries@[i] == prev[i]);
                                assert(is_ascii_seq(prev[i].0@));
                                assert(elems(prev[i].1).finite());
                            } else {
                                assert(is_ascii_seq(prev[i].0@));
                                assert(elems(prev[i].1).finite());
                            }
                        }
                        assert forall|i: int, x: u32|
                            0 <= i < entries@.len() && #[trigger] elems(entries@[i].1).contains(
                                x,
                            ) implies (x as int) < ndocs by {
                            if i != j {
                                assert(entries@[i] == prev[i]);
                                assert(elems(prev[i].1).contains(x));
                            } else {
                                assert(elems(prev[i].1).contains(x) || x == d as u32);
                            }
                        }
                        assert forall|w: Seq<char>, dd: u32|
                            covers(prev, w, dd) implies covers(entries@, w, dd) by {
                            let j2 = choose|j2: int|
                                0 <= j2 < prev.len() && (#[trigger] prev[j2]).0@ == w && elems(
                                    prev[j2].1,
                                ).contains(dd);
                            if j2 == j {
                                assert((entries@[j2]).0@ == w && elems(entries@[j2].1).contains(
                                    dd,
                                ));
                            } else {
                                assert(entries@[j2] == prev[j2]);
                                assert((entries@[j2]).0@ == w && elems(entries@[j2].1).contains(
                                    dd,
                                ));
                            }
                        }
                        assert((entries@[j as int]).0@ == norm@ && elems(
                            entries@[j as int].1,
                        ).contains(d as u32));
                        assert(covers(entries@, norm@, d as u32));
                        assert(norm@ == norm_seq(tokens(documents@[d as int]@)[t as int]));
                    }
                } else {
                    let mut b = bm_new();
                    bm_insert(&mut b, d as u32);
                    let ghost prev = entries@;
                    proof {
                        if j < nentries {
                            if !lex_lt(norm@, entries@[j as int].0@) {
                                lemma_lex_connected(entries@[j as int].0@, norm@);
                            }
                            assert(lex_lt(norm@, entries@[j as int].0@));
                        }
                    }
                    let ghost gkey = norm@;
                    let ghost gel = elems(b);
                    entries.insert(j, (norm, b));
                    proof {
                        assert(entries@[j as int].0@ == gkey && elems(entries@[j as int].1)
                            == gel);
                        assert(lex_lt(norm@, entries@[j as int].0@) == lex_lt(norm@, gkey));
                        assert(entries@.len() == prev.len() + 1);
                        assert forall|i: int|
                            0 <= i < entries@.len() && i != j implies entries@[i] == (if i < j {
                            prev[i]
                        } else {
                            prev[i - 1]
                        }) by {
                            assert(entries@ =~= prev.insert(j as int, entries@[j as int]));
                        }
                        assert forall|i1: int, i2: int|
                            0 <= i1 < i2 < entries@.len() implies #[trigger] lex_lt(
                            entries@[i1].0@,
                            entries@[i2].0@,
                        ) by {
                            if i1 < j && i2 == j {
                                assert(entries@[i1] == prev[i1]);
                                assert(lex_lt(prev[i1].0@, gkey));
                            } else if i1 == j && i2 > j {
                                assert(entries@[i2] == prev[i2 - 1]);
                                if i2 - 1 > j {
                                    assert(lex_lt(gkey, prev[j as int].0@));
                                    assert(lex_lt(prev[j as int].0@, prev[i2 - 1].0@));
                                    lemma_lex_trans(gkey, prev[j as int].0@, prev[i2 - 1].0@);
                                } else {
                                    assert(lex_lt(gkey, prev[j as int].0@));
                                }
                            } else if i1 < j && i2 > j {
                                assert(entries@[i1] == prev[i1]);
                                assert(entries@[i2] == prev[i2 - 1]);
                                if i2 - 1 == j {
                                    assert(lex_lt(prev[i1].0@, gkey));
                                    assert(lex_lt(gkey, prev[j as int].0@));
                                    lemma_lex_trans(prev[i1].0@, gkey, prev[j as int].0@);
                                } else {
                                    assert(lex_lt(prev[i1].0@, prev[i2 - 1].0@));
                                }
                            } else if i1 > j {
                                assert(entries@[i1] == prev[i1 - 1]);
                                assert(entries@[i2] == prev[i2 - 1]);
                                assert(lex_lt(prev[i1 - 1].0@, prev[i2 - 1].0@));
                            } else {
                                assert(entries@[i1] == prev[i1]);
                                assert(entries@[i2] == prev[i2]);
                                assert(lex_lt(prev[i1].0@, prev[i2].0@));
                            }
                        }
                        assert forall|i: int|
                            0 <= i < entries@.len() implies is_ascii_seq(
                            #[trigger] entries@[i].0@,
                        ) && elems(entries@[i].1).finite() by {
                            if i < j {
                                assert(entries@[i] == prev[i]);
                                assert(is_ascii_seq(prev[i].0@));
                                assert(elems(prev[i].1).finite());
                            } else if i > j {
                                assert(entries@[i] == prev[i - 1]);
                                assert(is_ascii_seq(prev[i - 1].0@));
                                assert(elems(prev[i - 1].1).finite());
                            } else {
                                assert(gkey == crate::text::norm_from(words@[t as int]@, 0));
                                assert(is_ascii_seq(gkey));
                            }
                        }
                        assert forall|i: int, x: u32|
                            0 <= i < entries@.len() && #[trigger] elems(entries@[i].1).contains(
                                x,
                            ) implies (x as int) < ndocs by {
                            if i < j {
                                assert(entries@[i] == prev[i]);
                                assert(elems(prev[i].1).contains(x));
                            } else if i > j {
                                assert(entries@[i] == prev[i - 1]);
                                assert(elems(prev[i - 1].1).contains(x));
                            } else {
                                assert(x == d as u32);
                            }
                        }
                        assert forall|w: Seq<char>, dd: u32|
                            covers(prev, w, dd) implies covers(entries@, w, dd) by {
                            let j2 = choose|j2: int|
                                0 <= j2 < prev.len() && (#[trigger] prev[j2]).0@ == w && elems(
                                    prev[j2].1,
                                ).contains(dd);
                            if j2 < j {
                                assert(entries@[j2] == prev[j2]);
                                assert((entries@[j2]).0@ == w && elems(entries@[j2].1).contains(
                                    dd,
                                ));
                            } else {
                                assert(entries@[j2 + 1] == prev[j2]);
                                assert((entries@[j2 + 1]).0@ == w && elems(
                                    entries@[j2 + 1].1,
                                ).contains(dd));
                            }
                        }
                        assert((entries@[j as int]).0@ == gkey && elems(
                            entries@[j as int].1,
                        ).contains(d as u32));
                        assert(covers(entries@, gkey, d as u32));
                        assert(gkey == norm_seq(tokens(documents@[d as int]@)[t as int]));
                    }
                }
                t = t + 1;
            }
            d = d + 1;
        }
        // feed the sorted distinct words to the map builder; the bucket id
        // of a word is its position
        let mut build = builder_new();
        proof {
            assert(builder_entries(build).dom() =~= Set::<Seq<char>>::empty());
        }
        let mut bitmaps: Vec<RoaringBitmap> = Vec::new();
        let nentries = entries.len();
        let mut k: usize = 0;
        while k < nentries
            invariant
                nentries == entries@.len(),
                k <= nentries,
                bitmaps@.len() == k,
                entries_wf(entries@, ndocs as nat),
                ndocs == documents@.len(),
                forall|key: Seq<char>|
                    #[trigger] builder_entries(build).dom().contains(key) ==> exists|j: int|
                        0 <= j < k && key == entries@[j].0@ && builder_entries(build)[key] == j
                            as u64,
                forall|j: int|
                    0 <= j < k ==> builder_entries(build).contains_pair(
                        #[trigger] entries@[j].0@,
                        j as u64,
                    ),
                builder_entries(build).dom().finite(),
                builder_entries(build).dom().len() == k,
                forall|j: int| 0 <= j < k ==> elems(#[trigger] bitmaps@[j]) == elems(entries@[j].1),
            decreases nentries - k,
        {
            proof {
                assert forall|key: Seq<char>|
                    #[trigger] builder_entries(build).dom().contains(key) implies lex_lt(
                    key,
                    entries@[k as int].0@,
                ) by {
                    let j = choose|j: int|
                        0 <= j < k && key == entries@[j].0@ && builder_entries(build)[key] == j
                            as u64;
                    assert(lex_lt(entries@[j].0@, entries@[k as int].0@));
                }
            }
            let ghost bprev = builder_entries(build);
            builder_insert(&mut build, &entries[k].0, k as u64);
            bitmaps.push(bm_clone(&entries[k].1));
            proof {
                if bprev.dom().contains(entries@[k as int].0@) {
                    let j = choose|j: int|
                        0 <= j < k && entries@[k as int].0@ == entries@[j].0@ && bprev[entries@[k
                            as int].0@] == j as u64;
                    assert(lex_lt(entries@[j].0@, entries@[k as int].0@));
                    lemma_lex_irrefl(entries@[k as int].0@);
                    assert(false);
                }
                assert(builder_entries(build).dom() =~= bprev.dom().insert(
                    entries@[k as int].0@,
                ));
                assert(builder_entries(build).dom().len() == k + 1);
                assert forall|j: int|
                    0 <= j < k + 1 implies builder_entries(build).contains_pair(
                    #[trigger] entries@[j].0@,
                    j as u64,
                ) by {
                    if j < k {
                        assert(lex_lt(entries@[j].0@, entries@[k as int].0@));
                        if entries@[j].0@ == entries@[k as int].0@ {
                            lemma_lex_irrefl(entries@[k as int].0@);
                        }
                    }
                }
                assert forall|key: Seq<char>|
                    #[trigger] builder_entries(build).dom().contains(key) implies exists|j: int|
                    0 <= j < k + 1 && key == entries@[j].0@ && builder_entries(build)[key] == j
                        as u64 by {
                    if key == entries@[k as int].0@ {
                        assert(builder_entries(build)[key] == k as u64);
                    } else {
                        let j = choose|j: int|
                            0 <= j < k && key == entries@[j].0@ && builder_entries(
                                build,
                            ).remove(entries@[k as int].0@)[key] == j as u64;
                    }
                }
            }
            k = k + 1;
        }
        let m = builder_into_map(build);
        let r = Index { documents, fst: m, bitmaps };
        proof {
            assert forall|key: Seq<char>|
                #[trigger] fst_entries(r.fst).dom().contains(key) implies is_ascii_seq(key)
                && fst_entries(r.fst)[key] < r.bitmaps@.len() by {
                let j = choose|j: int|
                    0 <= j < nentries && key == entries@[j].0@ && builder_entries(build)[key] == j
                        as u64;
            }
            assert forall|j: int|
                0 <= j < r.bitmaps@.len() implies (#[trigger] elems(r.bitmaps@[j])).finite() by {
                assert(elems(bitmaps@[j]) == elems(entries@[j].1));
            }
            assert forall|j: int, x: u32|
                0 <= j < r.bitmaps@.len() && #[trigger] elems(r.bitmaps@[j]).contains(
                    x,
                ) implies (x as int) < r.documents@.len() by {
                assert(elems(bitmaps@[j]) == elems(entries@[j].1));
            }
            assert forall|dd: int, ti: int|
                0 <= dd < r.documents@.len() && 0 <= ti < tokens(
                    r.documents@[dd]@,
                ).len() implies r.word_indexed(
                norm_seq(#[trigger] tokens(r.documents@[dd]@)[ti]),
                dd,
            ) by {
                let w = norm_seq(tokens(r.documents@[dd]@)[ti]);
                assert(covers(entries@, w, dd as u32));
                let j = choose|j: int|
                    0 <= j < entries@.len() && (#[trigger] entries@[j]).0@ == w && elems(
                        entries@[j].1,
                    ).contains(dd as u32);
                assert(builder_entries(build).contains_pair(entries@[j].0@, j as u64));
                assert(fst_entries(r.fst)[w] == j as u64);
                assert(elems(r.bitmaps@[j]) == elems(entries@[j].1));
            }
            assert forall|k: Seq<char>, x: u32|
                #[trigger] fst_entries(r.fst).dom().contains(k) && fst_entries(r.fst)[k]
                    < r.bitmaps@.len() && #[trigger] elems(
                r.bitmaps@[fst_entries(r.fst)[k] as int],
            ).contains(x) implies doc_has_word(r.documents@, x as int, k) by {
                let j = choose|j: int|
                    0 <= j < nentries && k == entries@[j].0@ && builder_entries(build)[k] == j
                        as u64;
                assert(fst_entries(r.fst)[k] == j as u64);
                assert(elems(r.bitmaps@[j]) == elems(entries@[j].1));
                assert(elems(entries@[j].1).contains(x));
                assert(doc_has_word(documents@, x as int, entries@[j].0@));
            }
            assert forall|k: Seq<char>|
                #[trigger] fst_entries(r.fst).dom().contains(k) && fst_entries(r.fst)[k]
                    < r.bitmaps@.len() implies elems(r.bitmaps@[fst_entries(r.fst)[k] as int])
                != Set::<u32>::empty() by {
                let j = choose|j: int|
                    0 <= j < nentries && k == entries@[j].0@ && builder_entries(build)[k] == j
                        as u64;
                assert(fst_entries(r.fst)[k] == j as u64);
                assert(elems(r.bitmaps@[j]) == elems(entries@[j].1));
                assert(elems(entries@[j].1) != Set::<u32>::empty());
            }
            assert forall|v: int| 0 <= v < r.bitmaps@.len() implies (#[trigger] elems(
                r.bitmaps@[v],
            )).finite() && (exists|k: Seq<char>|
                #[trigger] fst_entries(r.fst).dom().contains(k) && fst_entries(r.fst)[k]
                    == v) by {
                assert(builder_entries(build).contains_pair(entries@[v].0@, v as u64));
                assert(fst_entries(r.fst).dom().contains(entries@[v].0@) && fst_entries(
                    r.fst,
                )[entries@[v].0@] == v);
            }
            assert forall|k1: Seq<char>, k2: Seq<char>|
                #[trigger] fst_entries(r.fst).dom().contains(k1)
                    && #[trigger] fst_entries(r.fst).dom().contains(k2) && fst_entries(
                r.fst,
            )[k1] == fst_entries(r.fst)[k2] implies k1 == k2 by {
                let j1 = choose|j: int|
                    0 <= j < nentries && k1 == entries@[j].0@ && builder_entries(build)[k1] == j
                        as u64;
                let j2 = choose|j: int|
                    0 <= j < nentries && k2 == entries@[j].0@ && builder_entries(build)[k2] == j
                        as u64;
                assert(j1 as u64 == j2 as u64);
                assert(j1 == j2);
            }
        }
        r
    }
}


impl Index {
    /// Builds one candidate per surviving query word: a fuzzy automaton
    /// over the normalized word (allowing one typo per three characters,
    /// at most three) queries the word index; the last query word also
    /// matches indexed words it is a fuzzy prefix of. Returns the
    /// candidates and whether every automaton could be built; when it
    /// could, each candidate holds exactly the documents its word
    /// matches.
    pub fn get_candidates(&self, search: &Search) -> (r: (Vec<WordCandidate>, bool))
        requires
            self.wf(),
        ensures
            cands_wf(r.0@),
            r.0@.len() == surviving(search.input@).len(),
            forall|i: int|
                0 <= i < r.0@.len() ==> (#[trigger] r.0@[i]).original@ == surviving(
                    search.input@,
                )[i] && r.0@[i].normalized@ == norm_seq(surviving(search.input@)[i])
                    && r.0@[i].index == i,
            r.1 == (forall|i: int|
                0 <= i < r.0@.len() ==> automaton_fits(
                    norm_seq(#[trigger] surviving(search.input@)[i]),
                    typo_bound(norm_seq(surviving(search.input@)[i]).len()),
                )),
            forall|i: int, x: u32|
                0 <= i < r.0@.len() && #[trigger] r.0@[i].universe().contains(x) ==> (x as int)
                    < self.documents@.len(),
            (forall|ti: int|
                0 <= ti < tokens(search.input@).len() ==> norm_seq(
                    #[trigger] tokens(search.input@)[ti],
                ).len() == 0) ==> r.0@.len() == 0,
            forall|i: int|
                0 <= i < r.0@.len() ==> {
                    let w = (#[trigger] r.0@[i]).normalized@;
                    if i + 1 == r.0@.len() {
                        r.0@[i].universe().subset_of(
                            fuzzy_prefix_docs(self.fst, self.bitmaps@, w, typo_bound(w.len())),
                        )
                    } else {
                        r.0@[i].universe().subset_of(
                            fuzzy_docs(self.fst, self.bitmaps@, w, typo_bound(w.len())),
                        )
                    }
                },
            forall|i: int|
                0 <= i < r.0@.len() ==> (fst_entries(self.fst).dom().contains(
                    (#[trigger] r.0@[i]).normalized@,
                ) ==> elems(
                    self.bitmaps@[fst_entries(self.fst)[r.0@[i].normalized@] as int],
                ).subset_of(r.0@[i].universe())),
            r.1 ==> forall|i: int|
                0 <= i < r.0@.len() ==> {
                    let w = (#[trigger] r.0@[i]).normalized@;
                    if i + 1 == r.0@.len() {
                        r.0@[i].universe() == fuzzy_prefix_docs(
                            self.fst,
                            self.bitmaps@,
                            w,
                            typo_bound(w.len()),
                        )
                    } else {
                        r.0@[i].universe() == fuzzy_docs(
                            self.fst,
                            self.bitmaps@,
                            w,
                            typo_bound(w.len()),
                        )
                    }
                },
    {
        let toks = split_words(search.input);
        let ntoks = toks.len();
        let mut kept: Vec<(String, String)> = Vec::new();
        let mut ti: usize = 0;
        while ti < ntoks
            invariant
                ntoks == toks@.len(),
                ti <= ntoks,
                toks@.len() == tokens(search.input@).len(),
                forall|t2: int| 0 <= t2 < ntoks ==> toks@[t2]@ == tokens(search.input@)[t2],
                (forall|t2: int|
                    0 <= t2 < ti ==> norm_seq(#[trigger] tokens(search.input@)[t2]).len() == 0)
                    ==> kept@.len() == 0,
                forall|p: int|
                    0 <= p < kept@.len() ==> is_ascii_seq(#[trigger] kept@[p].1@),
                surviving(search.input@) =~= kept@.map_values(|p: (String, String)| p.0@)
                    + surviving_from(search.input@, ti as int),
                forall|p: int|
                    0 <= p < kept@.len() ==> (#[trigger] kept@[p]).1@ == norm_seq(kept@[p].0@),
            decreases ntoks - ti,
        {
            let norm = normalize(toks[ti].as_str());
            let ghost gnorm = norm@;
            proof {
                lemma_norm_from_ascii(toks@[ti as int]@, 0);
                assert(gnorm == norm_seq(tokens(search.input@)[ti as int]));
                assert(is_ascii_seq(gnorm));
            }
            if norm.as_str().unicode_len() > 0 {
                let orig = toks[ti].clone();
                let ghost gprev = kept@;
                kept.push((orig, norm));
                proof {
                    assert(kept@.last().1@ == gnorm);
                    assert(kept@.last().0@ == tokens(search.input@)[ti as int]);
                    assert(gnorm.len() > 0);
                    assert(surviving_from(search.input@, ti as int) =~= seq![
                        tokens(search.input@)[ti as int],
                    ] + surviving_from(search.input@, ti + 1));
                    assert(kept@.map_values(|p: (String, String)| p.0@) =~= gprev.map_values(
                        |p: (String, String)| p.0@,
                    ).push(tokens(search.input@)[ti as int]));
                    assert(surviving(search.input@) =~= kept@.map_values(
                        |p: (String, String)| p.0@,
                    ) + surviving_from(search.input@, ti + 1));
                }
            } else {
                proof {
                    assert(surviving_from(search.input@, ti as int) == surviving_from(
                        search.input@,
                        ti + 1,
                    ));
                }
            }
            ti = ti + 1;
        }
        proof {
            assert(surviving_from(search.input@, ntoks as int) =~= Seq::<Seq<char>>::empty());
            assert(surviving(search.input@) =~= kept@.map_values(
                |p: (String, String)| p.0@,
            ));
        }
        let nkept = kept.len();
        let mut cands: Vec<WordCandidate> = Vec::new();
        let mut ok: bool = true;
        let mut i: usize = 0;
        while i < nkept
            invariant
                self.wf(),
                nkept == kept@.len(),
                i <= nkept,
                cands@.len() == i,
                forall|p: int|
                    0 <= p < kept@.len() ==> is_ascii_seq(#[trigger] kept@[p].1@),
                surviving(search.input@) =~= kept@.map_values(|p: (String, String)| p.0@),
                forall|p: int|
                    0 <= p < kept@.len() ==> (#[trigger] kept@[p]).1@ == norm_seq(kept@[p].0@),
                forall|p: int| 0 <= p < i ==> (#[trigger] cands@[p]).wf(),
                forall|p: int|
                    0 <= p < i ==> (#[trigger] cands@[p]).normalized@ == kept@[p].1@
                        && cands@[p].original@ == kept@[p].0@ && cands@[p].index == p,
                ok == (forall|p: int|
                    0 <= p < i ==> automaton_fits(
                        (#[trigger] kept@[p]).1@,
                        typo_bound(kept@[p].1@.len()),
                    )),
                forall|p: int, x: u32|
                    0 <= p < i && #[trigger] cands@[p].universe().contains(x) ==> (x as int)
                        < self.documents@.len(),
                forall|p: int|
                    0 <= p < i ==> {
                        let w = (#[trigger] cands@[p]).normalized@;
                        if p + 1 == nkept {
                            cands@[p].universe().subset_of(
                                fuzzy_prefix_docs(
                                    self.fst,
                                    self.bitmaps@,
                                    w,
                                    typo_bound(w.len()),
                                ),
                            )
                        } else {
                            cands@[p].universe().subset_of(
                                fuzzy_docs(self.fst, self.bitmaps@, w, typo_bound(w.len())),
                            )
                        }
                    },
                forall|p: int|
                    0 <= p < i ==> (fst_entries(self.fst).dom().contains(
                        (#[trigger] cands@[p]).normalized@,
                    ) ==> elems(
                        self.bitmaps@[fst_entries(self.fst)[cands@[p].normalized@] as int],
                    ).subset_of(cands@[p].universe())),
                ok ==> forall|p: int|
                    0 <= p < i ==> {
                        let w = (#[trigger] cands@[p]).normalized@;
                        if p + 1 == nkept {
                            cands@[p].universe() == fuzzy_prefix_docs(
                                self.fst,
                                self.bitmaps@,
                                w,
                                typo_bound(w.len()),
                            )
                        } else {
                            cands@[p].universe() == fuzzy_docs(
                                self.fst,
                                self.bitmaps@,
                                w,
                                typo_bound(w.len()),
                            )
                        }
                    },
            decreases nkept - i,
        {
            let orig = kept[i].0.clone();
            let norm = kept[i].1.clone();
            let mut cand = WordCandidate::new(orig, norm, i);
            let wlen = kept[i].1.as_str().unicode_len();
            let b0 = wlen / 3;
            let bound: usize = if b0 <= 3 {
                b0
            } else {
                3
            };
            proof {
                assert(bound as nat == typo_bound(kept@[i as int].1@.len()));
            }
            let is_last = i + 1 == nkept;
            let maxd: u32 = bound as u32;
            let (ms, built) = if is_last {
                fuzzy_prefix_entries(&self.fst, &kept[i].1, maxd)
            } else {
                fuzzy_entries(&self.fst, &kept[i].1, maxd)
            };
            proof {
                assert(maxd as nat == typo_bound(kept@[i as int].1@.len()));
                assert(built == automaton_fits(
                    kept@[i as int].1@,
                    typo_bound(kept@[i as int].1@.len()),
                ));
            }
            if !built {
                ok = false;
            }
            {
                {
                    let nms = ms.len();
                    let mut mi: usize = 0;
                    while mi < nms
                        invariant
                            self.wf(),
                            nms == ms@.len(),
                            mi <= nms,
                            cand.wf(),
                            cand.normalized@ == kept@[i as int].1@,
                            cand.original@ == kept@[i as int].0@,
                            cand.index == i,
                            i < nkept == kept@.len(),
                            is_last == (i + 1 == nkept),
                            bound as nat == typo_bound(kept@[i as int].1@.len()),
                            forall|q: int|
                                0 <= q < nms ==> fst_entries(self.fst).contains_pair(
                                    #[trigger] ms@[q].0@,
                                    ms@[q].1,
                                ),
                            maxd == bound as u32,
                            is_last ==> forall|q: int|
                                0 <= q < nms ==> prefix_matched(
                                    kept@[i as int].1@,
                                    #[trigger] ms@[q].0@,
                                    maxd as nat,
                                ),
                            !is_last ==> forall|q: int|
                                0 <= q < nms ==> lev_dist(kept@[i as int].1@, #[trigger] ms@[q].0@)
                                    <= maxd,
                            forall|x: u32|
                                #[trigger] cand.universe().contains(x) ==> (x as int)
                                    < self.documents@.len(),
                            forall|q: int|
                                0 <= q < mi ==> elems(
                                    self.bitmaps@[(#[trigger] ms@[q]).1 as int],
                                ).subset_of(cand.universe()),
                            forall|x: u32|
                                #[trigger] cand.universe().contains(x) ==> (if is_last {
                                    fuzzy_prefix_docs(
                                        self.fst,
                                        self.bitmaps@,
                                        kept@[i as int].1@,
                                        typo_bound(kept@[i as int].1@.len()),
                                    )
                                } else {
                                    fuzzy_docs(
                                        self.fst,
                                        self.bitmaps@,
                                        kept@[i as int].1@,
                                        typo_bound(kept@[i as int].1@.len()),
                                    )
                                }).contains(x),
                        decreases nms - mi,
                    {
                        let bucket_id = ms[mi].1;
                        let blen = self.bitmaps.len();
                        proof {
                            assert(fst_entries(self.fst).contains_pair(ms@[mi as int].0@, ms@[mi as int].1));
                            assert(fst_entries(self.fst).dom().contains(ms@[mi as int].0@));
                            assert((bucket_id as int) < self.bitmaps@.len());
                            assert(self.bitmaps@.len() == blen as int);
                            assert(bucket_id as usize as int == bucket_id as int);
                        }
                        let bm = &self.bitmaps[bucket_id as usize];
                        let ghost preuni = cand.universe();
                        cand.insert_with_maybe_typo(ms[mi].0.as_str(), bm);
                        proof {
                            assert(cand.universe() =~= preuni.union(elems(self.bitmaps@[bucket_id as int])));
                            let key = ms@[mi as int].0@;
                            assert forall|x: u32|
                                elems(self.bitmaps@[bucket_id as int]).contains(
                                    x,
                                ) implies (if is_last {
                                fuzzy_prefix_docs(
                                    self.fst,
                                    self.bitmaps@,
                                    kept@[i as int].1@,
                                    typo_bound(kept@[i as int].1@.len()),
                                )
                            } else {
                                fuzzy_docs(
                                    self.fst,
                                    self.bitmaps@,
                                    kept@[i as int].1@,
                                    typo_bound(kept@[i as int].1@.len()),
                                )
                            }).contains(x) by {
                                assert(fst_entries(self.fst).dom().contains(key) && fst_entries(
                                    self.fst,
                                )[key] == bucket_id);
                            }
                        }
                        mi = mi + 1;
                    }
                    proof {
                        if built {
                        if is_last {
                            assert forall|x: u32|
                                fuzzy_prefix_docs(
                                    self.fst,
                                    self.bitmaps@,
                                    kept@[i as int].1@,
                                    typo_bound(kept@[i as int].1@.len()),
                                ).contains(x) implies cand.universe().contains(x) by {
                                let k = choose|k: Seq<char>|
                                    #[trigger] fst_entries(self.fst).dom().contains(k)
                                        && prefix_matched(
                                        kept@[i as int].1@,
                                        k,
                                        typo_bound(kept@[i as int].1@.len()),
                                    ) && fst_entries(self.fst)[k] < self.bitmaps@.len() && elems(
                                        self.bitmaps@[fst_entries(self.fst)[k] as int],
                                    ).contains(x);
                                let q = choose|q: int|
                                    0 <= q < ms@.len() && #[trigger] ms@[q].0@ == k;
                                assert(fst_entries(self.fst).contains_pair(ms@[q].0@, ms@[q].1));
                                assert(ms@[q].1 == fst_entries(self.fst)[k]);
                                assert(elems(self.bitmaps@[ms@[q].1 as int]).contains(x));
                            }
                            assert(cand.universe() =~= fuzzy_prefix_docs(
                                self.fst,
                                self.bitmaps@,
                                kept@[i as int].1@,
                                typo_bound(kept@[i as int].1@.len()),
                            ));
                        } else {
                            assert forall|x: u32|
                                fuzzy_docs(
                                    self.fst,
                                    self.bitmaps@,
                                    kept@[i as int].1@,
                                    typo_bound(kept@[i as int].1@.len()),
                                ).contains(x) implies cand.universe().contains(x) by {
                                let k = choose|k: Seq<char>|
                                    #[trigger] fst_entries(self.fst).dom().contains(k) && lev_dist(
                                        kept@[i as int].1@,
                                        k,
                                    ) <= typo_bound(kept@[i as int].1@.len()) && fst_entries(
                                        self.fst,
                                    )[k] < self.bitmaps@.len() && elems(
                                        self.bitmaps@[fst_entries(self.fst)[k] as int],
                                    ).contains(x);
                                let q = choose|q: int|
                                    0 <= q < ms@.len() && #[trigger] ms@[q].0@ == k;
                                assert(fst_entries(self.fst).contains_pair(ms@[q].0@, ms@[q].1));
                                assert(ms@[q].1 == fst_entries(self.fst)[k]);
                                assert(elems(self.bitmaps@[ms@[q].1 as int]).contains(x));
                            }
                            assert(cand.universe() =~= fuzzy_docs(
                                self.fst,
                                self.bitmaps@,
                                kept@[i as int].1@,
                                typo_bound(kept@[i as int].1@.len()),
                            ));
                        }
                        }
                        // the exact query word, when indexed, is always
                        // among the matches
                        if fst_entries(self.fst).dom().contains(kept@[i as int].1@) {
                            let q = choose|q: int|
                                0 <= q < ms@.len() && #[trigger] ms@[q].0@ == kept@[i as int].1@;
                            assert(fst_entries(self.fst).contains_pair(ms@[q].0@, ms@[q].1));
                            assert(ms@[q].1 == fst_entries(self.fst)[kept@[i as int].1@]);
                            assert(elems(self.bitmaps@[ms@[q].1 as int]).subset_of(
                                cand.universe(),
                            ));
                        }
                    }
                }
            }
            cands.push(cand);
            proof {
                assert(ok == (forall|p: int|
                    0 <= p < i + 1 ==> automaton_fits(
                        (#[trigger] kept@[p]).1@,
                        typo_bound(kept@[p].1@.len()),
                    )));
            }
            i = i + 1;
        }
        proof {
            let q = search.input@;
            assert(surviving(q).len() == kept@.len());
            assert forall|p: int|
                0 <= p < kept@.len() implies #[trigger] surviving(q)[p] == kept@[p].0@ by {}
            if ok {
                assert forall|p: int|
                    0 <= p < cands@.len() implies automaton_fits(
                    norm_seq(#[trigger] surviving(q)[p]),
                    typo_bound(norm_seq(surviving(q)[p]).len()),
                ) by {
                    assert(norm_seq(surviving(q)[p]) == kept@[p].1@);
                }
            } else {
                let pw = choose|p: int|
                    0 <= p < kept@.len() && !automaton_fits(
                        (#[trigger] kept@[p]).1@,
                        typo_bound(kept@[p].1@.len()),
                    );
                assert(norm_seq(surviving(q)[pw]) == kept@[pw].1@);
                assert(!automaton_fits(
                    norm_seq(surviving(q)[pw]),
                    typo_bound(norm_seq(surviving(q)[pw]).len()),
                ));
            }
        }
        (cands, ok)
    }

    /// Answers a query: builds the per-word candidates, runs the ranking
    /// cascade, and resolves the emitted buckets to document texts in
    /// emission order, truncated to the requested limit. A query with no
    /// surviving words yields an empty result. When a word's fuzzy
    /// automaton cannot be built, that word degrades to exact-only
    /// matching rather than failing; the fuzzy coverage clause below is
    /// therefore conditioned on every automaton fitting.
    #[verifier::rlimit(100)]
    pub fn search<'b>(&'b self, search: &Search) -> (r: Vec<&'b str>)
        requires
            self.wf(),
        ensures
            r@.len() <= search.limit,
            (forall|ti: int|
                0 <= ti < tokens(search.input@).len() ==> norm_seq(
                    #[trigger] tokens(search.input@)[ti],
                ).len() == 0) ==> r@.len() == 0,
            forall|i: int| 0 <= i < r@.len() ==> is_doc_text(self.documents@, #[trigger] r@[i]),
            exists|gids: Seq<u32>|
                (#[trigger] gids.len()) == r@.len() && (forall|q: int|
                    0 <= q < r@.len() ==> (gids[q] as int) < self.documents@.len() && (
                    #[trigger] r@[q])@ == self.documents@[gids[q] as int]@) && (forall|
                    q1: int,
                    q2: int,
                |
                    0 <= q1 < q2 < gids.len() ==> #[trigger] gids[q1] != #[trigger] gids[q2]) && (
                forall|q: int|
                    0 <= q < gids.len() ==> query_matched(
                        self.fst,
                        self.bitmaps@,
                        search.input@,
                        #[trigger] gids[q],
                    )) && ((search.ranking_rules@.len() > 0 && search.ranking_rules@[0]
                    == RankingRule::Word && 0 < surviving(search.input@).len()
                    <= 100_000_000) ==> (forall|q: int|
                    0 <= q < gids.len() ==> (if surviving(search.input@).len() == 1 {
                        fuzzy_prefix_docs(
                            self.fst,
                            self.bitmaps@,
                            norm_seq(surviving(search.input@)[0]),
                            typo_bound(norm_seq(surviving(search.input@)[0]).len()),
                        )
                    } else {
                        fuzzy_docs(
                            self.fst,
                            self.bitmaps@,
                            norm_seq(surviving(search.input@)[0]),
                            typo_bound(norm_seq(surviving(search.input@)[0]).len()),
                        )
                    }).contains(#[trigger] gids[q]))) && ((search.ranking_rules@
                    =~= seq![RankingRule::Word] && 0 < surviving(search.input@).len()
                    <= 100_000_000 && (forall|p: int|
                    0 <= p < surviving(search.input@).len() ==> automaton_fits(
                        norm_seq(#[trigger] surviving(search.input@)[p]),
                        typo_bound(norm_seq(surviving(search.input@)[p]).len()),
                    ))) ==> (forall|q1: int, q2: int|
                    0 <= q1 < q2 < gids.len() ==> query_lead(
                        self.fst,
                        self.bitmaps@,
                        search.input@,
                        #[trigger] gids[q1],
                    ) > query_lead(self.fst, self.bitmaps@, search.input@, #[trigger] gids[q2])
                        || (query_lead(self.fst, self.bitmaps@, search.input@, gids[q1])
                        == query_lead(self.fst, self.bitmaps@, search.input@, gids[q2])
                        && gids[q1] < gids[q2]))) && (search.ranking_rules@.len() == 0
                    ==> (forall|q1: int, q2: int|
                    0 <= q1 < q2 < gids.len() ==> #[trigger] gids[q1] < #[trigger] gids[q2])),
            ({
                let ss = surviving(search.input@);
                (search.ranking_rules@.len() > 0 && search.ranking_rules@[0] == RankingRule::Word
                    && 0 < ss.len() <= 100_000_000) ==> {
                    let w0 = norm_seq(ss[0]);
                    &&& (fst_entries(self.fst).dom().contains(w0) ==> r@.len() == search.limit
                        || (forall|x: u32|
                        elems(self.bitmaps@[fst_entries(self.fst)[w0] as int]).contains(x)
                            ==> id_in_result(self.documents@, r@, x)))
                    &&& ((forall|p: int|
                        0 <= p < ss.len() ==> automaton_fits(
                            norm_seq(#[trigger] ss[p]),
                            typo_bound(norm_seq(ss[p]).len()),
                        )) ==> r@.len() == search.limit || (forall|x: u32|
                        (if ss.len() == 1 {
                            fuzzy_prefix_docs(self.fst, self.bitmaps@, w0, typo_bound(w0.len()))
                        } else {
                            fuzzy_docs(self.fst, self.bitmaps@, w0, typo_bound(w0.len()))
                        }).contains(x) ==> id_in_result(self.documents@, r@, x)))
                }
            }),
            ({
                let ss = surviving(search.input@);
                (search.ranking_rules@.len() == 0 && 0 < ss.len() <= 100_000_000) ==> r@.len()
                    == search.limit || (forall|p: int, x: u32|
                    0 <= p < ss.len() && fst_entries(self.fst).dom().contains(
                        norm_seq(#[trigger] ss[p]),
                    ) && #[trigger] elems(
                        self.bitmaps@[fst_entries(self.fst)[norm_seq(ss[p])] as int],
                    ).contains(x) ==> id_in_result(self.documents@, r@, x))
            }),
            ({
                let ss = surviving(search.input@);
                (search.ranking_rules@.len() == 0 && 0 < ss.len() <= 100_000_000 && (forall|
                    p: int,
                |
                    0 <= p < ss.len() ==> automaton_fits(
                        norm_seq(#[trigger] ss[p]),
                        typo_bound(norm_seq(ss[p]).len()),
                    ))) ==> r@.len() == search.limit || (forall|x: u32|
                    query_matched(self.fst, self.bitmaps@, search.input@, x) ==> id_in_result(
                        self.documents@,
                        r@,
                        x,
                    ))
            }),
    {
        let (mut cands, built_all) = self.get_candidates(search);
        if cands.len() == 0 {
            proof {
                let w: Seq<u32> = Seq::empty();
                assert(w.len() == 0);
            }
            return Vec::new();
        }
        if cands.len() > 100_000_000 {
            // more query words than the engine is sized for
            proof {
                let w: Seq<u32> = Seq::empty();
                assert(w.len() == 0);
            }
            return Vec::new();
        }
        let ghost gc = cands@;
        proof {
            assert forall|x: u32| union_all(gc).contains(x) implies (x as int)
                < self.documents@.len() by {
                let p = choose|p: int|
                    0 <= p < gc.len() && (#[trigger] gc[p].universe()).contains(x);
            }
        }
        let buckets: Vec<RoaringBitmap>;
        if search.ranking_rules.len() == 0 {
            // an empty pipeline degenerates to one bucket holding every
            // matched document
            let u = crate::cascade::union_universes(&cands);
            let mut bs: Vec<RoaringBitmap> = Vec::new();
            bs.push(u);
            buckets = bs;
            proof {
                assert forall|x: u32| union_all(gc).contains(x) implies pending_union(
                    buckets@,
                ).contains(x) by {
                    assert(elems(buckets@[0]).contains(x));
                }
            }
        } else {
            buckets = run_cascade(&search.ranking_rules, &mut cands, search.limit);
        }
        let nb = buckets.len();
        let mut out: Vec<&'b str> = Vec::new();
        let ghost mut gids: Seq<u32> = Seq::empty();
        let ghost mut gbk: Seq<int> = Seq::empty();
        let ghost mut pc: nat = 0;
        proof {
            assert(pending_union(buckets@.take(0)) =~= Set::<u32>::empty());
        }
        let mut bi: usize = 0;
        while bi < nb
            invariant
                self.wf(),
                nb == buckets@.len(),
                bi <= nb,
                out@.len() <= search.limit,
                forall|q: int, j: int|
                    0 <= q < j < nb ==> (#[trigger] elems(buckets@[q])).disjoint(
                        #[trigger] elems(buckets@[j]),
                    ),
                forall|q: int|
                    0 <= q < nb ==> (#[trigger] elems(buckets@[q])).finite() && elems(
                        buckets@[q],
                    ).subset_of(union_all(gc)),
                forall|x: u32| union_all(gc).contains(x) ==> (x as int) < self.documents@.len(),
                forall|q: int|
                    0 <= q < out@.len() ==> is_doc_text(self.documents@, #[trigger] out@[q]),
                gids.len() == out@.len(),
                gbk.len() == gids.len(),
                forall|q: int| 0 <= q < gbk.len() ==> 0 <= #[trigger] gbk[q] < bi,
                forall|q: int|
                    0 <= q < gbk.len() ==> elems(buckets@[#[trigger] gbk[q]]).contains(gids[q]),
                forall|q1: int, q2: int|
                    0 <= q1 < q2 < gbk.len() ==> #[trigger] gbk[q1] <= #[trigger] gbk[q2],
                forall|q1: int, q2: int|
                    0 <= q1 < q2 < gbk.len() && #[trigger] gbk[q1] == #[trigger] gbk[q2]
                        ==> gids[q1] < gids[q2],
                forall|q: int|
                    0 <= q < gids.len() ==> ((#[trigger] gids[q]) as int)
                        < self.documents@.len(),
                forall|q: int|
                    0 <= q < out@.len() ==> (#[trigger] out@[q])@
                        == self.documents@[gids[q] as int]@,
                forall|q1: int, q2: int|
                    0 <= q1 < q2 < gids.len() ==> #[trigger] gids[q1] != #[trigger] gids[q2],
                forall|q: int|
                    0 <= q < gids.len() ==> pending_union(buckets@.take(bi as int)).contains(
                        #[trigger] gids[q],
                    ),
                pending_union(buckets@.take(bi as int)).finite(),
                pc == pending_union(buckets@.take(bi as int)).len(),
                out@.len() == (if pc <= search.limit as nat {
                    pc
                } else {
                    search.limit as nat
                }),
                out@.len() == search.limit as nat || (forall|x: u32|
                    pending_union(buckets@.take(bi as int)).contains(x) ==> id_in_result(
                        self.documents@,
                        out@,
                        x,
                    )),
            decreases nb - bi,
        {
            let ids = bm_to_vec(&buckets[bi]);
            proof {
                assert forall|q: int| 0 <= q < ids@.len() implies union_all(gc).contains(
                    #[trigger] ids@[q],
                ) by {
                    assert(elems(buckets@[bi as int]).contains(ids@[q]));
                }
            }
            let nids = ids.len();
            let mut ii: usize = 0;
            while ii < nids
                invariant
                    self.wf(),
                    bi < nb == buckets@.len(),
                    nids == ids@.len(),
                    ii <= nids,
                    out@.len() <= search.limit,
                    forall|q: int| 0 <= q < nids ==> union_all(gc).contains(#[trigger] ids@[q]),
                    forall|q: int|
                        0 <= q < nids ==> elems(buckets@[bi as int]).contains(#[trigger] ids@[q]),
                    forall|q1: int, q2: int|
                        0 <= q1 < q2 < nids ==> #[trigger] ids@[q1] < #[trigger] ids@[q2],
                    forall|q: int, j: int|
                        0 <= q < j < nb ==> (#[trigger] elems(buckets@[q])).disjoint(
                            #[trigger] elems(buckets@[j]),
                        ),
                    forall|x: u32|
                        union_all(gc).contains(x) ==> (x as int) < self.documents@.len(),
                    forall|q: int|
                        0 <= q < out@.len() ==> is_doc_text(self.documents@, #[trigger] out@[q]),
                    gids.len() == out@.len(),
                    gbk.len() == gids.len(),
                    forall|q: int| 0 <= q < gbk.len() ==> 0 <= #[trigger] gbk[q] <= bi,
                    forall|q: int|
                        0 <= q < gbk.len() ==> elems(buckets@[#[trigger] gbk[q]]).contains(
                            gids[q],
                        ),
                    forall|q1: int, q2: int|
                        0 <= q1 < q2 < gbk.len() ==> #[trigger] gbk[q1] <= #[trigger] gbk[q2],
                    forall|q1: int, q2: int|
                        0 <= q1 < q2 < gbk.len() && #[trigger] gbk[q1] == #[trigger] gbk[q2]
                            ==> gids[q1] < gids[q2],
                    forall|q: int|
                        0 <= q < gbk.len() && #[trigger] gbk[q] == bi ==> id_among(
                            ids@,
                            ii as int,
                            gids[q],
                        ),
                    forall|q: int|
                        0 <= q < gids.len() ==> ((#[trigger] gids[q]) as int)
                            < self.documents@.len(),
                    forall|q: int|
                        0 <= q < out@.len() ==> (#[trigger] out@[q])@
                            == self.documents@[gids[q] as int]@,
                    forall|q1: int, q2: int|
                        0 <= q1 < q2 < gids.len() ==> #[trigger] gids[q1] != #[trigger] gids[q2],
                    forall|q: int|
                        0 <= q < gids.len() ==> pending_union(buckets@.take(bi as int)).contains(
                            #[trigger] gids[q],
                        ) || id_among(ids@, ii as int, gids[q]),
                    pending_union(buckets@.take(bi as int)).finite(),
                    pc == pending_union(buckets@.take(bi as int)).len(),
                    out@.len() == (if pc + ii <= search.limit as nat {
                        (pc + ii) as nat
                    } else {
                        search.limit as nat
                    }),
                    out@.len() == search.limit as nat || ((forall|x: u32|
                        pending_union(buckets@.take(bi as int)).contains(x) ==> id_in_result(
                            self.documents@,
                            out@,
                            x,
                        )) && (forall|q2: int|
                        0 <= q2 < ii ==> id_in_result(self.documents@, out@, #[trigger] ids@[q2]))),
                decreases nids - ii,
            {
                let id = ids[ii];
                if out.len() < search.limit {
                    proof {
                        assert(union_all(gc).contains(id));
                        assert((id as int) < self.documents@.len());
                    }
                    let ghost gout = out@;
                    let ghost gprev = gids;
                    out.push(self.documents[id as usize].as_str());
                    let ghost gbkprev = gbk;
                    proof {
                        gids = gids.push(id);
                        gbk = gbk.push(bi as int);
                        assert(out@.last()@ == self.documents@[id as int]@);
                        assert(is_doc_text(self.documents@, out@.last()));
                        assert(id_in_result(self.documents@, out@, id));
                        assert forall|q: int|
                            0 <= q < gids.len() implies ((#[trigger] gids[q]) as int)
                            < self.documents@.len() by {
                            if q < gprev.len() {
                                assert(gids[q] == gprev[q]);
                            } else {
                                assert(gids[q] == id);
                            }
                        }
                        assert forall|q: int|
                            0 <= q < out@.len() implies (#[trigger] out@[q])@
                            == self.documents@[gids[q] as int]@ by {
                            if q < gout.len() {
                                assert(out@[q] == gout[q]);
                                assert(gids[q] == gprev[q]);
                            } else {
                                assert(out@[q] == out@.last());
                                assert(gids[q] == id);
                            }
                        }
                        assert forall|q1: int, q2: int|
                            0 <= q1 < q2 < gids.len() implies #[trigger] gids[q1]
                            != #[trigger] gids[q2] by {
                            if q2 == gids.len() - 1 {
                                assert(gids[q1] == gprev[q1]);
                                if pending_union(buckets@.take(bi as int)).contains(gprev[q1]) {
                                    let j = choose|j: int|
                                        0 <= j < bi && #[trigger] elems(
                                            buckets@.take(bi as int)[j],
                                        ).contains(gprev[q1]);
                                    assert(buckets@.take(bi as int)[j] == buckets@[j]);
                                    assert(elems(buckets@[j]).disjoint(
                                        elems(buckets@[bi as int]),
                                    ));
                                    assert(elems(buckets@[bi as int]).contains(id));
                                } else {
                                    let q3 = choose|q3: int|
                                        0 <= q3 < ii && ids@[q3] == gprev[q1];
                                    assert(ids@[q3] < ids@[ii as int]);
                                }
                            } else {
                                assert(gids[q1] == gprev[q1] && gids[q2] == gprev[q2]);
                            }
                        }
                        assert forall|q: int|
                            0 <= q < gids.len() implies pending_union(
                            buckets@.take(bi as int),
                        ).contains(#[trigger] gids[q]) || id_among(ids@, ii + 1, gids[q]) by {
                            if q == gids.len() - 1 {
                                assert(ids@[ii as int] == gids[q]);
                            } else {
                                assert(gids[q] == gprev[q]);
                                if id_among(ids@, ii as int, gids[q]) {
                                    let q3 = choose|q3: int|
                                        0 <= q3 < ii && ids@[q3] == gids[q];
                                }
                            }
                        }
                        assert forall|q: int|
                            0 <= q < gbk.len() implies 0 <= #[trigger] gbk[q] <= bi by {
                            if q < gbkprev.len() {
                                assert(gbk[q] == gbkprev[q]);
                            }
                        }
                        assert forall|q: int|
                            0 <= q < gbk.len() implies elems(
                            buckets@[#[trigger] gbk[q]],
                        ).contains(gids[q]) by {
                            if q < gbkprev.len() {
                                assert(gbk[q] == gbkprev[q]);
                                assert(gids[q] == gprev[q]);
                                assert(elems(buckets@[gbkprev[q]]).contains(gprev[q]));
                            } else {
                                assert(gbk[q] == bi as int);
                                assert(gids[q] == id);
                                assert(elems(buckets@[bi as int]).contains(id));
                            }
                        }
                        assert forall|q1: int, q2: int|
                            0 <= q1 < q2 < gbk.len() implies #[trigger] gbk[q1]
                            <= #[trigger] gbk[q2] by {
                            if q2 < gbkprev.len() {
                                assert(gbk[q1] == gbkprev[q1] && gbk[q2] == gbkprev[q2]);
                            } else {
                                assert(gbk[q1] == gbkprev[q1]);
                                assert(gbkprev[q1] <= bi);
                            }
                        }
                        assert forall|q1: int, q2: int|
                            0 <= q1 < q2 < gbk.len() && #[trigger] gbk[q1] == #[trigger] gbk[q2]
                            implies gids[q1] < gids[q2] by {
                            if q2 < gbkprev.len() {
                                assert(gbk[q1] == gbkprev[q1] && gbk[q2] == gbkprev[q2]);
                                assert(gids[q1] == gprev[q1] && gids[q2] == gprev[q2]);
                            } else {
                                assert(gbk[q1] == gbkprev[q1]);
                                assert(gids[q2] == id);
                                assert(gbkprev[q1] == bi as int);
                                assert(id_among(ids@, ii as int, gprev[q1]));
                                let q3 = choose|q3: int| 0 <= q3 < ii && ids@[q3] == gprev[q1];
                                assert(ids@[q3] < ids@[ii as int]);
                                assert(gids[q1] == gprev[q1]);
                            }
                        }
                        assert forall|q: int|
                            0 <= q < gbk.len() && #[trigger] gbk[q] == bi implies id_among(
                            ids@,
                            ii + 1,
                            gids[q],
                        ) by {
                            if q < gbkprev.len() {
                                assert(gbk[q] == gbkprev[q]);
                                assert(gids[q] == gprev[q]);
                                assert(id_among(ids@, ii as int, gprev[q]));
                                let q3 = choose|q3: int| 0 <= q3 < ii && ids@[q3] == gprev[q];
                            } else {
                                assert(ids@[ii as int] == gids[q]);
                            }
                        }
                        assert forall|q: int|
                            0 <= q < out@.len() implies is_doc_text(
                            self.documents@,
                            #[trigger] out@[q],
                        ) by {
                            if q < gout.len() {
                                assert(out@[q] == gout[q]);
                            }
                        }
                        lemma_result_grows(self.documents@, gout, out@);
                    }
                } else {
                    proof {
                        assert(out@.len() == search.limit as nat);
                        assert forall|q: int|
                            0 <= q < gids.len() implies pending_union(
                            buckets@.take(bi as int),
                        ).contains(#[trigger] gids[q]) || id_among(ids@, ii + 1, gids[q]) by {
                            if id_among(ids@, ii as int, gids[q]) {
                                let q3 = choose|q3: int| 0 <= q3 < ii && ids@[q3] == gids[q];
                            }
                        }
                        assert forall|q: int|
                            0 <= q < gbk.len() && #[trigger] gbk[q] == bi implies id_among(
                            ids@,
                            ii + 1,
                            gids[q],
                        ) by {
                            assert(id_among(ids@, ii as int, gids[q]));
                            let q3 = choose|q3: int| 0 <= q3 < ii && ids@[q3] == gids[q];
                        }
                    }
                }
                ii = ii + 1;
            }
            proof {
                let pre = buckets@.take(bi as int);
                let cur = elems(buckets@[bi as int]);
                assert(buckets@.take(bi + 1) =~= pre.push(buckets@[bi as int]));
                lemma_pending_union_push(pre, buckets@[bi as int]);
                assert forall|x: u32| pending_union(pre).contains(x) implies !cur.contains(
                    x,
                ) by {
                    let j = choose|j: int|
                        0 <= j < pre.len() && #[trigger] elems(pre[j]).contains(x);
                    assert(pre[j] == buckets@[j]);
                    assert(elems(buckets@[j]).disjoint(elems(buckets@[bi as int])));
                }
                vstd::set_lib::lemma_set_disjoint_lens(pending_union(pre), cur);
                assert(pending_union(buckets@.take(bi + 1)).len() == pc + nids);
                assert forall|q: int|
                    0 <= q < gids.len() implies pending_union(buckets@.take(bi + 1)).contains(
                    #[trigger] gids[q],
                ) by {
                    if id_among(ids@, nids as int, gids[q]) {
                        let q3 = choose|q3: int| 0 <= q3 < nids && ids@[q3] == gids[q];
                        assert(elems(buckets@[bi as int]).contains(gids[q]));
                    }
                }
                if out@.len() != search.limit as nat {
                    assert forall|x: u32|
                        pending_union(buckets@.take(bi + 1)).contains(x) implies id_in_result(
                        self.documents@,
                        out@,
                        x,
                    ) by {
                        if pending_union(pre).contains(x) {
                        } else {
                            assert(cur.contains(x));
                            let q2 = choose|q2: int| 0 <= q2 < ids@.len() && ids@[q2] == x;
                            assert(id_in_result(self.documents@, out@, ids@[q2]));
                        }
                    }
                }
                pc = (pc + nids) as nat;
            }
            bi = bi + 1;
        }
        proof {
            let ss = surviving(search.input@);
            let docs = self.documents@;
            assert(buckets@.take(nb as int) =~= buckets@);
            if search.ranking_rules@.len() > 0 && search.ranking_rules@[0] == RankingRule::Word
                && 0 < ss.len() <= 100_000_000 {
                assert forall|q: int|
                    0 <= q < gids.len() implies (if ss.len() == 1 {
                    fuzzy_prefix_docs(
                        self.fst,
                        self.bitmaps@,
                        norm_seq(ss[0]),
                        typo_bound(norm_seq(ss[0]).len()),
                    )
                } else {
                    fuzzy_docs(
                        self.fst,
                        self.bitmaps@,
                        norm_seq(ss[0]),
                        typo_bound(norm_seq(ss[0]).len()),
                    )
                }).contains(#[trigger] gids[q]) by {
                    assert(pending_union(buckets@.take(nb as int)).contains(gids[q]));
                    let j = choose|j: int|
                        0 <= j < buckets@.len() && #[trigger] elems(buckets@[j]).contains(
                            gids[q],
                        );
                    assert(elems(buckets@[j]).subset_of(gc[0].universe()));
                    assert(gc[0].universe().contains(gids[q]));
                    assert(gc[0].normalized@ == norm_seq(ss[0]));
                }
            }
            if search.ranking_rules@ =~= seq![RankingRule::Word] && 0 < ss.len()
                <= 100_000_000 && (forall|p: int|
                0 <= p < ss.len() ==> automaton_fits(
                    norm_seq(#[trigger] ss[p]),
                    typo_bound(norm_seq(ss[p]).len()),
                )) {
                assert(built_all);
                assert forall|p2: int|
                    0 <= p2 < gc.len() implies (#[trigger] gc[p2].universe()) == word_match_set(
                    self.fst,
                    self.bitmaps@,
                    search.input@,
                    p2,
                ) by {
                    assert(gc[p2].normalized@ == norm_seq(ss[p2]));
                }
                assert forall|q1: int, q2: int|
                    0 <= q1 < q2 < gids.len() implies query_lead(
                    self.fst,
                    self.bitmaps@,
                    search.input@,
                    #[trigger] gids[q1],
                ) > query_lead(self.fst, self.bitmaps@, search.input@, #[trigger] gids[q2]) || (
                query_lead(self.fst, self.bitmaps@, search.input@, gids[q1]) == query_lead(
                    self.fst,
                    self.bitmaps@,
                    search.input@,
                    gids[q2],
                ) && gids[q1] < gids[q2]) by {
                    lemma_query_lead_agrees(
                        self.fst,
                        self.bitmaps@,
                        search.input@,
                        gc,
                        0,
                        gids[q1],
                    );
                    lemma_query_lead_agrees(
                        self.fst,
                        self.bitmaps@,
                        search.input@,
                        gc,
                        0,
                        gids[q2],
                    );
                    assert(elems(buckets@[gbk[q1]]).contains(gids[q1]));
                    assert(elems(buckets@[gbk[q2]]).contains(gids[q2]));
                    if gbk[q1] < gbk[q2] {
                        assert(crate::cascade::lead_matched(gc, gids[q1])
                            > crate::cascade::lead_matched(gc, gids[q2]));
                    } else {
                        assert(gbk[q1] == gbk[q2]);
                        assert(gids[q1] < gids[q2]);
                        assert(crate::cascade::lead_matched(gc, gids[q1])
                            == crate::cascade::lead_matched(gc, gids[q2]));
                    }
                }
            }
            if search.ranking_rules@.len() == 0 {
                assert forall|q1: int, q2: int|
                    0 <= q1 < q2 < gids.len() implies #[trigger] gids[q1] < #[trigger] gids[q2] by {
                    assert(0 <= gbk[q1] < nb && 0 <= gbk[q2] < nb);
                    assert(gbk[q1] == 0 && gbk[q2] == 0);
                }
            }
            assert forall|q: int| 0 <= q < gids.len() implies query_matched(
                self.fst,
                self.bitmaps@,
                search.input@,
                #[trigger] gids[q],
            ) by {
                assert(pending_union(buckets@.take(nb as int)).contains(gids[q]));
                let j = choose|j: int|
                    0 <= j < buckets@.len() && #[trigger] elems(buckets@[j]).contains(gids[q]);
                assert(elems(buckets@[j]).subset_of(union_all(gc)));
                let p = choose|p: int|
                    0 <= p < gc.len() && (#[trigger] gc[p].universe()).contains(gids[q]);
                assert(gc[p].normalized@ == norm_seq(ss[p]));
                if p + 1 == gc.len() {
                    assert(gc[p].universe().subset_of(
                        fuzzy_prefix_docs(
                            self.fst,
                            self.bitmaps@,
                            norm_seq(ss[p]),
                            typo_bound(norm_seq(ss[p]).len()),
                        ),
                    ));
                } else {
                    assert(gc[p].universe().subset_of(
                        fuzzy_docs(
                            self.fst,
                            self.bitmaps@,
                            norm_seq(ss[p]),
                            typo_bound(norm_seq(ss[p]).len()),
                        ),
                    ));
                }
            }
            if search.ranking_rules@.len() == 0 && 0 < ss.len() <= 100_000_000 && out@.len()
                != search.limit as nat {
                assert forall|p: int, x: u32|
                    0 <= p < ss.len() && fst_entries(self.fst).dom().contains(
                        norm_seq(#[trigger] ss[p]),
                    ) && #[trigger] elems(
                        self.bitmaps@[fst_entries(self.fst)[norm_seq(ss[p])] as int],
                    ).contains(x) implies id_in_result(docs, out@, x) by {
                    assert(gc[p].normalized@ == norm_seq(ss[p]));
                    assert(gc[p].universe().contains(x));
                    assert(union_all(gc).contains(x));
                    assert(pending_union(buckets@).contains(x));
                }
                if (forall|p: int|
                    0 <= p < ss.len() ==> automaton_fits(
                        norm_seq(#[trigger] ss[p]),
                        typo_bound(norm_seq(ss[p]).len()),
                    )) {
                    assert(built_all);
                    assert forall|x: u32|
                        query_matched(self.fst, self.bitmaps@, search.input@, x) implies
                        id_in_result(docs, out@, x) by {
                        let p = choose|p: int|
                            0 <= p < ss.len() && (if p + 1 == ss.len() {
                                fuzzy_prefix_docs(
                                    self.fst,
                                    self.bitmaps@,
                                    norm_seq(#[trigger] ss[p]),
                                    typo_bound(norm_seq(ss[p]).len()),
                                )
                            } else {
                                fuzzy_docs(
                                    self.fst,
                                    self.bitmaps@,
                                    norm_seq(ss[p]),
                                    typo_bound(norm_seq(ss[p]).len()),
                                )
                            }).contains(x);
                        assert(gc[p].normalized@ == norm_seq(ss[p]));
                        assert(gc[p].universe().contains(x));
                        assert(union_all(gc).contains(x));
                        assert(pending_union(buckets@).contains(x));
                    }
                }
            }
            if search.ranking_rules@.len() > 0 && search.ranking_rules@[0] == RankingRule::Word
                && 0 < ss.len() <= 100_000_000 {
                let w0 = norm_seq(ss[0]);
                assert(gc.len() == ss.len());
                assert(gc[0].normalized@ == w0);
                let placed = pending_union(buckets@);
                assert(pending_union(buckets@).len() >= search.limit || gc[0].universe().subset_of(
                    placed,
                ));
                if pending_union(buckets@).len() >= search.limit {
                    assert(out@.len() == search.limit as nat);
                } else {
                    assert(gc[0].universe().subset_of(placed));
                    if fst_entries(self.fst).dom().contains(w0) && out@.len() != search.limit
                        as nat {
                        assert forall|x: u32|
                            elems(self.bitmaps@[fst_entries(self.fst)[w0] as int]).contains(
                                x,
                            ) implies id_in_result(docs, out@, x) by {
                            assert(gc[0].universe().contains(x));
                            assert(placed.contains(x));
                        }
                    }
                    if (forall|p: int|
                        0 <= p < ss.len() ==> automaton_fits(
                            norm_seq(#[trigger] ss[p]),
                            typo_bound(norm_seq(ss[p]).len()),
                        )) && out@.len() != search.limit as nat {
                        assert(built_all);
                        assert(gc[0].universe() == (if ss.len() == 1 {
                            fuzzy_prefix_docs(self.fst, self.bitmaps@, w0, typo_bound(w0.len()))
                        } else {
                            fuzzy_docs(self.fst, self.bitmaps@, w0, typo_bound(w0.len()))
                        }));
                        assert forall|x: u32|
                            (if ss.len() == 1 {
                                fuzzy_prefix_docs(
                                    self.fst,
                                    self.bitmaps@,
                                    w0,
                                    typo_bound(w0.len()),
                                )
                            } else {
                                fuzzy_docs(self.fst, self.bitmaps@, w0, typo_bound(w0.len()))
                            }).contains(x) implies id_in_result(docs, out@, x) by {
                            assert(gc[0].universe().contains(x));
                            assert(placed.contains(x));
                        }
                    }
                }
            }
        }
        out
    }
}

} // verus!
