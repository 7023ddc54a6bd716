use fuzzy_search::{Index, RankingRule, Search};

fn create_small_index() -> Index {
    let names = [
        "Tamo le plus beau",
        "kefir le bon petit chien",
        "kefir le beau chien",
        "tamo est très beau aussi",
        "le plus beau c'est kefir",
        "mais il est un peu con",
        "le petit kefir",
        "kefirounet se prends pour un poney",
        "kefirounet a un gros nez",
        "kefir est un demi poney",
        "le double kef",
        "les keftas c'est bon aussi",
    ];
    Index::construct(names.into_iter().map(|s| s.to_string()).collect())
}

#[test]
fn test_search_with_only_word() {
    let index = create_small_index();
    let mut search = Search::new("tamo");
    search.ranking_rules = vec![RankingRule::Word];
    assert_eq!(
        index.search(&search),
        vec!["Tamo le plus beau", "tamo est très beau aussi"]
    );

    // "tamo est" was matched first and then tamo alone
    let mut search = Search::new("tamo est");
    search.ranking_rules = vec![RankingRule::Word];
    assert_eq!(
        index.search(&search),
        vec!["tamo est très beau aussi", "Tamo le plus beau"]
    );

    // "kefir" was removed right after we found no matches for both matches
    // and thus no prefix search was ran and we missed kefirounet
    let mut search = Search::new("beau kefir");
    search.ranking_rules = vec![RankingRule::Word];
    assert_eq!(
        index.search(&search),
        vec![
            "kefir le beau chien",
            "le plus beau c'est kefir",
            "Tamo le plus beau",
            "tamo est très beau aussi",
        ]
    );
}

#[test]
fn exact_word_query_finds_document() {
    let index = create_small_index();
    let search = Search::new("poney");
    let results = index.search(&search);
    assert!(results.contains(&"kefirounet se prends pour un poney"));
    assert!(results.contains(&"kefir est un demi poney"));
}

#[test]
fn typo_tolerance_matches_within_bound() {
    let index = create_small_index();
    // "tamp" is one edit from "tamo": allowed for a four-letter word
    let mut search = Search::new("tamp");
    search.ranking_rules = vec![RankingRule::Word];
    assert_eq!(
        index.search(&search),
        vec!["Tamo le plus beau", "tamo est très beau aussi"]
    );
}

#[test]
fn typo_beyond_bound_does_not_match() {
    let index = create_small_index();
    // "tamxx" is two edits from "tamo" and no prefix rescues it
    let search = Search::new("tamxx");
    let results = index.search(&search);
    assert!(results.is_empty());
}

#[test]
fn prefix_applies_to_last_word_only() {
    let index = create_small_index();
    // as the last word, "kefirou" is a fuzzy prefix of "kefirounet": the
    // document holding both "nez" and "kefirounet" wins the conjunction
    let mut search = Search::new("nez kefirou");
    search.ranking_rules = vec![RankingRule::Word];
    let results = index.search(&search);
    assert_eq!(results[0], "kefirounet a un gros nez");

    // as a non-last word, "kefirou" only matches "kefir" by typo distance,
    // not "kefirounet" by prefix: the conjunction with "nez" is empty, the
    // relaxation drops "nez", and the nez-only document never surfaces
    let mut search = Search::new("kefirou nez");
    search.ranking_rules = vec![RankingRule::Word];
    let results = index.search(&search);
    assert!(!results.contains(&"kefirounet a un gros nez"));
    assert!(results.contains(&"kefir le beau chien"));
}

#[test]
fn typo_stage_orders_by_distance() {
    let docs = vec!["aaab zz".to_string(), "aaaa zz".to_string()];
    let index = Index::construct(docs);
    let mut search = Search::new("aaaa");
    search.ranking_rules = vec![RankingRule::Word, RankingRule::Typo];
    // the exact match outranks the one-typo match even though its id is larger
    assert_eq!(index.search(&search), vec!["aaaa zz", "aaab zz"]);
}

#[test]
fn exact_stage_puts_exact_matches_first() {
    let docs = vec!["kefirounet zz".to_string(), "kefir".to_string()];
    let index = Index::construct(docs);
    let mut search = Search::new("kefir");
    search.ranking_rules = vec![RankingRule::Word, RankingRule::Typo, RankingRule::Exact];
    // both match at distance zero (one by prefix), the exact word first
    assert_eq!(index.search(&search), vec!["kefir", "kefirounet zz"]);
}

#[test]
fn default_search_uses_all_stages_and_limit_ten() {
    let index = create_small_index();
    let search = Search::new("kefir");
    let results = index.search(&search);
    assert!(results.len() <= 10);
    assert_eq!(results[0], "kefir le bon petit chien");
}

#[test]
fn results_for_smaller_limit_are_a_prefix() {
    let index = create_small_index();
    let mut small = Search::new("beau");
    small.ranking_rules = vec![RankingRule::Word];
    small.limit = 2;
    let mut large = Search::new("beau");
    large.ranking_rules = vec![RankingRule::Word];
    large.limit = 4;
    let small_results = index.search(&small);
    let large_results = index.search(&large);
    assert_eq!(small_results.len(), 2);
    assert_eq!(large_results.len(), 4);
    assert_eq!(small_results[..], large_results[..2]);
}

#[test]
fn empty_query_yields_empty_result() {
    let index = create_small_index();
    let search = Search::new("");
    assert!(index.search(&search).is_empty());
}

#[test]
fn punctuation_only_query_yields_empty_result() {
    let index = create_small_index();
    let search = Search::new("!!! ... ???");
    assert!(index.search(&search).is_empty());
}

#[test]
fn empty_corpus_and_empty_documents_are_valid() {
    let empty = Index::construct(Vec::new());
    let search = Search::new("tamo");
    assert!(empty.search(&search).is_empty());

    let blank = Index::construct(vec!["".to_string(), "   ".to_string()]);
    assert!(blank.search(&search).is_empty());
}

#[test]
fn normalization_folds_case_accents_and_punctuation() {
    assert_eq!(fuzzy_search::normalize("Café!"), "cafe");
    assert_eq!(fuzzy_search::normalize("TAMO"), "tamo");
    assert_eq!(fuzzy_search::normalize("très"), "tres");
    assert_eq!(fuzzy_search::normalize("c'est"), "cest");
    assert_eq!(fuzzy_search::normalize("..."), "");
}

#[test]
fn accented_query_matches_accented_document() {
    let index = create_small_index();
    let mut search = Search::new("tres");
    search.ranking_rules = vec![RankingRule::Word];
    assert_eq!(index.search(&search), vec!["tamo est très beau aussi"]);
}

#[test]
fn empty_rule_list_returns_all_matches_in_one_bucket() {
    let index = create_small_index();
    let mut search = Search::new("tamo");
    search.ranking_rules = Vec::new();
    assert_eq!(
        index.search(&search),
        vec!["Tamo le plus beau", "tamo est très beau aussi"]
    );
}

#[test]
fn no_document_is_returned_twice() {
    let index = create_small_index();
    let mut search = Search::new("kefir kef");
    search.ranking_rules = vec![RankingRule::Word, RankingRule::Typo, RankingRule::Exact];
    let results = index.search(&search);
    for (i, a) in results.iter().enumerate() {
        for b in results.iter().skip(i + 1) {
            assert_ne!(a, b);
        }
    }
}

#[test]
fn default_pipeline_emits_every_distance_level() {
    // one exact match and one one-typo match must both come out, in order,
    // even though the full pipeline spends several steps per bucket
    let docs = vec!["aaa zz".to_string(), "aab zz".to_string()];
    let index = Index::construct(docs);
    let search = Search::new("aaa");
    assert_eq!(index.search(&search), vec!["aaa zz", "aab zz"]);
}
