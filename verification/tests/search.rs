//! Search by meaning and by words.

use sensetree::search::{
    rerank_documents, rerank_keys, retrieve_candidates, search_limits, search_query,
    semantic_search, Hit, FUSION_SCALE, RERANK_CHARS,
};
use sensetree::tree::{best_per_file, semantic_tree, tree_limit, tree_root, ScoredPath};

fn s(t: &str) -> String {
    t.to_string()
}

fn hit(path: &str, chunk_index: i32, score: u32) -> Hit {
    Hit { path: s(path), chunk_index, score, text: format!("texte de {path}"), snippet: s("bout") }
}

#[test]
fn two_rankings_weigh_more() {
    let dense = vec![hit("/a", 0, 900), hit("/b", 0, 800)];
    let sparse = vec![hit("/b", 0, 50), hit("/c", 0, 40)];
    let c = retrieve_candidates(&dense, &sparse, true);
    let order: Vec<&str> = c.iter().map(|x| x.path.as_str()).collect();
    // In the first and the second place: more than a first place alone.
    assert_eq!(order[0], "/b");
    assert_eq!(c.len(), 3);
    assert_eq!(c[0].rank, FUSION_SCALE / 62 + FUSION_SCALE / 61);
    assert_eq!(c[0].dense, Some(800));
    assert_eq!(c.iter().find(|x| x.path == "/c").unwrap().dense, None);
}

#[test]
fn a_chunk_is_one_candidate() {
    let dense = vec![hit("/a", 0, 9), hit("/a", 1, 8)];
    let sparse = vec![hit("/a", 1, 1), hit("/a", 0, 1)];
    assert_eq!(retrieve_candidates(&dense, &sparse, true).len(), 2);
    let plain = retrieve_candidates(&dense, &vec![], false);
    assert_eq!(plain.len(), 2);
    assert_eq!((plain[0].path.as_str(), plain[0].chunk_index), ("/a", 0));
}

#[test]
fn results_are_distinct_existing_files() {
    let dense = vec![hit("/a", 0, 9), hit("/a", 1, 8), hit("/gone", 0, 7), hit("/b", 0, 6), hit("/c", 0, 5)];
    let c = retrieve_candidates(&dense, &vec![], false);
    let existing = vec![s("/a"), s("/b"), s("/c")];
    let r = semantic_search(&c, &None, &existing, 2);
    let paths: Vec<&str> = r.iter().map(|x| x.path.as_str()).collect();
    assert_eq!(paths, vec!["/a", "/b"]);
    // A reranker has the last word.
    let keys = Some(vec![0i64, 0, 0, 0, 99]);
    let r = semantic_search(&c, &keys, &existing, 2);
    assert_eq!(r[0].path, "/c");
}

#[test]
fn what_a_reranker_is_given() {
    let mut dense = vec![hit("/a", 0, 9), hit("/b", 0, 8)];
    dense[0].text = "é".repeat(2000);
    let c = retrieve_candidates(&dense, &vec![], false);
    let docs = rerank_documents(&c, 1);
    assert_eq!(docs.len(), 1);
    assert_eq!(docs[0].chars().count(), RERANK_CHARS);
    assert_eq!(rerank_keys(&vec![(1, 7), (0, 3)], 2), vec![3, 7]);
}

#[test]
fn limits_of_a_search() {
    let l = search_limits(None);
    assert!(l.limit <= l.rerank_pool && l.rerank_pool <= l.pool);
    assert!(search_limits(Some(0)).limit >= 1);
}

fn scored(path: &str, score: u32) -> ScoredPath {
    ScoredPath { path: s(path), score, is_dir: false }
}

#[test]
fn a_folder_scores_as_its_best_file() {
    let hits = vec![scored("/r/d/a", 10), scored("/r/d/b", 90), scored("/r/c", 50)];
    let tree = semantic_tree("/r", "r", &hits, '/').unwrap();
    assert_eq!(tree.score, 90);
    assert_eq!(tree.children.len(), 2);
    assert_eq!((tree.children[0].name.as_str(), tree.children[0].score), ("d", 90));
    assert!(tree.children[0].is_dir);
    assert_eq!((tree.children[1].name.as_str(), tree.children[1].score), ("c", 50));
    assert_eq!(tree.children[0].children[0].name, "b");
}

#[test]
fn the_best_chunk_stands_for_its_file() {
    let v = best_per_file(&vec![scored("/a", 1), scored("/b", 5), scored("/a", 3)]);
    assert_eq!(v.len(), 2);
    assert_eq!(v.iter().find(|x| x.path == "/a").unwrap().score, 3);
    assert_eq!(tree_root(&Some(s("/s")), &vec![s("/r")]).as_deref(), Some("/s"));
    assert_eq!(tree_root(&None, &vec![s("/r")]).as_deref(), Some("/r"));
    assert_eq!(tree_root(&None, &vec![]), None);
    assert!(tree_limit(Some(0)) >= 1);
}

#[test]
fn a_blank_question_has_no_answer() {
    assert!(search_query("").is_none());
    assert!(search_query(" \t\n").is_none());
    assert_eq!(search_query("  factures 2024 ").as_deref(), Some("factures 2024"));
}
