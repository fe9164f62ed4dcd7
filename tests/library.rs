use bm25_jieba::corpus::{BuildError, Corpus};
use bm25_jieba::cursor::BlockCursor;
use bm25_jieba::index::{build_index, Block, Index, PostingList};
use bm25_jieba::merge::{live_by_doc, next_candidate, skip_to};
use bm25_jieba::query::{open_cursors, query_terms};
use bm25_jieba::tokenizer::Tokenizer;
use bm25_jieba::topk::{in_order_exec, TopK};

fn strings(v: &[&str]) -> Vec<String> {
    v.iter().map(|s| s.to_string()).collect()
}

fn fitted(tok: &Tokenizer, docs: &[&str], ids: Option<Vec<u64>>) -> Corpus {
    let mut c = Corpus::new();
    c.fit(tok, &strings(docs), false, ids).unwrap();
    c
}

fn term_pos(c: &Corpus, t: &str) -> usize {
    c.index.lookup(&t.to_string()).unwrap()
}

#[test]
fn tokenize_drops_whitespace_tokens() {
    let tok = Tokenizer::new();
    let t = tok.tokenize("苹果 手机 发布会", false);
    assert!(!t.is_empty());
    assert!(t.iter().all(|s| !s.trim().is_empty()));
    assert!(t.contains(&"苹果".to_string()));
    assert!(t.contains(&"手机".to_string()));
    assert_eq!(t.concat(), "苹果手机发布会");
}

#[test]
fn tokenize_lowercases_when_asked() {
    let tok = Tokenizer::new();
    let folded = tok.tokenize("Hello World", true);
    assert_eq!(folded, strings(&["hello", "world"]));
    let kept = tok.tokenize("Hello World", false);
    assert_eq!(kept, strings(&["Hello", "World"]));
}

#[test]
fn tokenize_empty_text() {
    let tok = Tokenizer::new();
    assert!(tok.tokenize("", false).is_empty());
    assert!(tok.tokenize("   \t ", false).is_empty());
}

#[test]
fn fit_records_lengths_ids_and_postings() {
    let tok = Tokenizer::new();
    let c = fitted(&tok, &["a b a", "b c", "c"], None);
    assert_eq!(c.doc_ids, vec![0, 1, 2]);
    assert_eq!(c.doc_lengths, vec![3, 2, 1]);
    assert_eq!(c.total_length, 6);
    assert_eq!(c.index.terms.len(), 3);
    let a = &c.index.lists[term_pos(&c, "a")];
    assert_eq!(a.doc_count, 1);
    assert_eq!(a.blocks.len(), 1);
    assert_eq!(a.blocks[0].doc_ids, vec![0]);
    assert_eq!(a.blocks[0].freqs, vec![2]);
    assert_eq!(a.blocks[0].doc_lens, vec![3]);
    let cl = &c.index.lists[term_pos(&c, "c")];
    assert_eq!(cl.doc_count, 2);
    assert_eq!(cl.blocks[0].doc_ids, vec![1, 2]);
    assert_eq!(cl.blocks[0].freqs, vec![1, 1]);
    assert_eq!(cl.blocks[0].doc_lens, vec![2, 1]);
    assert_eq!(cl.blocks[0].last_doc_id, 2);
    assert!(c.check_wf());
}

#[test]
fn fit_uses_given_ids() {
    let tok = Tokenizer::new();
    let c = fitted(&tok, &["x", "y"], Some(vec![42, 7]));
    assert_eq!(c.doc_ids, vec![42, 7]);
}

#[test]
fn fit_with_mismatched_ids_leaves_model_unchanged() {
    let tok = Tokenizer::new();
    let mut c = fitted(&tok, &["苹果 手机", "华为 手机"], None);
    let before_ids = c.doc_ids.clone();
    let before_terms = c.index.terms.clone();
    let before_lengths = c.doc_lengths.clone();
    let r = c.fit(&tok, &strings(&["a", "b", "c"]), false, Some(vec![1, 2]));
    assert_eq!(r, Err(BuildError::InvalidArgument));
    assert_eq!(c.doc_ids, before_ids);
    assert_eq!(c.index.terms, before_terms);
    assert_eq!(c.doc_lengths, before_lengths);
    assert_eq!(c.total_length, 4);
}

#[test]
fn fit_empty_corpus() {
    let tok = Tokenizer::new();
    let mut c = fitted(&tok, &["a b"], None);
    c.fit(&tok, &Vec::new(), false, None).unwrap();
    assert_eq!(c.doc_ids.len(), 0);
    assert_eq!(c.doc_lengths.len(), 0);
    assert_eq!(c.total_length, 0);
    assert!(c.index.terms.is_empty());
    let q = tok.tokenize("a b", false);
    let terms = query_terms(&c.index, &q);
    assert!(terms.is_empty());
    let mut cursors = open_cursors(&c.index, &terms);
    assert!(next_candidate(&c.index.lists, &mut cursors).is_none());
}

fn repeated(term: &str, n: usize) -> Vec<Vec<String>> {
    (0..n).map(|_| vec![term.to_string()]).collect()
}

#[test]
fn term_in_256_documents_fills_two_blocks() {
    let idx = build_index(&repeated("t", 256));
    assert_eq!(idx.terms, strings(&["t"]));
    let list = &idx.lists[0];
    assert_eq!(list.doc_count, 256);
    assert_eq!(list.blocks.len(), 2);
    assert_eq!(list.blocks[0].doc_ids.len(), 128);
    assert_eq!(list.blocks[1].doc_ids.len(), 128);
    assert_eq!(list.blocks[0].last_doc_id, 127);
    assert_eq!(list.blocks[1].last_doc_id, 255);
    assert_eq!(list.blocks[1].doc_ids[0], 128);
}

#[test]
fn term_in_257_documents_leaves_a_short_last_block() {
    let idx = build_index(&repeated("t", 257));
    let list = &idx.lists[0];
    assert_eq!(list.blocks.len(), 3);
    assert_eq!(list.blocks[2].doc_ids, vec![256]);
    assert_eq!(list.blocks[2].last_doc_id, 256);
}

#[test]
fn query_terms_are_distinct_and_known() {
    let tok = Tokenizer::new();
    let c = fitted(&tok, &["a b", "b c"], None);
    let q = strings(&["b", "zzz", "b", "a"]);
    let terms = query_terms(&c.index, &q);
    assert_eq!(terms, vec![term_pos(&c, "b"), term_pos(&c, "a")]);
}

#[test]
fn cursor_walks_across_blocks() {
    let idx = build_index(&repeated("t", 130));
    let list = &idx.lists[0];
    let mut c = BlockCursor::new(0);
    let mut seen = Vec::new();
    while let Some(d) = c.curr_doc_id(list) {
        seen.push(d);
        c.advance(list);
    }
    assert_eq!(seen, (0..130).collect::<Vec<u32>>());
    assert_eq!(c.block_idx, 2);
    assert_eq!(c.in_block_idx, 0);
    assert_eq!(c.current(list), None);
}

#[test]
fn merge_visits_documents_in_order_with_all_hits() {
    let tok = Tokenizer::new();
    let c = fitted(&tok, &["a", "b", "a b b", "c"], None);
    let q = strings(&["a", "b"]);
    let terms = query_terms(&c.index, &q);
    let mut cursors = open_cursors(&c.index, &terms);
    let mut out = Vec::new();
    while let Some(cand) = next_candidate(&c.index.lists, &mut cursors) {
        out.push((cand.doc_id, cand.hits.clone()));
    }
    assert_eq!(
        out,
        vec![(0, vec![(0, 1, 1)]), (1, vec![(1, 1, 1)]), (2, vec![(0, 1, 3), (1, 2, 3)])]
    );
}

#[test]
fn topk_keeps_best_and_prefers_lower_ids_on_ties() {
    let mut top = TopK::new(2);
    top.offer(5, 0);
    top.offer(7, 1);
    assert_eq!(top.threshold(), Some(5));
    top.offer(5, 2);
    assert_eq!(top.into_sorted_vec(), vec![(7, 1), (5, 0)]);
    let mut top = TopK::new(2);
    top.offer(3, 0);
    top.offer(3, 1);
    top.offer(4, 2);
    assert_eq!(top.into_sorted_vec(), vec![(4, 2), (3, 0)]);
}

#[test]
fn topk_with_zero_capacity_keeps_nothing() {
    let mut top = TopK::new(0);
    top.offer(9, 0);
    assert_eq!(top.threshold(), None);
    assert!(top.into_sorted_vec().is_empty());
}

#[test]
fn topk_below_capacity_has_no_threshold() {
    let mut top = TopK::new(3);
    top.offer(1, 0);
    assert_eq!(top.threshold(), None);
    assert_eq!(top.into_sorted_vec(), vec![(1, 0)]);
}

#[test]
fn ranking_order() {
    assert!(in_order_exec((5, 3), (4, 1)));
    assert!(in_order_exec((5, 1), (5, 3)));
    assert!(!in_order_exec((5, 3), (5, 1)));
}

#[test]
fn corrupt_corpus_is_refused() {
    let block = Block { last_doc_id: 9, doc_ids: vec![9], freqs: vec![1], doc_lens: vec![1] };
    let c = Corpus {
        doc_lengths: vec![1],
        doc_ids: vec![0],
        total_length: 1,
        index: Index {
            terms: strings(&["a"]),
            lists: vec![PostingList { blocks: vec![block], doc_count: 1 }],
        },
    };
    assert!(c.index.check_wf());
    assert!(!c.check_wf());
    let bad = Block { last_doc_id: 1, doc_ids: vec![0], freqs: vec![1], doc_lens: vec![1] };
    let idx = Index {
        terms: strings(&["a"]),
        lists: vec![PostingList { blocks: vec![bad], doc_count: 1 }],
    };
    assert!(!idx.check_wf());
    let dup = Index {
        terms: strings(&["a", "a"]),
        lists: vec![
            PostingList { blocks: vec![], doc_count: 0 },
            PostingList { blocks: vec![], doc_count: 0 },
        ],
    };
    assert!(!dup.check_wf());
    let unsorted = Block { last_doc_id: 1, doc_ids: vec![2, 1], freqs: vec![1, 1], doc_lens: vec![1, 1] };
    let idx = Index {
        terms: strings(&["a"]),
        lists: vec![PostingList { blocks: vec![unsorted], doc_count: 2 }],
    };
    assert!(!idx.check_wf());
    let first = Block { last_doc_id: 5, doc_ids: vec![5], freqs: vec![1], doc_lens: vec![1] };
    let second = Block { last_doc_id: 3, doc_ids: vec![3], freqs: vec![1], doc_lens: vec![1] };
    let idx = Index {
        terms: strings(&["a"]),
        lists: vec![PostingList { blocks: vec![first, second], doc_count: 2 }],
    };
    assert!(!idx.check_wf());
}

fn idf(n: f64, m: f64) -> f64 {
    ((n - m + 0.5) / (m + 0.5) + 1.0).ln()
}

fn term_score(idf: f64, f: f64, len: f64, avgdl: f64) -> f64 {
    let (k1, b) = (1.5, 0.75);
    idf * f * (k1 + 1.0) / (f + k1 * (1.0 - b + b * len / avgdl))
}

fn key(s: f64) -> u64 {
    let bits = s.to_bits();
    if bits >> 63 == 1 { !bits } else { bits | (1 << 63) }
}

#[test]
fn chinese_corpus_ranks_apple_documents_first() {
    let tok = Tokenizer::new();
    let docs = ["苹果 手机 发布会", "苹果 新 手机", "华为 手机 发布"];
    let c = fitted(&tok, &docs, Some(vec![100, 200, 300]));
    let n = c.doc_ids.len() as f64;
    let avgdl = c.total_length as f64 / n;
    let q = tok.tokenize("苹果 手机", false);
    let terms = query_terms(&c.index, &q);
    assert_eq!(terms.len(), 2);
    let idfs: Vec<f64> =
        terms.iter().map(|&t| idf(n, c.index.lists[t].doc_count as f64)).collect();
    let mut cursors = open_cursors(&c.index, &terms);
    let mut top = TopK::new(2);
    let mut scores = vec![0.0; 3];
    while let Some(cand) = next_candidate(&c.index.lists, &mut cursors) {
        let mut s = 0.0;
        for &(slot, f, len) in &cand.hits {
            s += term_score(idfs[slot], f as f64, len as f64, avgdl);
        }
        scores[cand.doc_id as usize] = s;
        top.offer(key(s), cand.doc_id);
    }
    let ranked: Vec<u64> =
        top.into_sorted_vec().iter().map(|&(_, d)| c.doc_ids[d as usize]).collect();
    assert_eq!(ranked.len(), 2);
    assert!(ranked.contains(&100) && ranked.contains(&200));
    let apple = c.index.lookup(&"苹果".to_string()).unwrap();
    assert_eq!(c.index.lists[apple].doc_count, 2);
    assert!(scores[0] > scores[2] && scores[1] > scores[2]);
}

#[test]
fn seek_skips_whole_blocks() {
    let docs: Vec<Vec<String>> =
        (0..300).map(|i| if i % 2 == 0 { strings(&["t"]) } else { strings(&["u"]) }).collect();
    let idx = build_index(&docs);
    let t = idx.lookup(&"t".to_string()).unwrap();
    let list = &idx.lists[t];
    assert_eq!(list.blocks.len(), 2);
    let mut c = BlockCursor::new(t);
    c.seek(list, 201);
    assert_eq!(c.curr_doc_id(list), Some(202));
    assert_eq!((c.block_idx, c.in_block_idx), (0, 101));
    c.seek(list, 260);
    assert_eq!(c.curr_doc_id(list), Some(260));
    assert_eq!((c.block_idx, c.in_block_idx), (1, 2));
    c.seek(list, 10);
    assert_eq!(c.curr_doc_id(list), Some(260));
    c.seek(list, 1000);
    assert_eq!(c.curr_doc_id(list), None);
    assert_eq!((c.block_idx, c.in_block_idx), (2, 0));
}

#[test]
fn skip_to_moves_only_cursors_behind_the_target() {
    let tok = Tokenizer::new();
    let c = fitted(&tok, &["a", "b", "a", "b", "a b"], None);
    let terms = query_terms(&c.index, &strings(&["a", "b"]));
    let mut cursors = open_cursors(&c.index, &terms);
    skip_to(&c.index.lists, &mut cursors, 3);
    let docs: Vec<Option<u32>> =
        cursors.iter().map(|k| k.curr_doc_id(&c.index.lists[k.term])).collect();
    assert_eq!(docs, vec![Some(4), Some(3)]);
    let cand = next_candidate(&c.index.lists, &mut cursors).unwrap();
    assert_eq!(cand.doc_id, 3);
    assert_eq!(cand.hits, vec![(1, 1, 1)]);
}

#[test]
fn live_cursors_come_in_document_order() {
    let tok = Tokenizer::new();
    let c = fitted(&tok, &["b", "a", "c"], None);
    let terms = query_terms(&c.index, &strings(&["c", "a", "b"]));
    let mut cursors = open_cursors(&c.index, &terms);
    assert_eq!(live_by_doc(&c.index.lists, &cursors), vec![(0, 2), (1, 1), (2, 0)]);
    next_candidate(&c.index.lists, &mut cursors).unwrap();
    assert_eq!(live_by_doc(&c.index.lists, &cursors), vec![(1, 1), (2, 0)]);
}
