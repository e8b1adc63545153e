use zip_indexer::index::Index;
use zip_indexer::rank::{search, score_key, SearchResult};
use zip_indexer::records::Record;

fn rec(name: &str, files: &[&str]) -> Record {
    Record {
        name: String::from(name),
        files: files.iter().map(|f| String::from(*f)).collect(),
    }
}

fn terms(ts: &[&str]) -> Vec<String> {
    ts.iter().map(|t| String::from(*t)).collect()
}

/// The BM25 score of every document for the query, as the service
/// layer computes it, handed to the verified pipeline as bit patterns.
fn bm25_scores(idx: &Index, query: &Vec<String>) -> Vec<u64> {
    let k1 = 1.2f64;
    let b = 0.75f64;
    let n = idx.doc_count();
    let doc_count = n as f64;
    let mut mean = 0f64;
    for d in 0..n {
        mean += idx.doc_size(d) as f64;
    }
    mean /= doc_count;
    let default_idf = ((doc_count + 0.5) / 0.5 + 1.0).ln();
    let mut out: Vec<u64> = Vec::new();
    for d in 0..n {
        let stats = idx.term_stats(query, d as u64);
        let size = idx.doc_size(d) as f64;
        let mut score = 0f64;
        for st in &stats {
            let idf = if st.df == 0 {
                default_idf
            } else {
                let df = st.df as f64;
                ((doc_count - df + 0.5) / (df + 0.5) + 1.0).ln()
            };
            let tf = st.tf as f64;
            let numerator = tf * (k1 + 1.0);
            let denominator = tf + k1 * (1.0 - b + (b * size) / mean);
            score += idf * (numerator / denominator);
        }
        out.push(score.to_bits());
    }
    out
}

fn run(idx: &Index, query: &[&str], max_length: Option<i32>, min_score: Option<f64>) -> SearchResult {
    let q = terms(query);
    let scores = bm25_scores(idx, &q);
    search(idx, &scores, max_length, min_score.map(|m| m.to_bits()))
}

#[test]
fn empty_corpus_returns_nothing() {
    let idx = Index::build(&vec![]).unwrap();
    let r = search(&idx, &vec![], None, None);
    assert_eq!(r.total, 0);
    assert_eq!(r.matches.len(), 0);
}

#[test]
fn single_doc_scores_positive() {
    let idx = Index::build(&vec![rec("a.zip", &["README"])]).unwrap();
    let r = run(&idx, &["README"], None, None);
    assert_eq!(r.total, 1);
    assert_eq!(r.matches[0].file_name.as_str(), "a.zip");
    assert!(f64::from_bits(r.matches[0].score) > 0.0);
    // an unseen term contributes nothing: the score is zero, and the
    // strict filter at 0.0 drops it
    let r2 = run(&idx, &["missing"], None, Some(0.0));
    assert_eq!(r2.total, 0);
}

#[test]
fn path_split_score_value() {
    let idx = Index::build(&vec![rec("a.zip", &["src/lib/mod"])]).unwrap();
    let r = run(&idx, &["src"], None, None);
    assert_eq!(r.total, 1);
    let score = f64::from_bits(r.matches[0].score);
    // ln((1 - 1 + 0.5)/(1 + 0.5) + 1) * (1 * 2.2)/(1 + 1.2 * (0.25 + 0.75))
    let expected = (0.5f64 / 1.5 + 1.0).ln() * (2.2 / 2.2);
    assert!((score - expected).abs() < 1e-12);
    assert!((score - 0.2877).abs() < 1e-3);
}

#[test]
fn idf_monotonicity() {
    // term t appears in one document, term u in both
    let idx = Index::build(&vec![rec("a.zip", &["t/u"]), rec("b.zip", &["u"])]).unwrap();
    let st = idx.term_stats(&terms(&["t", "u"]), 0);
    let n = idx.doc_count() as f64;
    let idf = |df: u64| ((n - df as f64 + 0.5) / (df as f64 + 0.5) + 1.0).ln();
    assert_eq!(st[0].df, 1);
    assert_eq!(st[1].df, 2);
    assert!(idf(st[0].df) > idf(st[1].df));
}

#[test]
fn filtering_and_caps() {
    // five documents with fixed scores [3, 2, 1, 0, 0]
    let recs = vec![
        rec("d0", &["a"]),
        rec("d1", &["b"]),
        rec("d2", &["c"]),
        rec("d3", &["d"]),
        rec("d4", &["e"]),
    ];
    let idx = Index::build(&recs).unwrap();
    let scores: Vec<u64> = [3.0f64, 2.0, 1.0, 0.0, 0.0].iter().map(|s| s.to_bits()).collect();
    let r = search(&idx, &scores, Some(10), Some(0.5f64.to_bits()));
    assert_eq!(r.total, 3);
    assert_eq!(r.matches[0].file_name.as_str(), "d0");
    assert_eq!(r.matches[1].file_name.as_str(), "d1");
    assert_eq!(r.matches[2].file_name.as_str(), "d2");
    let r2 = search(&idx, &scores, Some(2), Some(0.0f64.to_bits()));
    assert_eq!(r2.total, 2);
    assert_eq!(r2.matches[0].file_name.as_str(), "d0");
    assert_eq!(r2.matches[1].file_name.as_str(), "d1");
    // a cap only truncates: the capped list is a prefix
    let full = search(&idx, &scores, None, Some(0.0f64.to_bits()));
    assert_eq!(full.total, 3);
    for j in 0..r2.matches.len() {
        assert_eq!(full.matches[j].file_name, r2.matches[j].file_name);
        assert_eq!(full.matches[j].score, r2.matches[j].score);
    }
    // a negative cap means no cap
    let neg = search(&idx, &scores, Some(-1), Some(0.0f64.to_bits()));
    assert_eq!(neg.total, full.total);
}

#[test]
fn search_is_pure() {
    let idx = Index::build(&vec![rec("a.zip", &["x/y"]), rec("b.zip", &["x"])]).unwrap();
    let q = terms(&["x", "y"]);
    let s1 = bm25_scores(&idx, &q);
    let s2 = bm25_scores(&idx, &q);
    assert_eq!(s1, s2);
    let r1 = search(&idx, &s1, None, None);
    let r2 = search(&idx, &s2, None, None);
    assert_eq!(r1.total, r2.total);
    for j in 0..r1.matches.len() {
        assert_eq!(r1.matches[j].file_name, r2.matches[j].file_name);
        assert_eq!(r1.matches[j].score, r2.matches[j].score);
    }
}

#[test]
fn score_key_orders_like_doubles() {
    let samples = [
        f64::NEG_INFINITY,
        -3.5,
        -0.0,
        0.0,
        1e-300,
        0.5,
        1.0,
        3.5,
        f64::INFINITY,
    ];
    for a in samples.iter() {
        for b in samples.iter() {
            let ka = score_key(a.to_bits());
            let kb = score_key(b.to_bits());
            // on real scores the key order is the value order, with
            // the two zeros equal
            assert_eq!(a.partial_cmp(b).unwrap(), ka.cmp(&kb));
        }
    }
    // not-a-numbers rank below every real score, whatever their sign
    let nan_pos = f64::NAN.to_bits();
    let nan_neg = f64::NAN.to_bits() | 0x8000_0000_0000_0000;
    for a in samples.iter() {
        assert!(score_key(nan_pos) < score_key(a.to_bits()));
        assert!(score_key(nan_neg) < score_key(a.to_bits()));
    }
}

#[test]
fn nan_scores_sort_last_and_never_match() {
    let recs = vec![rec("d0", &["a"]), rec("d1", &["b"]), rec("d2", &["c"])];
    let idx = Index::build(&recs).unwrap();
    let scores: Vec<u64> = [f64::NAN, 1.0, -2.0].iter().map(|s| s.to_bits()).collect();
    // default threshold: only the positive score matches
    let r = search(&idx, &scores, None, None);
    assert_eq!(r.total, 1);
    assert_eq!(r.matches[0].file_name.as_str(), "d1");
    // a very low threshold admits every real score, never the NaN
    let low = search(&idx, &scores, None, Some(f64::NEG_INFINITY.to_bits()));
    assert_eq!(low.total, 2);
    assert_eq!(low.matches[0].file_name.as_str(), "d1");
    assert_eq!(low.matches[1].file_name.as_str(), "d2");
}

#[test]
fn zero_scores_filter_like_ieee() {
    let recs = vec![rec("d0", &["a"]), rec("d1", &["b"])];
    let idx = Index::build(&recs).unwrap();
    let scores: Vec<u64> = [0.0f64, 1.0].iter().map(|s| s.to_bits()).collect();
    // a negative-zero threshold behaves like zero: 0.0 > -0.0 is false
    let r = search(&idx, &scores, None, Some((-0.0f64).to_bits()));
    assert_eq!(r.total, 1);
    assert_eq!(r.matches[0].file_name.as_str(), "d1");
}

#[test]
fn all_empty_documents_yield_no_results() {
    // documents that list no entries have size 0; the mean length is 0,
    // every score comes out not-a-number, and the ranking drops them all
    let idx = Index::build(&vec![rec("a.zip", &[]), rec("b.zip", &[])]).unwrap();
    assert_eq!(idx.doc_size(0), 0);
    let r = run(&idx, &["x"], None, None);
    assert_eq!(r.total, 0);
    let low = run(&idx, &["x"], None, Some(-1.0));
    assert_eq!(low.total, 0);
}
