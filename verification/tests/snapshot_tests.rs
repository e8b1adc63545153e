use zip_indexer::errors::IndexError;
use zip_indexer::index::Index;
use zip_indexer::rank::search;
use zip_indexer::records::Record;

fn rec(name: &str, files: &[&str]) -> Record {
    Record {
        name: String::from(name),
        files: files.iter().map(|f| String::from(*f)).collect(),
    }
}

fn terms(ts: &[&str]) -> Vec<String> {
    ts.iter().map(|t| String::from(*t)).collect()
}

fn bm25_scores(idx: &Index, query: &Vec<String>) -> Vec<u64> {
    let k1 = 1.2f64;
    let b = 0.75f64;
    let n = idx.doc_count();
    let doc_count = n as f64;
    let mut mean = 0f64;
    for d in 0..n {
        mean += idx.doc_size(d) as f64;
    }
    mean /= doc_count;
    let default_idf = ((doc_count + 0.5) / 0.5 + 1.0).ln();
    let mut out: Vec<u64> = Vec::new();
    for d in 0..n {
        let stats = idx.term_stats(query, d as u64);
        let size = idx.doc_size(d) as f64;
        let mut score = 0f64;
        for st in &stats {
            let idf = if st.df == 0 {
                default_idf
            } else {
                let df = st.df as f64;
                ((doc_count - df + 0.5) / (df + 0.5) + 1.0).ln()
            };
            let tf = st.tf as f64;
            score += idf * (tf * (k1 + 1.0)) / (tf + k1 * (1.0 - b + (b * size) / mean));
        }
        out.push(score.to_bits());
    }
    out
}

fn corpus() -> Index {
    Index::build(&vec![
        rec("alpha.zip", &["src/main", "src/lib", "docs/readme"]),
        rec("beta.zip", &["src/lib", "tests/t1", ""]),
        rec("gamma.zip", &["a/b/c", "a//c", "weird\"name\\x"]),
    ])
    .unwrap()
}

#[test]
fn snapshot_round_trips_index_state() {
    let idx = corpus();
    let bytes = idx.dump();
    let idx2 = Index::load(&bytes).unwrap();
    assert_eq!(idx.doc_count(), idx2.doc_count());
    for d in 0..idx.doc_count() {
        assert_eq!(idx.doc_name(d), idx2.doc_name(d));
        assert_eq!(idx.doc_size(d), idx2.doc_size(d));
    }
    let q = terms(&["src", "lib", "", "c", "missing"]);
    for d in 0..idx.doc_count() {
        let s1 = idx.term_stats(&q, d as u64);
        let s2 = idx2.term_stats(&q, d as u64);
        for i in 0..s1.len() {
            assert_eq!((s1[i].tf, s1[i].df), (s2[i].tf, s2[i].df));
        }
    }
    // and the snapshot of the restored index is byte-identical
    assert_eq!(bytes, idx2.dump());
}

#[test]
fn searches_agree_after_round_trip() {
    let idx = corpus();
    let bytes = idx.dump();
    let idx2 = Index::load(&bytes).unwrap();
    // a deterministic pseudo-random stream of queries
    let vocab = ["src", "lib", "main", "a", "b", "c", "", "docs", "zzz"];
    let mut state: u64 = 0x9e3779b97f4a7c15;
    for _ in 0..100 {
        let mut q: Vec<String> = Vec::new();
        for _ in 0..3 {
            state = state.wrapping_mul(6364136223846793005).wrapping_add(1442695040888963407);
            q.push(String::from(vocab[(state >> 33) as usize % vocab.len()]));
        }
        let r1 = search(&idx, &bm25_scores(&idx, &q), None, None);
        let r2 = search(&idx2, &bm25_scores(&idx2, &q), None, None);
        assert_eq!(r1.total, r2.total);
        for j in 0..r1.matches.len() {
            assert_eq!(r1.matches[j].file_name, r2.matches[j].file_name);
            assert_eq!(r1.matches[j].score, r2.matches[j].score);
        }
    }
}

#[test]
fn corrupt_snapshots_are_rejected() {
    assert!(matches!(
        Index::load(&vec![1, 2, 3]),
        Err(IndexError::SnapshotCorrupt)
    ));
    let idx = corpus();
    let mut bytes = idx.dump();
    bytes.pop();
    assert!(matches!(
        Index::load(&bytes),
        Err(IndexError::SnapshotCorrupt)
    ));
    let mut longer = idx.dump();
    longer.push(0);
    assert!(matches!(
        Index::load(&longer),
        Err(IndexError::SnapshotCorrupt)
    ));
}

#[test]
fn empty_index_round_trips() {
    let idx = Index::build(&vec![]).unwrap();
    let bytes = idx.dump();
    let idx2 = Index::load(&bytes).unwrap();
    assert_eq!(idx2.doc_count(), 0);
}

fn push_u64(out: &mut Vec<u8>, v: u64) {
    out.extend_from_slice(&v.to_le_bytes());
}

fn push_str(out: &mut Vec<u8>, s: &str) {
    push_u64(out, s.chars().count() as u64);
    for c in s.chars() {
        out.extend_from_slice(&(c as u32).to_le_bytes());
    }
}

#[test]
fn snapshots_with_duplicate_names_are_rejected() {
    let mut b: Vec<u8> = Vec::new();
    push_u64(&mut b, 2); // two documents
    push_str(&mut b, "a");
    push_str(&mut b, "a"); // same display name twice
    push_u64(&mut b, 0);
    push_u64(&mut b, 0); // their sizes
    push_u64(&mut b, 0); // no postings
    assert!(matches!(Index::load(&b), Err(IndexError::SnapshotCorrupt)));
}

#[test]
fn snapshots_with_bad_postings_are_rejected() {
    // an entry pointing at a document beyond the corpus
    let mut b: Vec<u8> = Vec::new();
    push_u64(&mut b, 1);
    push_str(&mut b, "a");
    push_u64(&mut b, 1);
    push_u64(&mut b, 1); // one posting
    push_str(&mut b, "t");
    push_u64(&mut b, 1); // one entry
    push_u64(&mut b, 5); // document 5 does not exist
    push_u64(&mut b, 1);
    assert!(matches!(Index::load(&b), Err(IndexError::SnapshotCorrupt)));

    // an entry with a zero count
    let mut c: Vec<u8> = Vec::new();
    push_u64(&mut c, 1);
    push_str(&mut c, "a");
    push_u64(&mut c, 1);
    push_u64(&mut c, 1);
    push_str(&mut c, "t");
    push_u64(&mut c, 1);
    push_u64(&mut c, 0);
    push_u64(&mut c, 0); // count 0 is not a posting entry
    assert!(matches!(Index::load(&c), Err(IndexError::SnapshotCorrupt)));
}

#[test]
fn well_formed_crafted_snapshots_load() {
    let mut b: Vec<u8> = Vec::new();
    push_u64(&mut b, 1);
    push_str(&mut b, "a.zip");
    push_u64(&mut b, 1);
    push_u64(&mut b, 1);
    push_str(&mut b, "t");
    push_u64(&mut b, 1);
    push_u64(&mut b, 0); // document 0
    push_u64(&mut b, 7); // seven occurrences
    let idx = Index::load(&b).unwrap();
    assert_eq!(idx.doc_count(), 1);
    assert_eq!(idx.doc_name(0).as_str(), "a.zip");
    let st = idx.term_stats(&terms(&["t"]), 0);
    assert_eq!((st[0].tf, st[0].df), (7, 1));
    assert_eq!(idx.dump(), b);
}
