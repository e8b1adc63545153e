use zip_indexer::errors::IndexError;
use zip_indexer::index::Index;
use zip_indexer::records::Record;

fn rec(name: &str, files: &[&str]) -> Record {
    Record {
        name: String::from(name),
        files: files.iter().map(|f| String::from(*f)).collect(),
    }
}

fn terms(ts: &[&str]) -> Vec<String> {
    ts.iter().map(|t| String::from(*t)).collect()
}

#[test]
fn empty_corpus_builds_empty_index() {
    let idx = Index::build(&vec![]).unwrap();
    assert_eq!(idx.doc_count(), 0);
}

#[test]
fn greeting_is_served() {
    assert_eq!(zip_indexer::index(), "Hello, world!");
}

#[test]
fn single_doc_single_term() {
    let idx = Index::build(&vec![rec("a.zip", &["README"])]).unwrap();
    assert_eq!(idx.doc_count(), 1);
    assert_eq!(idx.doc_size(0), 1);
    assert_eq!(idx.doc_name(0).as_str(), "a.zip");
    assert_eq!(idx.doc_id(&String::from("a.zip")), Some(0));
    assert_eq!(idx.doc_id(&String::from("b.zip")), None);
    let st = idx.term_stats(&terms(&["README", "missing"]), 0);
    assert_eq!(st.len(), 2);
    assert_eq!((st[0].tf, st[0].df), (1, 1));
    assert_eq!((st[1].tf, st[1].df), (0, 0));
}

#[test]
fn path_components_are_split_on_slash() {
    let idx = Index::build(&vec![rec("a.zip", &["src/lib/mod"])]).unwrap();
    // three distinct components: src, lib, mod
    assert_eq!(idx.doc_size(0), 3);
    let st = idx.term_stats(&terms(&["src", "lib", "mod", "src/lib"]), 0);
    assert_eq!((st[0].tf, st[0].df), (1, 1));
    assert_eq!((st[1].tf, st[1].df), (1, 1));
    assert_eq!((st[2].tf, st[2].df), (1, 1));
    // a full path is not itself a term
    assert_eq!((st[3].tf, st[3].df), (0, 0));
}

#[test]
fn empty_components_are_preserved() {
    let idx = Index::build(&vec![rec("a.zip", &["/a//b/"])]).unwrap();
    // "/a//b/" splits into "", "a", "", "b", ""
    let st = idx.term_stats(&terms(&["", "a", "b"]), 0);
    assert_eq!((st[0].tf, st[0].df), (3, 1));
    assert_eq!((st[1].tf, st[1].df), (1, 1));
    assert_eq!((st[2].tf, st[2].df), (1, 1));
    assert_eq!(idx.doc_size(0), 3);
}

#[test]
fn occurrences_are_counted_per_document() {
    let idx = Index::build(&vec![
        rec("a.zip", &["x/y", "x/z", "x"]),
        rec("b.zip", &["x"]),
    ])
    .unwrap();
    assert_eq!(idx.doc_count(), 2);
    // doc 0 has components x, y, x, z, x: three distinct terms
    assert_eq!(idx.doc_size(0), 3);
    assert_eq!(idx.doc_size(1), 1);
    let st_a = idx.term_stats(&terms(&["x", "y", "z"]), 0);
    assert_eq!((st_a[0].tf, st_a[0].df), (3, 2));
    assert_eq!((st_a[1].tf, st_a[1].df), (1, 1));
    assert_eq!((st_a[2].tf, st_a[2].df), (1, 1));
    let st_b = idx.term_stats(&terms(&["x", "y"]), 1);
    assert_eq!((st_b[0].tf, st_b[0].df), (1, 2));
    assert_eq!((st_b[1].tf, st_b[1].df), (0, 1));
}

#[test]
fn duplicate_names_are_rejected() {
    let r = Index::build(&vec![rec("a.zip", &["x"]), rec("a.zip", &["y"])]);
    assert!(matches!(r, Err(IndexError::DuplicateDocument)));
}

#[test]
fn component_totals_fit_the_counters() {
    let records = vec![rec("a.zip", &["x/y", "z"]), rec("b.zip", &[])];
    assert!(zip_indexer::index::records_fit_check(&records));
}
