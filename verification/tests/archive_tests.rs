use std::io::Cursor;
use std::io::Write;
use zip::write::SimpleFileOptions;
use zip::write::ZipWriter;
use zip_indexer::archive::{is_zip, read_and_dump_zips};
use zip_indexer::errors::IndexError;
use zip_indexer::records::{record_line, Record};

fn make_zip(entries: &[&str]) -> Vec<u8> {
    let mut w = ZipWriter::new(Cursor::new(Vec::new()));
    let options = SimpleFileOptions::default().compression_method(zip::CompressionMethod::Stored);
    for e in entries {
        w.start_file(*e, options).unwrap();
        w.write_all(b"x").unwrap();
    }
    w.finish().unwrap().into_inner()
}

#[test]
fn zip_names_are_recognized() {
    assert!(is_zip("a.zip"));
    assert!(is_zip(".zip"));
    assert!(!is_zip("zip"));
    assert!(!is_zip("a.zip.txt"));
    assert!(!is_zip("a.ZIP"));
}

#[test]
fn listings_become_intermediate_lines() {
    let data = make_zip(&["src/main.rs", "docs/readme.md"]);
    let zips = vec![
        (String::from("a.zip"), data),
        (String::from("notes.txt"), vec![1, 2, 3]),
    ];
    let text = read_and_dump_zips(&zips).unwrap();
    // one line, for the one archive; the plain file is passed over
    let lines: Vec<&str> = text.lines().collect();
    assert_eq!(lines.len(), 1);
    let v: serde_json::Value = serde_json::from_str(lines[0]).unwrap();
    assert_eq!(v["name"].as_str().unwrap(), "a.zip");
    let files: Vec<&str> = v["files"]
        .as_array()
        .unwrap()
        .iter()
        .map(|f| f.as_str().unwrap())
        .collect();
    assert_eq!(files, vec!["src/main.rs", "docs/readme.md"]);
}

#[test]
fn malformed_archives_abort_the_pass() {
    let zips = vec![(String::from("bad.zip"), vec![0, 1, 2, 3])];
    assert!(matches!(
        read_and_dump_zips(&zips),
        Err(IndexError::ArchiveMalformed)
    ));
}

#[test]
fn record_lines_escape_json_text() {
    let rec = Record {
        name: String::from("we\"ird\\name.zip"),
        files: vec![String::from("a\nb"), String::from("tab\there")],
    };
    let line = record_line(&rec);
    let v: serde_json::Value = serde_json::from_str(line.as_str()).unwrap();
    assert_eq!(v["name"].as_str().unwrap(), "we\"ird\\name.zip");
    assert_eq!(v["files"][0].as_str().unwrap(), "a\nb");
    assert_eq!(v["files"][1].as_str().unwrap(), "tab\there");
}

#[test]
fn control_characters_use_unicode_escapes() {
    let rec = Record {
        name: String::from("a.zip"),
        files: vec![String::from("\u{1}x")],
    };
    let line = record_line(&rec);
    assert!(line.contains("\\u0001"));
    let v: serde_json::Value = serde_json::from_str(line.as_str()).unwrap();
    assert_eq!(v["files"][0].as_str().unwrap(), "\u{1}x");
}
