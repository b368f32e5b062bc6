use std::collections::HashMap;

use rte::sanitize::{path_components, sanitize_path};
use rte::tar::{archive_records, is_tar_gz, read_all, tar_gz_bytes, StripComponents, TarFileIter};
use rte::template::{TemplateConfig, TemplateFile, TemplatedFileIter};
use rte::RteError;

fn record(path: &str, content: &str) -> TemplateFile {
    TemplateFile {
        path: path.to_string(),
        content: content.as_bytes().to_vec(),
    }
}

fn to_map(files: Vec<TemplateFile>) -> HashMap<String, String> {
    files
        .into_iter()
        .map(|f| (f.path, String::from_utf8(f.content).expect("non-utf8 content")))
        .collect()
}

#[test]
fn test_write_to_tar_read_from_tar() {
    let template = vec![
        record(
            "README.md",
            "# {{ values.project_name }}\n\nA project by {{ values.author }}.",
        ),
        record(
            "src/main.rs",
            "fn main() {\n    println!(\"Hello from {{ values.project_name }}\");\n}",
        ),
        record(
            "src/{{ values.project_name }}.rs",
            "// prepared file for {{ values.project_name }}",
        ),
    ];
    let mut m = serde_json::Map::new();
    m.insert(
        "project_name".to_string(),
        serde_json::Value::String("my-app".to_string()),
    );
    m.insert(
        "author".to_string(),
        serde_json::Value::String("Alice".to_string()),
    );
    let params = serde_json::Value::Object(m);

    // Render, then serialize to an in-memory tar.gz archive.
    let mut templated = TemplatedFileIter::with_config(template, params, TemplateConfig::default());
    let mut rendered = Vec::new();
    while let Some(item) = templated.next() {
        rendered.push(item.unwrap());
    }
    let gz = tar_gz_bytes(&rendered).unwrap();

    // Read back from the archive bytes.
    let mut iter = TarFileIter::new(gz).unwrap();
    let result = to_map(read_all(&mut iter).unwrap());

    let expected: HashMap<String, String> = vec![
        ("README.md", "# my-app\n\nA project by Alice."),
        (
            "src/main.rs",
            "fn main() {\n    println!(\"Hello from my-app\");\n}",
        ),
        ("src/my-app.rs", "// prepared file for my-app"),
    ]
    .into_iter()
    .map(|(k, v)| (k.to_string(), v.to_string()))
    .collect();
    assert_eq!(result, expected);
}

#[test]
fn test_write_file_rejects_parent_dir() {
    let file = record("../escape.txt", "evil content");

    let result = sanitize_path(&file.path);
    assert!(result.is_err());
    assert!(result.unwrap_err().message().contains(".."));
}

#[test]
fn test_sanitize_drops_markers() {
    let segs = sanitize_path("./src//./main.rs").unwrap();
    assert_eq!(segs, vec!["src".to_string(), "main.rs".to_string()]);
}

#[test]
fn test_sanitize_empty_means_nothing_to_write() {
    let segs = sanitize_path("./.").unwrap();
    assert!(segs.is_empty());
}

#[test]
fn test_path_components_keep_parents() {
    // Strip-counting sees parent segments as components; only markers drop.
    let segs = path_components("a/../b");
    assert_eq!(
        segs,
        vec!["a".to_string(), "..".to_string(), "b".to_string()]
    );
}

#[test]
fn test_strip_components() {
    let files = vec![
        record("root", "dropped: exactly one segment"),
        record("root/a.txt", "a"),
        record("root/sub/b.txt", "b"),
    ];
    let mut strip = StripComponents::new(files, 1);
    let mut out = Vec::new();
    while let Some(f) = strip.next() {
        out.push(f);
    }
    let result = to_map(out);
    let expected: HashMap<String, String> = vec![("a.txt", "a"), ("sub/b.txt", "b")]
        .into_iter()
        .map(|(k, v)| (k.to_string(), v.to_string()))
        .collect();
    assert_eq!(result, expected);
}

#[test]
fn test_strip_all_too_short_drops_everything() {
    let files = vec![record("one", "x"), record("two", "y")];
    let mut strip = StripComponents::new(files, 1);
    assert!(strip.next().is_none());
}

#[test]
fn test_archive_records_strips_root_folder() {
    let files = vec![
        record("repo-main-abc123/README.md", "hello"),
        record("repo-main-abc123/src/lib.rs", "code"),
    ];
    let gz = tar_gz_bytes(&files).unwrap();
    let result = to_map(archive_records(gz).unwrap());
    let expected: HashMap<String, String> = vec![("README.md", "hello"), ("src/lib.rs", "code")]
        .into_iter()
        .map(|(k, v)| (k.to_string(), v.to_string()))
        .collect();
    assert_eq!(result, expected);
}

#[test]
fn test_tar_gz_bytes_is_gzip() {
    // A gzip stream begins with the two gzip magic bytes, not with the tar
    // name field.
    let files = vec![record("a.txt", "content")];
    let gz = tar_gz_bytes(&files).unwrap();
    assert!(gz.len() > 2);
    assert_eq!(gz[0], 0x1f);
    assert_eq!(gz[1], 0x8b);
}

#[test]
fn test_corrupt_gzip_is_fatal() {
    let result = TarFileIter::new(vec![1, 2, 3, 4]);
    let err = match result {
        Ok(_) => panic!("corrupt stream accepted"),
        Err(e) => e,
    };
    assert!(matches!(err, RteError::TarDecode { .. }));
    assert!(err.message().contains("invalid archive"));
}

#[test]
fn test_long_name_round_trip() {
    // A name over 100 bytes travels as a GNU long-name entry and reads back
    // in full.
    let long_name: String = std::iter::repeat('a').take(150).collect::<String>() + "/file.txt";
    let files = vec![record(&long_name, "x")];
    let gz = tar_gz_bytes(&files).unwrap();
    let mut it = TarFileIter::new(gz).unwrap();
    let all = read_all(&mut it).unwrap();
    assert_eq!(all.len(), 1);
    assert_eq!(all[0].path, long_name);
    assert_eq!(all[0].content, b"x".to_vec());
}

#[test]
fn test_nul_in_name_fails() {
    let files = vec![record("bad\u{0}name", "x")];
    let err = tar_gz_bytes(&files).unwrap_err();
    assert!(matches!(err, RteError::Unarchivable { .. }));
    assert!(err.message().contains("cannot be archived"));
}

#[test]
fn test_directory_style_name_fails() {
    let files = vec![record("dir/", "x")];
    let err = tar_gz_bytes(&files).unwrap_err();
    assert!(matches!(err, RteError::Unarchivable { .. }));
}

#[test]
fn test_empty_archive_round_trip() {
    let files: Vec<TemplateFile> = Vec::new();
    let gz = tar_gz_bytes(&files).unwrap();
    let mut iter = TarFileIter::new(gz).unwrap();
    assert!(iter.next().is_none());
}

#[test]
fn test_is_tar_gz() {
    assert!(is_tar_gz("output.tar.gz"));
    assert!(is_tar_gz("dir/output.tar.gz"));
    assert!(!is_tar_gz("output.tgz"));
    assert!(!is_tar_gz("output"));
}

fn write_octal_field(h: &mut [u8], off: usize, width: usize, v: u64) {
    let s = format!("{:0w$o}\0", v, w = width - 1);
    h[off..off + width].copy_from_slice(s.as_bytes());
}

fn raw_tar_header(name: &[u8], size: usize, typeflag: u8) -> Vec<u8> {
    let mut h = vec![0u8; 512];
    h[..name.len()].copy_from_slice(name);
    write_octal_field(&mut h, 100, 8, 0o644);
    write_octal_field(&mut h, 108, 8, 0);
    write_octal_field(&mut h, 116, 8, 0);
    write_octal_field(&mut h, 124, 12, size as u64);
    write_octal_field(&mut h, 136, 12, 0);
    h[156] = typeflag;
    for i in 148..156 {
        h[i] = 0x20;
    }
    let sum: u32 = h.iter().map(|&b| b as u32).sum();
    let cks = format!("{:06o}\0 ", sum);
    h[148..156].copy_from_slice(cks.as_bytes());
    h
}

fn raw_tar_entry(tar: &mut Vec<u8>, name: &[u8], content: &[u8], typeflag: u8) {
    tar.extend(raw_tar_header(name, content.len(), typeflag));
    tar.extend(content);
    tar.extend(std::iter::repeat(0u8).take((512 - content.len() % 512) % 512));
}

fn gzip_bytes(data: &[u8]) -> Vec<u8> {
    let mut enc = flate2::write::GzEncoder::new(Vec::new(), flate2::Compression::default());
    std::io::Write::write_all(&mut enc, data).unwrap();
    enc.finish().unwrap()
}

#[test]
fn test_gnu_long_name_entries() {
    // An `L` entry carries the full name of the entry that follows it, as
    // GNU tar writes names over 100 bytes.
    let long_name: String =
        (0..25).map(|i| format!("dir{:02}/", i)).collect::<String>() + "file.txt";
    assert!(long_name.len() > 100);
    let mut lcontent = long_name.as_bytes().to_vec();
    lcontent.push(0);

    let mut tar = Vec::new();
    raw_tar_entry(&mut tar, b"././@LongLink", &lcontent, b'L');
    raw_tar_entry(&mut tar, &long_name.as_bytes()[..100], b"hello", b'0');
    raw_tar_entry(&mut tar, b"short.txt", b"world", b'0');
    tar.extend(std::iter::repeat(0u8).take(1024));

    let mut it = TarFileIter::new(gzip_bytes(&tar)).unwrap();
    let all = read_all(&mut it).unwrap();
    assert_eq!(all.len(), 2);
    assert_eq!(all[0].path, long_name);
    assert_eq!(all[0].content, b"hello".to_vec());
    assert_eq!(all[1].path, "short.txt");
    assert_eq!(all[1].content, b"world".to_vec());
}

#[test]
fn test_overwrite_keeps_later_record() {
    // The pipeline performs no deduplication: two records with the same
    // sanitized path both flow through; a sink would write the later one
    // over the earlier.
    let files = vec![record("same.txt", "first"), record("same.txt", "second")];
    let gz = tar_gz_bytes(&files).unwrap();
    let mut iter = TarFileIter::new(gz).unwrap();
    let all = read_all(&mut iter).unwrap();
    assert_eq!(all.len(), 2);
    assert_eq!(all[0].content, b"first".to_vec());
    assert_eq!(all[1].content, b"second".to_vec());
}
