//! Reading a file for display.

use treex::preview::{needs_reading, parse_size, read, Looked, Stamp};
use treex::{Preview, PreviewOptions};

fn opts(max: u64) -> PreviewOptions {
    PreviewOptions { max_bytes: max }
}

/// What reading a file with these contents comes to.
fn shown(contents: &[u8], max: u64, known: Option<Stamp>) -> Preview {
    let stamp = Stamp::of(contents.len() as u64, Some(1000));
    read(Looked::File(stamp), &opts(max), known, Ok(contents.to_vec()))
}

#[test]
fn reads_a_text_file() {
    match shown(b"hello\nworld\n", 1024, None) {
        Preview::Text { stamp, content, lossy } => {
            assert_eq!(stamp.size, 12);
            assert_eq!(content, "hello\nworld\n");
            assert!(!lossy);
        }
        other => panic!("{other:?}"),
    }
}

#[test]
fn refuses_a_file_over_the_limit_without_reading_it() {
    let looked = Looked::File(Stamp::of(4096, None));
    assert!(!needs_reading(&looked, &opts(1024), None));
    match read(looked, &opts(1024), None, Err("never read".to_string())) {
        Preview::TooLarge { size, limit } => {
            assert_eq!(size, 4096);
            assert_eq!(limit, 1024);
        }
        other => panic!("{other:?}"),
    }
}

#[test]
fn a_file_exactly_at_the_limit_is_allowed() {
    assert!(matches!(shown(&[b'x'; 1024], 1024, None), Preview::Text { .. }));
}

#[test]
fn printable_formats_are_still_binary() {
    for (name, magic) in [
        ("a.pdf", &b"%PDF-1.4 and then some perfectly readable ascii"[..]),
        ("a.zip", &b"PK\x03\x04rest"[..]),
    ] {
        assert!(
            matches!(shown(magic, 1024, None), Preview::Binary { .. }),
            "{name} was offered as text"
        );
    }
}

#[test]
fn nul_bytes_mean_binary() {
    assert!(matches!(
        shown(&[0x7f, b'E', b'L', b'F', 0, 0, 0], 1024, None),
        Preview::Binary { .. }
    ));
    assert!(matches!(shown(b"a\0b", 1024, None), Preview::Binary { size: 3 }));
}

#[test]
fn invalid_utf8_is_shown_lossily_rather_than_refused() {
    match shown(&[b'c', b'a', b'f', 0xe9], 1024, None) {
        Preview::Text { content, lossy, .. } => {
            assert!(lossy);
            assert!(content.starts_with("caf"));
            assert_eq!(content, "caf\u{fffd}");
        }
        other => panic!("{other:?}"),
    }
}

#[test]
fn directories_and_missing_files_report_why() {
    let none = || Err("never read".to_string());
    assert!(matches!(
        read(Looked::Dir, &opts(1024), None, none()),
        Preview::Unreadable { .. }
    ));
    match read(Looked::Failed("no such file".to_string()), &opts(1024), None, none()) {
        Preview::Unreadable { reason } => assert_eq!(reason, "no such file"),
        other => panic!("{other:?}"),
    }
    // One that went away between being looked at and being read.
    let looked = Looked::File(Stamp::of(3, None));
    assert!(needs_reading(&looked, &opts(1024), None));
    match read(looked, &opts(1024), None, Err("gone".to_string())) {
        Preview::Unreadable { reason } => assert_eq!(reason, "gone"),
        other => panic!("{other:?}"),
    }
}

#[test]
fn an_unchanged_file_is_not_sent_again() {
    let stamp = match shown(b"hello", 1024, None) {
        Preview::Text { stamp, .. } => stamp,
        other => panic!("first read must return contents, not {other:?}"),
    };
    assert!(matches!(shown(b"hello", 1024, Some(stamp)), Preview::Unchanged));

    // Same length, different contents: mtime is what catches it.
    let later = Looked::File(Stamp::of(5, Some(1020)));
    match read(later, &opts(1024), Some(stamp), Ok(b"world".to_vec())) {
        Preview::Text { content, .. } => assert_eq!(content, "world"),
        other => panic!("a changed file was reported as {other:?}"),
    }
}

#[test]
fn sizes_parse_with_and_without_suffixes() {
    assert_eq!(parse_size("4096"), Ok(4096));
    assert_eq!(parse_size("1m"), Ok(1024 * 1024));
    assert_eq!(parse_size("1M"), Ok(1024 * 1024));
    assert_eq!(parse_size("512k"), Ok(512 * 1024));
    assert_eq!(parse_size("2MiB"), Ok(2 * 1024 * 1024));
    assert_eq!(parse_size("3gb"), Ok(3 * 1024 * 1024 * 1024));
    assert!(parse_size("0").is_err(), "zero refuses every file");
    assert!(parse_size("").is_err());
    assert!(parse_size("1x").is_err());
    assert!(parse_size("abc").is_err());
}

#[test]
fn a_size_that_is_refused_is_quoted() {
    let said = parse_size("a\"b").unwrap_err();
    assert!(said.contains("\"a\\\"b\""), "{said}");
}
