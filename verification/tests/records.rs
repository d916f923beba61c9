use logdrain::miner::Miner;
use logdrain::records::{find_sub, record_separator, unescape, MultilineRecords, SeparatedRecords};
use regex::Regex;

#[test]
fn unescape_interprets_common_escapes_and_preserves_unknown() {
    assert_eq!(unescape(r"\n\n"), "\n\n");
    assert_eq!(unescape(r"\0"), "\0");
    assert_eq!(unescape(r"\t\r"), "\t\r");
    assert_eq!(unescape(r"a\\b"), "a\\b");
    assert_eq!(unescape("plain"), "plain");
    assert_eq!(unescape(r"\x"), r"\x"); // unknown escape kept verbatim
    assert_eq!(unescape(r"trailing\"), r"trailing\"); // lone backslash kept
}

#[test]
fn find_sub_locates_needle() {
    assert_eq!(find_sub(b"abcXYdef", b"XY"), Some(3));
    assert_eq!(find_sub(b"\0a\0", b"\0"), Some(0));
    assert_eq!(find_sub(b"abc", b"Z"), None);
}

#[test]
fn find_sub_handles_needle_longer_than_hay_and_overlaps() {
    assert_eq!(find_sub(b"ab", b"abc"), None);
    assert_eq!(find_sub(b"aaab", b"aab"), Some(1));
    assert_eq!(find_sub(b"xyz", b"xyz"), Some(0));
}

/// Feed `input` through a multi-line grouper with record-start pattern `start`, the way
/// the command line does, and add each record to `m`.
fn group_lines(m: &mut Miner, input: &str, start: &Regex) {
    let mut g = MultilineRecords::new();
    for line in input.lines() {
        if let Some(rec) = g.push_line(line, start.is_match(line)) {
            feed_plain(m, &rec);
        }
    }
    if let Some(rec) = g.finish() {
        feed_plain(m, &rec);
    }
}

fn feed_plain(m: &mut Miner, record: &str) {
    if !record.trim().is_empty() {
        m.add(record);
    }
}

fn split_stream(m: &mut Miner, input: &[u8], sep: &[u8], chunk: usize) {
    let mut s = SeparatedRecords::new(sep);
    for piece in input.chunks(chunk) {
        for rec in s.push(piece) {
            feed_plain(m, &String::from_utf8_lossy(&rec));
        }
    }
    if let Some(rec) = s.finish() {
        feed_plain(m, &String::from_utf8_lossy(&rec));
    }
}

#[test]
fn multiline_start_groups_continuation_lines_into_one_record() {
    let mut m = Miner::builder().first_line_only(true).build().unwrap();
    let re = Regex::new("^ERROR").unwrap();
    // Two ERROR records, each with indented continuation frames.
    let input = "ERROR boom\n\tat a\n\tat b\nERROR boom\n\tat c\n";
    group_lines(&mut m, input, &re);

    assert_eq!(m.len(), 1, "both records share the first line");
    let c = &m.clusters()[0];
    assert_eq!(c.size(), 2);
    assert_eq!(c.suffix(), Some("\tat a\n\tat b")); // continuation kept as suffix
}

#[test]
fn record_separator_splits_on_delimiter() {
    let mut m = Miner::builder().first_line_only(true).build().unwrap();
    // Two NUL-framed records, each a multi-line trace; trailing separator present.
    let input = b"ERROR boom\n\tat a\0ERROR boom\n\tat b\0";
    split_stream(&mut m, &input[..], b"\0", 64 * 1024);

    assert_eq!(m.len(), 1);
    assert_eq!(m.clusters()[0].size(), 2);
}

#[test]
fn record_separator_flushes_trailing_record_without_terminator() {
    let mut m = Miner::builder().build().unwrap();
    // Blank-line separator, last record not terminated by one.
    let input = b"alpha\n\nbeta\n\ngamma";
    split_stream(&mut m, &input[..], b"\n\n", 64 * 1024);
    assert_eq!(m.len(), 3);
}

#[test]
fn separator_spanning_chunks_is_found() {
    let mut s = SeparatedRecords::new(b"--");
    assert!(s.push(b"one-").is_empty());
    let out = s.push(b"-two--thr");
    assert_eq!(out, vec![b"one".to_vec(), b"two".to_vec()]);
    assert!(s.push(b"ee").is_empty());
    assert_eq!(s.finish(), Some(b"three".to_vec()));
}

#[test]
fn chunk_size_does_not_change_records() {
    let input = b"r1;;r2;;;;r3;";
    for chunk in 1..=input.len() {
        let mut s = SeparatedRecords::new(b";;");
        let mut recs = Vec::new();
        for piece in input.chunks(chunk) {
            recs.extend(s.push(piece));
        }
        assert_eq!(recs, vec![b"r1".to_vec(), b"r2".to_vec(), b"".to_vec()]);
        assert_eq!(s.finish(), Some(b"r3;".to_vec()));
    }
}

#[test]
fn multiline_grouping_joins_with_newlines() {
    let mut g = MultilineRecords::new();
    assert_eq!(g.push_line("cont before start", false), None);
    assert_eq!(g.push_line("START 1", true), Some("cont before start".to_string()));
    assert_eq!(g.push_line("  more", false), None);
    assert_eq!(g.push_line("START 2", true), Some("START 1\n  more".to_string()));
    assert_eq!(g.finish(), Some("START 2".to_string()));
    assert_eq!(MultilineRecords::new().finish(), None);
}

#[test]
fn record_separator_option_is_checked() {
    assert_eq!(record_separator(None, true), Ok(None));
    assert_eq!(record_separator(Some(r"\n\n"), false), Ok(Some(b"\n\n".to_vec())));
    assert_eq!(
        record_separator(Some(r"\0"), true),
        Err("--record-separator and --multiline-start are mutually exclusive".to_string())
    );
    assert_eq!(record_separator(Some(""), false), Err("--record-separator must not be empty".to_string()));
    assert_eq!(record_separator(Some("é"), false), Ok(Some("é".as_bytes().to_vec())));
}

#[test]
fn multiline_records_open_where_the_start_pattern_matches() {
    let start = logdrain::mask::Mask::new(r"^\d{4}-\d{2}-\d{2}", "").unwrap();
    let mut r = MultilineRecords::new();
    assert_eq!(r.push_line_matching("2024-01-01 boom", &start), None);
    assert_eq!(r.push_line_matching("  at foo()", &start), None);
    assert_eq!(r.push_line_matching("  at bar()", &start), None);
    assert_eq!(
        r.push_line_matching("2024-01-02 ok", &start).as_deref(),
        Some("2024-01-01 boom\n  at foo()\n  at bar()")
    );
    assert_eq!(r.push_line_matching("no date here", &start), None);
    assert_eq!(r.finish().as_deref(), Some("2024-01-02 ok\nno date here"));
}
