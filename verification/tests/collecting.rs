use promptkit::collect::is_candidate;
use promptkit::collect::is_ignored_dir_name;
use promptkit::collect::should_include;
use promptkit::collect::Collector;
use promptkit::collect::Probe;
use promptkit::records::FileDump;
use promptkit::records::SkipReason;
use promptkit::records::SkippedFile;

fn offer(collector: &mut Collector, path: &str, bytes: &[u8]) {
    if collector.examine(path, Probe::File(bytes.len() as u64)) {
        collector.accept(path, Ok(bytes.to_vec()));
    }
}

#[test]
fn the_root_is_always_walked() {
    assert!(should_include(0, true, Some("node_modules")));
    assert!(should_include(0, true, Some(".git")));
    assert!(should_include(0, false, None));
}

#[test]
fn default_ignored_directories_are_not_entered() {
    for name in [".git", "node_modules", "target", ".venv", "venv"] {
        assert!(!should_include(1, true, Some(name)), "{}", name);
        assert!(!should_include(5, true, Some(name)), "{}", name);
        assert!(is_ignored_dir_name(name));
    }
}

#[test]
fn only_exact_names_are_ignored() {
    for name in ["git", ".gitignore", "Target", "targets", "venv2", ".venv ", "node_module", ""] {
        assert!(should_include(1, true, Some(name)), "{:?}", name);
        assert!(!is_ignored_dir_name(name));
    }
}

#[test]
fn files_are_never_excluded_by_name() {
    assert!(should_include(1, false, Some("target")));
    assert!(should_include(2, false, Some(".git")));
    assert!(should_include(1, false, Some(".hidden")));
}

#[test]
fn hidden_directories_are_entered() {
    assert!(should_include(1, true, Some(".github")));
    assert!(should_include(1, true, Some(".config")));
}

#[test]
fn a_directory_without_a_readable_name_is_entered() {
    assert!(should_include(3, true, None));
}

#[test]
fn root_and_directories_are_no_candidates() {
    assert!(!is_candidate(0, false));
    assert!(!is_candidate(0, true));
    assert!(!is_candidate(1, true));
    assert!(is_candidate(1, false));
    assert!(is_candidate(9, false));
}

#[test]
fn a_file_of_exactly_the_limit_is_included() {
    let mut collector = Collector::new("/r".to_string(), 4);
    assert!(collector.examine("/r/fits", Probe::File(4)));
    collector.accept("/r/fits", Ok(b"abcd".to_vec()));
    let (files, skipped) = collector.finish();
    assert_eq!(files, vec![FileDump { relative_path: "fits".to_string(), contents: "abcd".to_string() }]);
    assert!(skipped.is_empty());
}

#[test]
fn a_file_of_one_byte_over_the_limit_is_skipped() {
    let mut collector = Collector::new("/r".to_string(), 4);
    assert!(!collector.examine("/r/big", Probe::File(5)));
    let (files, skipped) = collector.finish();
    assert!(files.is_empty());
    assert_eq!(
        skipped,
        vec![SkippedFile { relative_path: "big".to_string(), reason: SkipReason::TooLarge(5) }]
    );
}

#[test]
fn the_default_limit_admits_64000_bytes() {
    let mut collector = Collector::new("/r".to_string(), 64000);
    assert!(collector.examine("/r/a", Probe::File(64000)));
    assert!(!collector.examine("/r/b", Probe::File(64001)));
    assert!(collector.examine("/r/c", Probe::File(0)));
    assert!(!collector.examine("/r/d", Probe::File(u64::MAX)));
}

#[test]
fn invalid_utf8_is_skipped_and_never_repaired() {
    let mut collector = Collector::new("/r".to_string(), 100);
    offer(&mut collector, "/r/bad", &[b'o', b'k', 0xff, b'!']);
    offer(&mut collector, "/r/cut", &[0xe6, 0x97]);
    offer(&mut collector, "/r/surrogate", &[0xed, 0xa0, 0x80]);
    offer(&mut collector, "/r/overlong", &[0xc0, 0xaf]);
    let (files, skipped) = collector.finish();
    assert!(files.is_empty());
    assert_eq!(
        skipped,
        vec![
            SkippedFile { relative_path: "bad".to_string(), reason: SkipReason::NonUtf8 },
            SkippedFile { relative_path: "cut".to_string(), reason: SkipReason::NonUtf8 },
            SkippedFile { relative_path: "overlong".to_string(), reason: SkipReason::NonUtf8 },
            SkippedFile { relative_path: "surrogate".to_string(), reason: SkipReason::NonUtf8 },
        ]
    );
}

#[test]
fn valid_utf8_is_decoded_as_it_is() {
    let mut collector = Collector::new("/r".to_string(), 100);
    offer(&mut collector, "/r/t", "é日本\u{10FFFF}\n".as_bytes());
    offer(&mut collector, "/r/empty", b"");
    let (files, _) = collector.finish();
    assert_eq!(
        files,
        vec![
            FileDump { relative_path: "empty".to_string(), contents: String::new() },
            FileDump { relative_path: "t".to_string(), contents: "é日本\u{10FFFF}\n".to_string() },
        ]
    );
}

#[test]
fn failures_to_probe_and_to_read_are_io_errors() {
    let mut collector = Collector::new("/r".to_string(), 100);
    assert!(!collector.examine("/r/gone", Probe::Failed("no such file".to_string())));
    assert!(collector.examine("/r/locked", Probe::File(3)));
    collector.accept("/r/locked", Err("permission denied".to_string()));
    let (files, skipped) = collector.finish();
    assert!(files.is_empty());
    assert_eq!(
        skipped,
        vec![
            SkippedFile { relative_path: "gone".to_string(), reason: SkipReason::Io("no such file".to_string()) },
            SkippedFile {
                relative_path: "locked".to_string(),
                reason: SkipReason::Io("permission denied".to_string())
            },
        ]
    );
}

#[test]
fn what_is_no_regular_file_leaves_no_record() {
    let mut collector = Collector::new("/r".to_string(), 100);
    assert!(!collector.examine("/r/socket", Probe::NotAFile));
    let (files, skipped) = collector.finish();
    assert!(files.is_empty());
    assert!(skipped.is_empty());
}

#[test]
fn walker_failures_are_listed_under_the_sentinel_path() {
    let mut collector = Collector::new("/r".to_string(), 100);
    collector.walker_failed("cannot open directory".to_string());
    let (_, skipped) = collector.finish();
    assert_eq!(
        skipped,
        vec![SkippedFile {
            relative_path: "<walker>".to_string(),
            reason: SkipReason::Io("cannot open directory".to_string())
        }]
    );
}

#[test]
fn both_lists_come_out_sorted_whatever_the_order_of_arrival() {
    let arrival = ["/r/z.txt", "/r/a/b.txt", "/r/M", "/r/a-1", "/r/a/a.txt"];
    let mut forward = Collector::new("/r".to_string(), 10);
    let mut backward = Collector::new("/r".to_string(), 10);
    for path in arrival {
        offer(&mut forward, path, b"x");
        forward.examine(path, Probe::File(11));
    }
    for path in arrival.iter().rev() {
        offer(&mut backward, path, b"x");
        backward.examine(path, Probe::File(11));
    }
    let (files, skipped) = forward.finish();
    let listed: Vec<&str> = files.iter().map(|f| f.relative_path.as_str()).collect();
    assert_eq!(listed, vec!["M", "a-1", "a/a.txt", "a/b.txt", "z.txt"]);
    let left_out: Vec<&str> = skipped.iter().map(|f| f.relative_path.as_str()).collect();
    assert_eq!(left_out, vec!["M", "a-1", "a/a.txt", "a/b.txt", "z.txt"]);
    assert_eq!(backward.finish(), (files, skipped));
}

#[test]
fn an_entry_outside_the_root_keeps_its_whole_path() {
    let mut collector = Collector::new("/r".to_string(), 10);
    offer(&mut collector, "/elsewhere/f", b"x");
    let (files, _) = collector.finish();
    assert_eq!(files[0].relative_path, "/elsewhere/f");
}

#[test]
fn skip_reasons_are_put_in_words() {
    assert_eq!(SkipReason::TooLarge(64001).describe(), "exceeds size limit (64001 bytes)");
    assert_eq!(SkipReason::TooLarge(0).describe(), "exceeds size limit (0 bytes)");
    assert_eq!(SkipReason::NonUtf8.describe(), "non-UTF-8 content");
    assert_eq!(SkipReason::Io("disk on fire".to_string()).describe(), "I/O error: disk on fire");
    assert_eq!(SkipReason::Io(String::new()).describe(), "I/O error: ");
}
