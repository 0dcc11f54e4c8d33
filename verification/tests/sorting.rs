use promptkit::records::FileDump;
use promptkit::records::SkipReason;
use promptkit::records::SkippedFile;
use promptkit::sort::sort_by_path;

fn file(path: &str, contents: &str) -> FileDump {
    FileDump { relative_path: path.to_string(), contents: contents.to_string() }
}

fn paths(files: &[FileDump]) -> Vec<String> {
    files.iter().map(|f| f.relative_path.clone()).collect()
}

#[test]
fn files_are_sorted_by_the_bytes_of_their_paths() {
    let mut files = vec![file("b", ""), file("a/z", ""), file("a-b", ""), file("a", ""), file("B", "")];
    sort_by_path(&mut files);
    assert_eq!(paths(&files), vec!["B", "a", "a-b", "a/z", "b"]);
}

#[test]
fn sorting_keeps_each_file_with_its_contents() {
    let mut files = vec![file("y", "why"), file("x", "ex")];
    sort_by_path(&mut files);
    assert_eq!(files, vec![file("x", "ex"), file("y", "why")]);
}

#[test]
fn sorting_nothing_or_one_changes_nothing() {
    let mut none: Vec<FileDump> = vec![];
    sort_by_path(&mut none);
    assert!(none.is_empty());
    let mut one = vec![file("only", "1")];
    sort_by_path(&mut one);
    assert_eq!(one, vec![file("only", "1")]);
}

#[test]
fn items_under_one_path_keep_their_order() {
    let mut skipped = vec![
        SkippedFile { relative_path: "<walker>".to_string(), reason: SkipReason::Io("second".to_string()) },
        SkippedFile { relative_path: "a".to_string(), reason: SkipReason::NonUtf8 },
        SkippedFile { relative_path: "<walker>".to_string(), reason: SkipReason::Io("first".to_string()) },
    ];
    sort_by_path(&mut skipped);
    assert_eq!(
        skipped,
        vec![
            SkippedFile { relative_path: "<walker>".to_string(), reason: SkipReason::Io("second".to_string()) },
            SkippedFile { relative_path: "<walker>".to_string(), reason: SkipReason::Io("first".to_string()) },
            SkippedFile { relative_path: "a".to_string(), reason: SkipReason::NonUtf8 },
        ]
    );
}

#[test]
fn sorting_agrees_with_the_stable_sort_of_the_standard_library() {
    let mut seed: u32 = 12345;
    let mut files = Vec::new();
    for i in 0..300 {
        seed = seed.wrapping_mul(1103515245).wrapping_add(12345);
        let name = format!("p{}/{}", (seed >> 16) % 7, (seed >> 8) % 23);
        files.push(file(&name, &i.to_string()));
    }
    let mut expected = files.clone();
    expected.sort_by(|a, b| a.relative_path.cmp(&b.relative_path));
    sort_by_path(&mut files);
    assert_eq!(files, expected);
}

#[test]
fn the_order_of_arrival_does_not_show_in_the_result() {
    let mut one = vec![file("c", "3"), file("a", "1"), file("b", "2")];
    let mut other = vec![file("b", "2"), file("c", "3"), file("a", "1")];
    sort_by_path(&mut one);
    sort_by_path(&mut other);
    assert_eq!(one, other);
}
