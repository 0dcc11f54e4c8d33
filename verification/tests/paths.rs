use promptkit::path::relative_or_whole;
use promptkit::path::split_at_char;
use promptkit::path::split_components;
use promptkit::path::to_relative;
use std::path::Path;

fn expect_components(path: &str, parts: &[&str]) {
    let got = split_components(path);
    let want: Vec<String> = parts.iter().map(|p| p.to_string()).collect();
    assert_eq!(got, want, "components of {:?}", path);
}

fn std_components(path: &str) -> Vec<String> {
    Path::new(path)
        .components()
        .map(|c| c.as_os_str().to_string_lossy().into_owned())
        .collect()
}

#[test]
fn plain_relative_path_splits_at_separators() {
    expect_components("a/b.txt", &["a", "b.txt"]);
    expect_components("d.txt", &["d.txt"]);
    expect_components("src/deep/er/mod.rs", &["src", "deep", "er", "mod.rs"]);
}

#[test]
fn empty_path_has_no_components() {
    expect_components("", &[]);
}

#[test]
fn leading_separator_is_the_root_component() {
    expect_components("/", &["/"]);
    expect_components("/x/y", &["/", "x", "y"]);
    expect_components("//x", &["/", "x"]);
}

#[test]
fn current_directory_is_kept_only_in_front() {
    expect_components(".", &["."]);
    expect_components("./a", &[".", "a"]);
    expect_components("a/./b", &["a", "b"]);
    expect_components("a/.", &["a"]);
    expect_components("./.", &["."]);
    expect_components("/./a", &["/", "a"]);
}

#[test]
fn repeated_and_trailing_separators_add_nothing() {
    expect_components("a//b", &["a", "b"]);
    expect_components("a/b/", &["a", "b"]);
    expect_components("a/b///", &["a", "b"]);
}

#[test]
fn parent_and_dotted_names_are_ordinary_components() {
    expect_components("..", &[".."]);
    expect_components("a/../b", &["a", "..", "b"]);
    expect_components(".hidden/.env", &[".hidden", ".env"]);
    expect_components("...", &["..."]);
    expect_components(".a", &[".a"]);
}

#[test]
fn components_are_used_verbatim_including_non_ascii() {
    expect_components("dossier/été.txt", &["dossier", "été.txt"]);
    expect_components("日本語/ファイル", &["日本語", "ファイル"]);
    expect_components("a b/c\\d", &["a b", "c\\d"]);
}

#[test]
fn components_agree_with_the_standard_library() {
    let samples = [
        "", ".", "..", "/", "//", "./", "./a", "a", "a/", "a/b", "a//b", "a/./b", "a/../b",
        "/a/b", "//a//b//", "/.", "/..", "./.", "././a", ".a", "a.", "a/.b", "a/b./c", "...",
        ".//x", "x/.//./y", "é/ü", " / ", "a/ /b", "/./", "-/+",
    ];
    for path in samples {
        assert_eq!(split_components(path), std_components(path), "components of {:?}", path);
    }
}

#[test]
fn split_keeps_empty_pieces() {
    assert_eq!(split_at_char("", '/'), vec![String::new()]);
    assert_eq!(split_at_char("a", '/'), vec!["a".to_string()]);
    assert_eq!(
        split_at_char("/a//b/", '/'),
        vec!["".to_string(), "a".to_string(), "".to_string(), "b".to_string(), "".to_string()]
    );
    assert_eq!(split_at_char("x,y", ','), vec!["x".to_string(), "y".to_string()]);
}

#[test]
fn relative_path_is_what_is_left_below_the_root() {
    assert_eq!(to_relative("/root", "/root/a/b.txt"), "a/b.txt");
    assert_eq!(to_relative("/root/", "/root/a"), "a");
    assert_eq!(to_relative("/", "/etc/hosts"), "etc/hosts");
    assert_eq!(to_relative("/root", "/root"), "");
}

#[test]
fn path_outside_the_root_is_kept_whole() {
    assert_eq!(to_relative("/root", "/elsewhere/a.txt"), "/elsewhere/a.txt");
    assert_eq!(to_relative("/root", "/rooted/a.txt"), "/rooted/a.txt");
    assert_eq!(to_relative("/root/sub", "/root"), "/root");
}

#[test]
fn relative_or_whole_picks_the_rest_or_the_path() {
    assert_eq!(relative_or_whole("/r/a", Some("a".to_string())), "a");
    assert_eq!(relative_or_whole("/r/a", None), "/r/a");
    assert_eq!(relative_or_whole("/r", Some(String::new())), "");
}
