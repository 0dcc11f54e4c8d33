use promptkit::order::compare_bytes;
use promptkit::order::compare_text;
use promptkit::order::Relation;

fn expected(a: &str, b: &str) -> Relation {
    if a < b {
        Relation::Less
    } else if a == b {
        Relation::Equal
    } else {
        Relation::Greater
    }
}

#[test]
fn texts_compare_by_their_bytes() {
    assert_eq!(compare_text("a", "b"), Relation::Less);
    assert_eq!(compare_text("b", "a"), Relation::Greater);
    assert_eq!(compare_text("abc", "abc"), Relation::Equal);
    assert_eq!(compare_text("", ""), Relation::Equal);
}

#[test]
fn a_proper_prefix_comes_first() {
    assert_eq!(compare_text("ab", "abc"), Relation::Less);
    assert_eq!(compare_text("abc", "ab"), Relation::Greater);
    assert_eq!(compare_text("", "a"), Relation::Less);
}

#[test]
fn upper_case_comes_before_lower_case() {
    assert_eq!(compare_text("Z", "a"), Relation::Less);
    assert_eq!(compare_text("a-b", "a/b"), Relation::Less);
}

#[test]
fn comparison_agrees_with_the_standard_order_of_strings() {
    let samples = ["", "a", "A", "ab", "a/b", "a-b", "b", "é", "e", "z", "日本", "\u{10FFFF}", "~"];
    for a in samples {
        for b in samples {
            assert_eq!(compare_text(a, b), expected(a, b), "{:?} against {:?}", a, b);
        }
    }
}

#[test]
fn bytes_compare_as_unsigned() {
    assert_eq!(compare_bytes(&[0x7f], &[0x80]), Relation::Less);
    assert_eq!(compare_bytes(&[0xff], &[0x00, 0x01]), Relation::Greater);
    assert_eq!(compare_bytes(&[], &[]), Relation::Equal);
    assert_eq!(compare_bytes(&[1, 2, 3], &[1, 2, 3]), Relation::Equal);
}
