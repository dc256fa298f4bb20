use infact::paths::{path_compared, path_components, same_path};
use infact::text::Comparison;

#[test]
fn a_path_is_its_parts() {
    assert_eq!(path_components("a//b/./c/"), ["a", "b", "c"]);
    assert_eq!(path_components("./a"), [".", "a"]);
    assert_eq!(path_components("/a/../b"), ["/", "a", "..", "b"]);
    assert!(path_components("").is_empty());
}

#[test]
fn spellings_of_one_path_are_the_same() {
    assert!(same_path("a/b", "a//b"));
    assert!(same_path("a/b", "a/./b/"));
    assert!(!same_path("a/b", "./a/b"));
    assert!(!same_path("a/b", "a/c"));
    assert!(!same_path("b", "a/../b"));
}

#[test]
fn paths_compare_part_by_part() {
    let ordered = ["", "/a", "./z", "../z", "!", "a", "a/b", "a!", "b"];
    for (i, left) in ordered.iter().enumerate() {
        for (j, right) in ordered.iter().enumerate() {
            let expected = if i < j {
                Comparison::Less
            } else if i == j {
                Comparison::Equal
            } else {
                Comparison::Greater
            };
            assert_eq!(path_compared(left, right), expected, "{left} and {right}");
            assert_eq!(
                std::path::Path::new(left).cmp(std::path::Path::new(right)),
                match expected {
                    Comparison::Less => std::cmp::Ordering::Less,
                    Comparison::Equal => std::cmp::Ordering::Equal,
                    Comparison::Greater => std::cmp::Ordering::Greater,
                },
            );
        }
    }
}
