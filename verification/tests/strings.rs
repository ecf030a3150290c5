//! Character-indexed string helpers, on multi-byte text.

use quill_core::string_util::{contains_newline, split_at_char, substring};

#[test]
fn test() {
    let s = "abcdèfghij";
    // All four should clamp, never error:
    // "abcdè, abcdèfghij, dèfgh, dèfghij."
    println!(
        "{}, {}, {}, {}.",
        substring(s, 0, 5),
        substring(s, 0, 50),
        substring(s, 3, 5),
        substring(s, 3, 50)
    );
    assert_eq!(substring(s, 0, 5), "abcdè");
    assert_eq!(substring(s, 0, 50), "abcdèfghij");
    assert_eq!(substring(s, 3, 5), "dèfgh");
    assert_eq!(substring(s, 3, 50), "dèfghij");

    let s2 = "Können sie mir hören?";
    let (s3, s4) = split_at_char(s2, 6);
    println!("{}, and: {}", s3, s4);
    assert_eq!(s3, "Können");
    assert_eq!(s4, " sie mir hören?");
}

#[test]
fn contains_newline_test() {
    assert!(contains_newline("a\nb"));
    assert!(contains_newline("\n"));
    assert!(!contains_newline("plain"));
    assert!(!contains_newline(""));
}
