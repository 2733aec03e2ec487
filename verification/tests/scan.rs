use arse_parser::scan::{common_prefix, find_literal, occurs_here, run_length, Class};

#[test]
fn classes_hold_the_bytes_they_name() {
    for b in 0..=255u8 {
        let spacelike = b == b' ' || b == b'\t' || b == b'\r' || b == b'\n';
        let ends_name = spacelike || b"{}[]()".contains(&b);
        assert_eq!(Class::Spacelike.has(b), spacelike);
        assert_eq!(Class::Name.has(b), !ends_name);
        assert_eq!(Class::CommentText.has(b), b != b'\n');
        assert_eq!(Class::BodyText.has(b), b != b'}');
    }
}

#[test]
fn run_length_counts_up_to_the_first_byte_outside_the_class() {
    assert_eq!(run_length(b"", Class::Spacelike), 0);
    assert_eq!(run_length(b"  \n\tx  ", Class::Spacelike), 4);
    assert_eq!(run_length(b"x  ", Class::Spacelike), 0);
    assert_eq!(run_length(b" \t\r\n", Class::Spacelike), 4);
    assert_eq!(run_length(b"sphere {", Class::Name), 6);
    assert_eq!(run_length(b"sphere", Class::Name), 6);
    assert_eq!(run_length(b" hi\nrest\n", Class::CommentText), 3);
    assert_eq!(run_length(b"a { b } c }", Class::BodyText), 6);
}

#[test]
fn find_literal_gives_the_first_occurrence() {
    assert_eq!(find_literal(b"rename x name y name z", b"name "), Some(2));
    assert_eq!(find_literal(b"name ", b"name "), Some(0));
    assert_eq!(find_literal(b"xxname ", b"name "), Some(2));
    assert_eq!(find_literal(b"nanamname name ", b"name "), Some(5));
    assert_eq!(find_literal(b"aaab", b"aab"), Some(1));
    assert_eq!(find_literal(b"abc", b""), Some(0));
    assert_eq!(find_literal(b"", b""), Some(0));
}

#[test]
fn find_literal_gives_none_where_the_literal_is_not_whole() {
    assert_eq!(find_literal(b"", b"name "), None);
    assert_eq!(find_literal(b"name", b"name "), None);
    assert_eq!(find_literal(b"nam e name\tname", b"name "), None);
    assert_eq!(find_literal(b"xyz", b"xyzw"), None);
}

#[test]
fn occurs_here_compares_at_one_index() {
    assert!(occurs_here(b"a name b", b"name ", 2));
    assert!(!occurs_here(b"a name b", b"name ", 1));
    assert!(!occurs_here(b"a name", b"name ", 2));
    assert!(!occurs_here(b"name ", b"name ", 9));
    assert!(!occurs_here(b"name ", b"name ", usize::MAX));
    assert!(occurs_here(b"abc", b"", 3));
    assert!(!occurs_here(b"abc", b"", 4));
}

#[test]
fn common_prefix_counts_the_shared_bytes() {
    assert_eq!(common_prefix(b"name x", b"name "), 5);
    assert_eq!(common_prefix(b"nam", b"name "), 3);
    assert_eq!(common_prefix(b"nam e", b"name "), 3);
    assert_eq!(common_prefix(b"x", b"name "), 0);
    assert_eq!(common_prefix(b"", b"name "), 0);
    assert_eq!(common_prefix(b"abc", b""), 0);
}
