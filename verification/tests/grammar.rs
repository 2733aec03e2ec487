use arse_parser::grammar::{comment, name, node_body, node_name, node_parser, root, spacelike};
use arse_parser::{Node, Outcome, RootElement};

fn node(node_type: &str, name: &str) -> Node {
    Node { node_type: node_type.to_string(), name: name.to_string() }
}

#[test]
fn comment_is_the_text_between_hash_and_line_feed() {
    assert_eq!(comment("# hi\nrest"), Outcome::Done("rest", " hi"));
    assert_eq!(comment("#a # b\r\n\n"), Outcome::Done("\n", "a # b\r"));
    assert_eq!(comment("#\u{e9}\u{4e16}\n"), Outcome::Done("", "\u{e9}\u{4e16}"));
}

#[test]
fn comment_may_be_empty() {
    assert_eq!(comment("#\n"), Outcome::Done("", ""));
    assert_eq!(comment("#\n#\n"), Outcome::Done("#\n", ""));
}

#[test]
fn comment_without_line_feed_needs_more() {
    assert_eq!(comment(""), Outcome::NeedMore);
    assert_eq!(comment("#"), Outcome::NeedMore);
    assert_eq!(comment("# no end { name x }"), Outcome::NeedMore);
}

#[test]
fn comment_must_start_with_hash() {
    assert_eq!(comment(" # hi\n"), Outcome::Mismatch);
    assert_eq!(comment("\n"), Outcome::Mismatch);
    assert_eq!(comment("sphere"), Outcome::Mismatch);
}

#[test]
fn spacelike_takes_the_longest_run() {
    assert_eq!(spacelike(" \t\r\n x "), Outcome::Done("x ", " \t\r\n "));
    assert_eq!(spacelike("\n\nsphere"), Outcome::Done("sphere", "\n\n"));
}

#[test]
fn spacelike_may_take_nothing() {
    assert_eq!(spacelike("x "), Outcome::Done("x ", ""));
    assert_eq!(spacelike("\u{a0} "), Outcome::Done("\u{a0} ", ""));
    assert_eq!(spacelike("\u{b} "), Outcome::Done("\u{b} ", ""));
}

#[test]
fn spacelike_never_needs_more() {
    assert_eq!(spacelike(""), Outcome::Done("", ""));
    assert_eq!(spacelike(" \n"), Outcome::Done("", " \n"));
}

#[test]
fn name_ends_before_the_byte_that_ends_it() {
    assert_eq!(name("sphere\n{"), Outcome::Done("\n{", "sphere"));
    assert_eq!(name("a b"), Outcome::Done(" b", "a"));
    assert_eq!(name("a\tb"), Outcome::Done("\tb", "a"));
    assert_eq!(name("a\rb"), Outcome::Done("\rb", "a"));
    assert_eq!(name("a{b"), Outcome::Done("{b", "a"));
    assert_eq!(name("a}b"), Outcome::Done("}b", "a"));
    assert_eq!(name("a[b"), Outcome::Done("[b", "a"));
    assert_eq!(name("a]b"), Outcome::Done("]b", "a"));
    assert_eq!(name("a(b"), Outcome::Done("(b", "a"));
    assert_eq!(name("a)b"), Outcome::Done(")b", "a"));
    assert_eq!(
        name("#a-b.c:d/\u{e9}<>\u{1f600} "),
        Outcome::Done(" ", "#a-b.c:d/\u{e9}<>\u{1f600}")
    );
}

#[test]
fn name_that_is_not_seen_to_end_needs_more() {
    assert_eq!(name(""), Outcome::NeedMore);
    assert_eq!(name("sph"), Outcome::NeedMore);
    assert_eq!(name("sph\u{e8}re"), Outcome::NeedMore);
}

#[test]
fn name_may_not_be_empty() {
    assert_eq!(name(" a"), Outcome::Mismatch);
    assert_eq!(name("\n"), Outcome::Mismatch);
    assert_eq!(name("{a}"), Outcome::Mismatch);
    assert_eq!(name(")"), Outcome::Mismatch);
    assert_eq!(name("]"), Outcome::Mismatch);
}

#[test]
fn node_name_is_the_name_after_the_tag() {
    assert_eq!(node_name("name Sphere02\n}"), Outcome::Done("}", "Sphere02"));
    assert_eq!(node_name("name a  \t b"), Outcome::Done("b", "a"));
    assert_eq!(node_name("name a}"), Outcome::Done("}", "a"));
    assert_eq!(node_name("name name name "), Outcome::Done("name ", "name"));
}

#[test]
fn node_name_takes_the_spacelike_text_up_to_the_end() {
    assert_eq!(node_name("name a "), Outcome::Done("", "a"));
    assert_eq!(node_name("name a\n\n"), Outcome::Done("", "a"));
}

#[test]
fn node_name_needs_more_of_a_tag_or_a_name_cut_short() {
    assert_eq!(node_name(""), Outcome::NeedMore);
    assert_eq!(node_name("n"), Outcome::NeedMore);
    assert_eq!(node_name("nam"), Outcome::NeedMore);
    assert_eq!(node_name("name"), Outcome::NeedMore);
    assert_eq!(node_name("name "), Outcome::NeedMore);
    assert_eq!(node_name("name Sph"), Outcome::NeedMore);
}

#[test]
fn node_name_must_start_with_the_tag() {
    assert_eq!(node_name("nam e"), Outcome::Mismatch);
    assert_eq!(node_name(" name a "), Outcome::Mismatch);
    assert_eq!(node_name("names a "), Outcome::Mismatch);
    assert_eq!(node_name("name\ta "), Outcome::Mismatch);
    assert_eq!(node_name("x"), Outcome::Mismatch);
    assert_eq!(node_name("Name a "), Outcome::Mismatch);
}

#[test]
fn node_name_needs_a_name_after_the_tag() {
    assert_eq!(node_name("name  a "), Outcome::Mismatch);
    assert_eq!(node_name("name }"), Outcome::Mismatch);
    assert_eq!(node_name("name \n"), Outcome::Mismatch);
}

#[test]
fn node_body_is_the_name_in_the_braces() {
    assert_eq!(node_body("{\n    name Sphere02\n}\nbox"), Outcome::Done("\nbox", "Sphere02"));
    assert_eq!(node_body("{name a}"), Outcome::Done("", "a"));
    assert_eq!(node_body("{ x 1 name a y [2] }}"), Outcome::Done("}", "a"));
    assert_eq!(node_body("{ } { name a } }"), Outcome::Done(" }", "a"));
    assert_eq!(node_body("{name a(b)}"), Outcome::Done("", "a"));
}

#[test]
fn node_body_needs_more_without_name_or_closing_brace() {
    assert_eq!(node_body(""), Outcome::NeedMore);
    assert_eq!(node_body("{"), Outcome::NeedMore);
    assert_eq!(node_body("{\n}\n"), Outcome::NeedMore);
    assert_eq!(node_body("{ nam"), Outcome::NeedMore);
    assert_eq!(node_body("{ name"), Outcome::NeedMore);
    assert_eq!(node_body("{ name "), Outcome::NeedMore);
    assert_eq!(node_body("{ name a"), Outcome::NeedMore);
    assert_eq!(node_body("{ name a "), Outcome::NeedMore);
    assert_eq!(node_body("{ name a x y"), Outcome::NeedMore);
    assert_eq!(node_body("{ rename\tx names y"), Outcome::NeedMore);
}

#[test]
fn node_body_must_start_with_a_brace_and_hold_a_name() {
    assert_eq!(node_body(" {name a}"), Outcome::Mismatch);
    assert_eq!(node_body("name a}"), Outcome::Mismatch);
    assert_eq!(node_body("[name a]"), Outcome::Mismatch);
    assert_eq!(node_body("{ name }"), Outcome::Mismatch);
    assert_eq!(node_body("{ name  a }"), Outcome::Mismatch);
    assert_eq!(node_body("{ name \n"), Outcome::Mismatch);
}

#[test]
fn node_parser_gives_type_and_name() {
    assert_eq!(
        node_parser("\nsphere\n{\n    name Sphere02\n}\nbox"),
        Outcome::Done("\nbox", ("sphere", "Sphere02"))
    );
    assert_eq!(node_parser("box {\n    name Box02\n}\n"), Outcome::Done("\n", ("box", "Box02")));
    assert_eq!(node_parser("a{name b}"), Outcome::Done("", ("a", "b")));
    assert_eq!(node_parser(" \t a \r\n { name b } "), Outcome::Done(" ", ("a", "b")));
    assert_eq!(node_parser("#\n{ name b }"), Outcome::Done("", ("#", "b")));
}

#[test]
fn node_parser_needs_more_of_what_is_cut_short() {
    assert_eq!(node_parser(""), Outcome::NeedMore);
    assert_eq!(node_parser(" \n"), Outcome::NeedMore);
    assert_eq!(node_parser("sph"), Outcome::NeedMore);
    assert_eq!(node_parser("sphere"), Outcome::NeedMore);
    assert_eq!(node_parser("sphere\n"), Outcome::NeedMore);
    assert_eq!(node_parser("sphere\n{"), Outcome::NeedMore);
    assert_eq!(node_parser("sphere\n{\n}\n"), Outcome::NeedMore);
    assert_eq!(node_parser("sphere { name Sphere02 "), Outcome::NeedMore);
}

#[test]
fn node_parser_wants_a_type_and_then_a_body() {
    assert_eq!(node_parser("{ name a }"), Outcome::Mismatch);
    assert_eq!(node_parser("  ( name a )"), Outcome::Mismatch);
    assert_eq!(node_parser("a b { name c }"), Outcome::Mismatch);
    assert_eq!(node_parser("a [ name c ]"), Outcome::Mismatch);
    assert_eq!(node_parser("a { name }"), Outcome::Mismatch);
    assert_eq!(node_parser("a }"), Outcome::Mismatch);
}

#[test]
fn root_is_a_comment_or_a_node() {
    assert_eq!(root("# hi\n\nsphere"), Outcome::Done("\nsphere", RootElement::Comment(" hi")));
    assert_eq!(
        root("\nsphere\n{\n    name Sphere02\n}\nbox {"),
        Outcome::Done("\nbox {", RootElement::Node(node("sphere", "Sphere02")))
    );
    assert_eq!(root("a{name b}"), Outcome::Done("", RootElement::Node(node("a", "b"))));
}

#[test]
fn root_takes_a_line_that_starts_with_hash_for_a_comment() {
    assert_eq!(root("#a { name b }\n"), Outcome::Done("", RootElement::Comment("a { name b }")));
    assert_eq!(root("#a { name b }"), Outcome::NeedMore);
    assert_eq!(root("#\n{ name b }"), Outcome::Done("{ name b }", RootElement::Comment("")));
    assert_eq!(root(" #a { name b }"), Outcome::Done("", RootElement::Node(node("#a", "b"))));
}

#[test]
fn root_needs_more_where_either_needs_more() {
    assert_eq!(root(""), Outcome::NeedMore);
    assert_eq!(root("#"), Outcome::NeedMore);
    assert_eq!(root("# hi"), Outcome::NeedMore);
    assert_eq!(root("\n"), Outcome::NeedMore);
    assert_eq!(root("sphere\n{\n}\n"), Outcome::NeedMore);
    assert_eq!(root("box {\n    name Box02\n"), Outcome::NeedMore);
}

#[test]
fn root_is_a_mismatch_where_neither_fits() {
    assert_eq!(root("{ name a }"), Outcome::Mismatch);
    assert_eq!(root("\n# late\n"), Outcome::Mismatch);
    assert_eq!(root("a { name }"), Outcome::Mismatch);
    assert_eq!(root("a b"), Outcome::Mismatch);
}

#[test]
fn a_decided_answer_stays_when_more_text_follows() {
    let texts = [
        "# hi\n",
        "a{name b}",
        " \n a \t { x name b(c) y } ",
        "{ name a }",
        "a { name }",
        "\n# late\n",
    ];
    for text in texts {
        for more in ["", " ", "\n", "}", "x", "name ", "# c\n", "a{name b}"] {
            let longer = format!("{}{}", text, more);
            match root(text) {
                Outcome::Done(rest, element) => {
                    let rest = format!("{}{}", rest, more);
                    assert_eq!(root(&longer), Outcome::Done(rest.as_str(), element));
                }
                Outcome::Mismatch => assert_eq!(root(&longer), Outcome::Mismatch),
                Outcome::NeedMore => panic!("{:?} is not decided", text),
            }
        }
    }
}
