use arse_parser::grammar::root;
use arse_parser::{Outcome, RootElement};
use nom::branch::alt;
use nom::bytes::streaming::{is_not, tag, take_until, take_while};
use nom::character::streaming::char;
use nom::error::ParseError;
use nom::sequence::{delimited, pair, preceded};
use nom::IResult;

// The grammar once more, put together from nom's streaming combinators.

fn nom_comment(i: &str) -> IResult<&str, &str> {
    delimited(char('#'), is_not("\n"), char('\n'))(i)
}

fn nom_spacelike<'a, E: ParseError<&'a str>>(i: &'a str) -> IResult<&'a str, &'a str, E> {
    take_while(move |c| " \t\r\n".contains(c))(i)
}

fn nom_name(i: &str) -> IResult<&str, &str> {
    is_not(" \t\r\n{}[]()")(i)
}

fn nom_node_name(i: &str) -> IResult<&str, &str> {
    delimited(tag("name "), nom_name, nom_spacelike)(i)
}

fn nom_node_body(i: &str) -> IResult<&str, &str> {
    delimited(
        char('{'),
        delimited(take_until("name "), nom_node_name, take_until("}")),
        char('}'),
    )(i)
}

fn nom_node(i: &str) -> IResult<&str, (&str, &str)> {
    pair(preceded(nom_spacelike, nom_name), preceded(nom_spacelike, nom_node_body))(i)
}

fn nom_root(i: &str) -> IResult<&str, (Option<&str>, Option<(&str, &str)>)> {
    alt((
        nom::combinator::map(nom_comment, |c| (Some(c), None)),
        nom::combinator::map(nom_node, |n| (None, Some(n))),
    ))(i)
}

fn agree(text: &str) {
    let ours = root(text);
    match nom_root(text) {
        Ok((rest, (Some(comment), None))) => {
            assert_eq!(ours, Outcome::Done(rest, RootElement::Comment(comment)), "{:?}", text)
        }
        Ok((rest, (_, Some((node_type, name))))) => match ours {
            Outcome::Done(ours_rest, RootElement::Node(node)) => {
                let ours = (ours_rest, node.node_type.as_str(), node.name.as_str());
                assert_eq!(ours, (rest, node_type, name));
            }
            other => panic!("{:?}: {:?}", text, other),
        },
        Ok(other) => unreachable!("{:?}", other),
        Err(nom::Err::Incomplete(_)) => assert_eq!(ours, Outcome::NeedMore, "{:?}", text),
        Err(_) => assert_eq!(ours, Outcome::Mismatch, "{:?}", text),
    }
}

#[test]
fn root_agrees_with_the_combinators_on_every_start_of_a_scene() {
    let scene = "# hi\n\nsphere\n{\n    name Sphere02\n}\nbox {\n    name Box02\n}\n";
    for from in 0..scene.len() {
        for to in from..scene.len() + 1 {
            agree(&scene[from..to]);
        }
    }
}

#[test]
fn root_agrees_with_the_combinators_on_short_texts() {
    // Every text of up to five of these pieces, but for those that start
    // with an empty comment, which is a comment here.
    let pieces = ["#", "\n", " ", "{", "}", "name ", "n", "a", "(", "\u{e9}", "\t"];
    let mut texts = vec![String::new()];
    let mut from = 0;
    for _ in 0..5 {
        let to = texts.len();
        for k in from..to {
            for piece in pieces {
                texts.push(format!("{}{}", texts[k], piece));
            }
        }
        from = to;
    }
    assert_eq!(texts.len(), 1 + 11 + 121 + 1331 + 14641 + 161051);
    for text in texts {
        if !text.starts_with("#\n") {
            agree(&text);
        }
    }
}
