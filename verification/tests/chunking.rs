use arse_parser::{parse_chunks, Node, Status};

const SCENE: &str = "# hi\n\nsphere\n{\n    name Sphere02\n}\nbox {\n    name Box02\n}\n";

fn node(node_type: &str, name: &str) -> Node {
    Node { node_type: node_type.to_string(), name: name.to_string() }
}

fn scene_nodes() -> Vec<Node> {
    vec![node("sphere", "Sphere02"), node("box", "Box02")]
}

#[test]
fn the_scene_in_one_chunk_gives_two_nodes() {
    let (nodes, status) = parse_chunks(&vec![SCENE.as_bytes().to_vec()]);
    assert_eq!(nodes, scene_nodes());
    assert_eq!(status, Status::Exhausted);
}

#[test]
fn the_scene_cut_in_two_anywhere_gives_the_same_nodes() {
    let bytes = SCENE.as_bytes();
    for at in 1..bytes.len() {
        let chunks = vec![bytes[..at].to_vec(), bytes[at..].to_vec()];
        let (nodes, status) = parse_chunks(&chunks);
        assert_eq!(nodes, scene_nodes(), "cut at {}", at);
        assert_eq!(status, Status::Exhausted, "cut at {}", at);
    }
}

#[test]
fn the_scene_cut_in_three_anywhere_gives_the_same_nodes() {
    let bytes = SCENE.as_bytes();
    for first in 1..bytes.len() {
        for second in first + 1..bytes.len() {
            let chunks = vec![
                bytes[..first].to_vec(),
                bytes[first..second].to_vec(),
                bytes[second..].to_vec(),
            ];
            let (nodes, status) = parse_chunks(&chunks);
            assert_eq!(nodes, scene_nodes(), "cut at {} and {}", first, second);
            assert_eq!(status, Status::Exhausted);
        }
    }
}

#[test]
fn the_scene_byte_by_byte_gives_the_same_nodes() {
    let chunks: Vec<Vec<u8>> = SCENE.as_bytes().iter().map(|b| vec![*b]).collect();
    let (nodes, status) = parse_chunks(&chunks);
    assert_eq!(nodes, scene_nodes());
    assert_eq!(status, Status::Exhausted);
}

#[test]
fn chunks_of_every_size_give_what_the_whole_text_gives() {
    let texts = [
        "a{name b}",
        "# c\n#d\n  a\t{ x name b y } \n c { name d }  ",
        "a { } b { name x } c { name y }",
        "a{name b}\n# late\nc{name d}\n",
        "sphere\n{\n}\n",
        "a{name b} c{name {d}",
        "a { name b } c { name d",
        "a{name }b}",
        "",
        " \n ",
    ];
    for text in texts {
        let bytes = text.as_bytes();
        let whole = parse_chunks(&vec![bytes.to_vec()]);
        for size in 1..bytes.len() + 1 {
            let chunks: Vec<Vec<u8>> = bytes.chunks(size).map(|c| c.to_vec()).collect();
            assert_eq!(parse_chunks(&chunks), whole, "{:?} in chunks of {}", text, size);
        }
    }
}

#[test]
fn no_chunks_at_all_are_an_empty_source() {
    let (nodes, status) = parse_chunks(&vec![]);
    assert_eq!(nodes, vec![]);
    assert_eq!(status, Status::Exhausted);
}

#[test]
fn an_empty_chunk_ends_the_source() {
    let chunks = vec![b"a{name b}c{na".to_vec(), vec![], b"me d}".to_vec()];
    let (nodes, status) = parse_chunks(&chunks);
    assert_eq!(nodes, vec![node("a", "b")]);
    assert_eq!(status, Status::SyntaxError);
}

#[test]
fn a_trailing_node_without_closing_brace_is_not_returned() {
    let text = "sphere { name Sphere02 }\nbox {\n    name Box02\n";
    let bytes = text.as_bytes();
    for at in 1..bytes.len() {
        let chunks = vec![bytes[..at].to_vec(), bytes[at..].to_vec()];
        let (nodes, status) = parse_chunks(&chunks);
        assert_eq!(nodes, vec![node("sphere", "Sphere02")]);
        assert_eq!(status, Status::SyntaxError);
    }
}

#[test]
fn a_chunk_that_is_not_utf8_ends_the_reading() {
    let chunks = vec![b"a{name b}".to_vec(), vec![0xc3], b"c{name d}".to_vec()];
    let (nodes, status) = parse_chunks(&chunks);
    assert_eq!(nodes, vec![node("a", "b")]);
    assert_eq!(status, Status::DecodeError);
}
