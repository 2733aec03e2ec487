//! The grammar: comments, names and nodes, recognised one at a time at the
//! start of a text that may not be complete yet.
//!
//! Every recogniser answers in one of three ways: it is `Done`, with the
//! text that is left and what it found; it `NeedMore`, because the text ends
//! before the answer is decided; or the text is a `Mismatch`, whatever may
//! follow it.
//!
//! The grammar is stated over the UTF-8 encoding of the text (`spec_*`
//! functions on `Seq<u8>`); each executable recogniser takes a `&str` and
//! returns exactly what its `spec_*` function says of the bytes of that
//! `&str`.

use crate::facts::lemma_node_names_clean;
use crate::scan::{
    common_prefix, ends_name, find, find_literal, lemma_find, lemma_run_len_is_run, run_len,
    run_length, Class, HASH, OPEN_BRACE,
};
use crate::text::{bytes_of, cut, lemma_ascii_char_is_byte};
use vstd::prelude::*;
use vstd::string::*;
use vstd::utf8::*;

verus! {

/// The answer of a recogniser: `R` is the text left over, `T` what was found.
#[derive(Debug, PartialEq, Eq)]
pub enum Outcome<R, T> {
    /// Recognised: the rest of the text, and the value.
    Done(R, T),
    /// The text ends too early to decide.
    NeedMore,
    /// The text does not start with what was asked for.
    Mismatch,
}

/// An outcome over texts, as bytes.
pub type Parsed = Outcome<Seq<u8>, Seq<u8>>;

/// The bytes of an outcome over string slices.
pub open spec fn parsed(o: Outcome<&str, &str>) -> Parsed {
    match o {
        Outcome::Done(rest, value) => Outcome::Done(rest.spec_bytes(), value.spec_bytes()),
        Outcome::NeedMore => Outcome::NeedMore,
        Outcome::Mismatch => Outcome::Mismatch,
    }
}

/// The literal `name ` that introduces the name of a node.
pub open spec fn name_tag() -> Seq<u8> {
    seq![0x6eu8, 0x61u8, 0x6du8, 0x65u8, 0x20u8]
}

/// The byte `b`.
pub open spec fn spec_byte(i: Seq<u8>, b: u8) -> Parsed {
    if i.len() == 0 {
        Outcome::NeedMore
    } else if i[0] == b {
        Outcome::Done(i.skip(1), i.take(1))
    } else {
        Outcome::Mismatch
    }
}

/// The longest run of bytes of `class`, which may be empty. The run must be
/// seen to end: a run up to the end of the text may go on.
pub open spec fn spec_run(i: Seq<u8>, class: Class) -> Parsed {
    let n = run_len(i, class);
    if n == i.len() {
        Outcome::NeedMore
    } else {
        Outcome::Done(i.skip(n), i.take(n))
    }
}

/// The literal `lit`. A text that is a proper prefix of `lit` needs more.
pub open spec fn spec_tag(i: Seq<u8>, lit: Seq<u8>) -> Parsed {
    if lit.is_prefix_of(i) {
        Outcome::Done(i.skip(lit.len() as int), lit)
    } else if i.is_prefix_of(lit) {
        Outcome::NeedMore
    } else {
        Outcome::Mismatch
    }
}

/// Everything before the first occurrence of `lit`, which is left in the
/// rest. Never a mismatch: `lit` may still come.
pub open spec fn spec_until(i: Seq<u8>, lit: Seq<u8>) -> Parsed {
    match find(i, lit) {
        Some(k) => Outcome::Done(i.skip(k), i.take(k)),
        None => Outcome::NeedMore,
    }
}

/// A comment: `#`, any bytes but a line feed, a line feed. The value is the
/// text between the two. A text that starts with `#` is never a mismatch.
pub open spec fn spec_comment(i: Seq<u8>) -> Parsed {
    match spec_byte(i, HASH) {
        Outcome::Done(body, _) => match spec_run(body, Class::CommentText) {
            Outcome::Done(rest, text) => Outcome::Done(rest.skip(1), text),
            _ => Outcome::NeedMore,
        },
        Outcome::NeedMore => Outcome::NeedMore,
        Outcome::Mismatch => Outcome::Mismatch,
    }
}

/// The longest run of spacelike bytes, which may be empty. Always done: the
/// end of the text ends the run.
pub open spec fn spec_spacelike(i: Seq<u8>) -> Parsed {
    let n = run_len(i, Class::Spacelike);
    Outcome::Done(i.skip(n), i.take(n))
}

/// A name: the longest run of bytes that do not end a name. It is not empty,
/// and the byte that ends it must be there.
pub open spec fn spec_name(i: Seq<u8>) -> Parsed {
    match spec_run(i, Class::Name) {
        Outcome::Done(rest, value) => if value.len() == 0 {
            Outcome::Mismatch
        } else {
            Outcome::Done(rest, value)
        },
        _ => Outcome::NeedMore,
    }
}

/// The name field: `name `, a name, spacelike bytes. The value is the name.
pub open spec fn spec_node_name(i: Seq<u8>) -> Parsed {
    match spec_tag(i, name_tag()) {
        Outcome::Done(after_tag, _) => match spec_name(after_tag) {
            Outcome::Done(after_name, value) => Outcome::Done(
                spec_spacelike(after_name)->Done_0,
                value,
            ),
            Outcome::NeedMore => Outcome::NeedMore,
            Outcome::Mismatch => Outcome::Mismatch,
        },
        Outcome::NeedMore => Outcome::NeedMore,
        Outcome::Mismatch => Outcome::Mismatch,
    }
}

/// The body of a node: `{`, anything up to the first `name `, the name
/// field, anything up to the first `}`, and that `}`. The value is the name.
pub open spec fn spec_node_body(i: Seq<u8>) -> Parsed {
    match spec_byte(i, OPEN_BRACE) {
        Outcome::Done(inside, _) => match spec_until(inside, name_tag()) {
            Outcome::Done(field, _) => match spec_node_name(field) {
                Outcome::Done(after_field, value) => match spec_run(after_field, Class::BodyText) {
                    Outcome::Done(closing, _) => Outcome::Done(closing.skip(1), value),
                    _ => Outcome::NeedMore,
                },
                Outcome::NeedMore => Outcome::NeedMore,
                Outcome::Mismatch => Outcome::Mismatch,
            },
            _ => Outcome::NeedMore,
        },
        Outcome::NeedMore => Outcome::NeedMore,
        Outcome::Mismatch => Outcome::Mismatch,
    }
}

/// A node: spacelike bytes, the name of its type, spacelike bytes, its body.
/// The value is the type and the name.
pub open spec fn spec_node_parser(i: Seq<u8>) -> Outcome<Seq<u8>, (Seq<u8>, Seq<u8>)> {
    match spec_name(spec_spacelike(i)->Done_0) {
        Outcome::Done(after_type, node_type) => match spec_node_body(
            spec_spacelike(after_type)->Done_0,
        ) {
            Outcome::Done(rest, name) => Outcome::Done(rest, (node_type, name)),
            Outcome::NeedMore => Outcome::NeedMore,
            Outcome::Mismatch => Outcome::Mismatch,
        },
        Outcome::NeedMore => Outcome::NeedMore,
        Outcome::Mismatch => Outcome::Mismatch,
    }
}

/// One parsed entity: the name of its type and its own name.
#[derive(Debug, PartialEq, Eq)]
pub struct Node {
    pub node_type: String,
    pub name: String,
}

/// A character that ends a name: anything spacelike, a brace, a bracket or
/// a parenthesis.
pub open spec fn ends_name_char(c: char) -> bool {
    c == ' ' || c == '\t' || c == '\r' || c == '\n' || c == '{' || c == '}' || c == '[' || c == ']'
        || c == '(' || c == ')'
}

/// A name as text: not empty, and without a character that ends a name.
pub open spec fn clean_text(text: Seq<char>) -> bool {
    text.len() > 0 && forall|k: int| 0 <= k < text.len() ==> !ends_name_char(#[trigger] text[k])
}

/// A name as bytes: not empty, and without a byte that ends a name.
pub open spec fn clean_name(name: Seq<u8>) -> bool {
    name.len() > 0 && forall|j: int| 0 <= j < name.len() ==> !ends_name(#[trigger] name[j])
}

/// A text whose encoding is a clean name is clean.
pub proof fn lemma_clean_text(text: Seq<char>)
    requires
        clean_name(encode_utf8(text)),
    ensures
        clean_text(text),
{
    assert forall|k: int| 0 <= k < text.len() implies !ends_name_char(#[trigger] text[k]) by {
        if ends_name_char(text[k]) {
            lemma_ascii_char_is_byte(text, k);
            let bytes = encode_utf8(text);
            let j = choose|j: int| 0 <= j < bytes.len() && #[trigger] bytes[j] == text[k] as u8;
            assert(ends_name(bytes[j]));
        }
    }
}

impl Node {
    /// Both fields are names: not empty, and without anything spacelike, a
    /// brace, a bracket or a parenthesis.
    pub open spec fn well_formed(&self) -> bool {
        clean_text(self.node_type@) && clean_text(self.name@)
    }
}

/// What a `Node` stands for: the UTF-8 encodings of its two fields.
pub struct NodeView {
    pub node_type: Seq<u8>,
    pub name: Seq<u8>,
}

impl View for Node {
    type V = NodeView;

    open spec fn view(&self) -> NodeView {
        NodeView { node_type: bytes_of(&self.node_type), name: bytes_of(&self.name) }
    }
}

/// What stands at the top level of a text.
#[derive(Debug, PartialEq, Eq)]
pub enum RootElement<'a> {
    Node(Node),
    Comment(&'a str),
}

/// What a `RootElement` stands for.
pub enum Element {
    Node(NodeView),
    Comment(Seq<u8>),
}

impl<'a> View for RootElement<'a> {
    type V = Element;

    open spec fn view(&self) -> Element {
        match self {
            RootElement::Node(node) => Element::Node(node@),
            RootElement::Comment(text) => Element::Comment(text.spec_bytes()),
        }
    }
}

/// A root element: a comment, or else a node. A text that a comment needs
/// more of needs more; only where it cannot be a comment is a node tried.
pub open spec fn spec_root(i: Seq<u8>) -> Outcome<Seq<u8>, Element> {
    match spec_comment(i) {
        Outcome::Done(rest, text) => Outcome::Done(rest, Element::Comment(text)),
        Outcome::NeedMore => Outcome::NeedMore,
        Outcome::Mismatch => match spec_node_parser(i) {
            Outcome::Done(rest, (node_type, name)) => Outcome::Done(
                rest,
                Element::Node(NodeView { node_type, name }),
            ),
            Outcome::NeedMore => Outcome::NeedMore,
            Outcome::Mismatch => Outcome::Mismatch,
        },
    }
}

/// The bytes of an outcome of `root`.
pub open spec fn parsed_root(o: Outcome<&str, RootElement>) -> Outcome<Seq<u8>, Element> {
    match o {
        Outcome::Done(rest, element) => Outcome::Done(rest.spec_bytes(), element@),
        Outcome::NeedMore => Outcome::NeedMore,
        Outcome::Mismatch => Outcome::Mismatch,
    }
}

/// The bytes of an outcome of `node_parser`.
pub open spec fn parsed_pair(o: Outcome<&str, (&str, &str)>) -> Outcome<
    Seq<u8>,
    (Seq<u8>, Seq<u8>),
> {
    match o {
        Outcome::Done(rest, pair) => Outcome::Done(
            rest.spec_bytes(),
            (pair.0.spec_bytes(), pair.1.spec_bytes()),
        ),
        Outcome::NeedMore => Outcome::NeedMore,
        Outcome::Mismatch => Outcome::Mismatch,
    }
}

fn byte(i: &str, b: u8) -> (r: Outcome<&str, &str>)
    requires
        b < 0x80,
    ensures
        parsed(r) == spec_byte(i.spec_bytes(), b),
{
    let bytes = i.as_bytes();
    if bytes.len() == 0 {
        Outcome::NeedMore
    } else if bytes[0] == b {
        let (value, rest) = cut(i, 1);
        Outcome::Done(rest, value)
    } else {
        Outcome::Mismatch
    }
}

fn run(i: &str, class: Class) -> (r: Outcome<&str, &str>)
    ensures
        parsed(r) == spec_run(i.spec_bytes(), class),
{
    let bytes = i.as_bytes();
    let n = run_length(bytes, class);
    if n == bytes.len() {
        Outcome::NeedMore
    } else {
        proof {
            lemma_run_len_is_run(bytes@, class);
        }
        let (value, rest) = cut(i, n);
        Outcome::Done(rest, value)
    }
}

/// A comment at the start of `i`: the text between `#` and the line feed.
pub fn comment(i: &str) -> (r: Outcome<&str, &str>)
    ensures
        parsed(r) == spec_comment(i.spec_bytes()),
{
    match byte(i, HASH) {
        Outcome::Done(body, _) => match run(body, Class::CommentText) {
            Outcome::Done(rest, text) => {
                proof {
                    lemma_run_len_is_run(body.spec_bytes(), Class::CommentText);
                }
                let (_, rest) = cut(rest, 1);
                Outcome::Done(rest, text)
            },
            _ => Outcome::NeedMore,
        },
        Outcome::NeedMore => Outcome::NeedMore,
        Outcome::Mismatch => Outcome::Mismatch,
    }
}

/// The spacelike bytes at the start of `i`, be there any or none.
pub fn spacelike(i: &str) -> (r: Outcome<&str, &str>)
    ensures
        parsed(r) == spec_spacelike(i.spec_bytes()),
{
    let bytes = i.as_bytes();
    let n = run_length(bytes, Class::Spacelike);
    proof {
        lemma_run_len_is_run(bytes@, Class::Spacelike);
    }
    let (value, rest) = cut(i, n);
    Outcome::Done(rest, value)
}

/// A name at the start of `i`.
pub fn name(i: &str) -> (r: Outcome<&str, &str>)
    ensures
        parsed(r) == spec_name(i.spec_bytes()),
{
    match run(i, Class::Name) {
        Outcome::Done(rest, value) => if value.as_bytes().len() == 0 {
            Outcome::Mismatch
        } else {
            Outcome::Done(rest, value)
        },
        _ => Outcome::NeedMore,
    }
}

fn tag<'a>(i: &'a str, lit: &[u8]) -> (r: Outcome<&'a str, &'a str>)
    requires
        forall|j: int| 0 <= j < lit@.len() ==> lit@[j] < 0x80,
    ensures
        parsed(r) == spec_tag(i.spec_bytes(), lit@),
{
    let bytes = i.as_bytes();
    let shared = common_prefix(bytes, lit);
    if shared == lit.len() {
        proof {
            if shared > 0 {
                assert(bytes@.take(shared as int)[shared - 1] == lit@.take(shared as int)[shared
                    - 1]);
            }
        }
        let (value, rest) = cut(i, shared);
        Outcome::Done(rest, value)
    } else if shared == bytes.len() {
        Outcome::NeedMore
    } else {
        Outcome::Mismatch
    }
}

fn until<'a>(i: &'a str, lit: &[u8]) -> (r: Outcome<&'a str, &'a str>)
    requires
        lit@.len() > 0,
        lit@[0] < 0x80,
    ensures
        parsed(r) == spec_until(i.spec_bytes(), lit@),
{
    match find_literal(i.as_bytes(), lit) {
        Some(k) => {
            proof {
                lemma_find(i.spec_bytes(), lit@);
                let sub = i.spec_bytes().subrange(k as int, k + lit@.len());
                assert(sub[0] == i.spec_bytes()[k as int]);
            }
            let (value, rest) = cut(i, k);
            Outcome::Done(rest, value)
        },
        None => Outcome::NeedMore,
    }
}

/// The bytes of the literal `name `.
fn name_tag_bytes() -> (lit: [u8; 5])
    ensures
        lit@ == name_tag(),
{
    let lit: [u8; 5] = [0x6e, 0x61, 0x6d, 0x65, 0x20];
    assert(lit@ =~= name_tag());
    lit
}

/// The name field at the start of `i`: the name that follows `name `.
pub fn node_name(i: &str) -> (r: Outcome<&str, &str>)
    ensures
        parsed(r) == spec_node_name(i.spec_bytes()),
{
    let lit = name_tag_bytes();
    match tag(i, lit.as_slice()) {
        Outcome::Done(after_tag, _) => match name(after_tag) {
            Outcome::Done(after_name, value) => match spacelike(after_name) {
                Outcome::Done(rest, _) => Outcome::Done(rest, value),
                _ => Outcome::NeedMore,
            },
            Outcome::NeedMore => Outcome::NeedMore,
            Outcome::Mismatch => Outcome::Mismatch,
        },
        Outcome::NeedMore => Outcome::NeedMore,
        Outcome::Mismatch => Outcome::Mismatch,
    }
}

/// The body of a node at the start of `i`: the name that it gives.
pub fn node_body(i: &str) -> (r: Outcome<&str, &str>)
    ensures
        parsed(r) == spec_node_body(i.spec_bytes()),
{
    let lit = name_tag_bytes();
    match byte(i, OPEN_BRACE) {
        Outcome::Done(inside, _) => match until(inside, lit.as_slice()) {
            Outcome::Done(field, _) => match node_name(field) {
                Outcome::Done(after_field, value) => match run(after_field, Class::BodyText) {
                    Outcome::Done(closing, _) => {
                        proof {
                            lemma_run_len_is_run(after_field.spec_bytes(), Class::BodyText);
                        }
                        let (_, rest) = cut(closing, 1);
                        Outcome::Done(rest, value)
                    },
                    _ => Outcome::NeedMore,
                },
                Outcome::NeedMore => Outcome::NeedMore,
                Outcome::Mismatch => Outcome::Mismatch,
            },
            _ => Outcome::NeedMore,
        },
        Outcome::NeedMore => Outcome::NeedMore,
        Outcome::Mismatch => Outcome::Mismatch,
    }
}

/// A node at the start of `i`: the name of its type, and its name.
pub fn node_parser(i: &str) -> (r: Outcome<&str, (&str, &str)>)
    ensures
        parsed_pair(r) == spec_node_parser(i.spec_bytes()),
{
    let start = match spacelike(i) {
        Outcome::Done(rest, _) => rest,
        _ => i,
    };
    match name(start) {
        Outcome::Done(after_type, node_type) => {
            let open = match spacelike(after_type) {
                Outcome::Done(rest, _) => rest,
                _ => after_type,
            };
            match node_body(open) {
                Outcome::Done(rest, name) => Outcome::Done(rest, (node_type, name)),
                Outcome::NeedMore => Outcome::NeedMore,
                Outcome::Mismatch => Outcome::Mismatch,
            }
        },
        Outcome::NeedMore => Outcome::NeedMore,
        Outcome::Mismatch => Outcome::Mismatch,
    }
}

/// The root element at the start of `i`: a comment, or else a node.
pub fn root<'a>(i: &'a str) -> (r: Outcome<&'a str, RootElement<'a>>)
    ensures
        parsed_root(r) == spec_root(i.spec_bytes()),
        r matches Outcome::Done(_, RootElement::Node(node)) ==> node.well_formed(),
{
    proof {
        lemma_node_names_clean(i.spec_bytes());
    }
    match comment(i) {
        Outcome::Done(rest, text) => Outcome::Done(rest, RootElement::Comment(text)),
        Outcome::NeedMore => Outcome::NeedMore,
        Outcome::Mismatch => match node_parser(i) {
            Outcome::Done(rest, pair) => {
                let node = Node { node_type: pair.0.to_owned(), name: pair.1.to_owned() };
                proof {
                    lemma_clean_text(node.node_type@);
                    lemma_clean_text(node.name@);
                }
                Outcome::Done(rest, RootElement::Node(node))
            },
            Outcome::NeedMore => Outcome::NeedMore,
            Outcome::Mismatch => Outcome::Mismatch,
        },
    }
}

} // verus!
