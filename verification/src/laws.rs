//! What holds of the parser as a whole, proved from the contracts of its
//! functions.

use crate::facts::{
    lemma_node_names_clean, lemma_node_parser_tail, lemma_root_stable, lemma_root_tail,
};
use crate::grammar::{
    clean_name, lemma_clean_text, name_tag, spec_comment, spec_node_body, spec_node_name,
    spec_node_parser, spec_root, spec_spacelike, Element, Node, NodeView, Outcome,
};
use crate::parser::{
    fill_spec, next_spec, run, source_failed_spec, status_at_end, CursorState, Status,
};
use crate::text::lemma_ascii_byte_boundaries;
use crate::scan::{
    ends_name, is_first_occurrence, is_spacelike, lemma_first_occurrence_unique,
    lemma_occurs_at_extend, lemma_run_len_is_run, lemma_run_unique, occurs_at, run_len, Class,
    CLOSE_BRACE, HASH, LINE_FEED, OPEN_BRACE,
};
use vstd::prelude::*;
use vstd::utf8::*;

verus! {

/// The nodes of a text that is all there, in their order, and how reading
/// it ends: root elements are taken from the start of the text as long as
/// there are any, comments are dropped, and what is left decides the status.
pub open spec fn read(text: Seq<u8>) -> (Seq<NodeView>, Status)
    decreases text.len(),
{
    match spec_root(text) {
        Outcome::Done(rest, element) => {
            proof {
                lemma_root_tail(text);
            }
            let (nodes, status) = read(rest);
            match element {
                Element::Node(node) => (seq![node] + nodes, status),
                Element::Comment(_) => (nodes, status),
            }
        },
        Outcome::NeedMore => (Seq::empty(), status_at_end(text)),
        Outcome::Mismatch => (Seq::empty(), Status::SyntaxError),
    }
}

/// Every chunk holds some bytes, and they are valid UTF-8.
pub open spec fn readable(chunks: Seq<Seq<u8>>) -> bool {
    forall|k: int|
        0 <= k < chunks.len() ==> (#[trigger] chunks[k]).len() > 0 && valid_utf8(chunks[k])
}

/// Reading through a cursor that still takes input, and has no limit, gives
/// what reading all the text at once gives: the pending text followed by
/// every chunk.
pub proof fn lemma_run_is_read(s: CursorState, chunks: Seq<Seq<u8>>)
    requires
        s.takes_input(),
        s.limit is None,
        readable(chunks),
    ensures
        run(s, chunks) == read(s.pending + chunks.flatten()),
    decreases chunks.len(), s.pending.len(),
{
    let coming = chunks.flatten();
    let text = s.pending + coming;
    lemma_root_tail(s.pending);
    match spec_root(s.pending) {
        Outcome::Done(rest, element) => {
            lemma_root_stable(s.pending, coming);
            let shorter = CursorState { pending: rest, ..s };
            lemma_run_is_read(shorter, chunks);
            match element {
                Element::Node(_) => {},
                Element::Comment(_) => {
                    assert(next_spec(s) == next_spec(shorter));
                    assert(run(s, chunks) == run(shorter, chunks));
                },
            }
        },
        Outcome::Mismatch => {
            lemma_root_stable(s.pending, coming);
        },
        Outcome::NeedMore => {
            if chunks.len() > 0 {
                let grown = fill_spec(s, chunks[0]);
                let others = chunks.drop_first();
                assert(readable(others)) by {
                    assert forall|k: int| 0 <= k < others.len() implies (#[trigger] others[k]).len()
                        > 0 && valid_utf8(others[k]) by {
                        assert(others[k] == chunks[k + 1]);
                    }
                }
                lemma_run_is_read(grown, others);
                assert((s.pending + chunks[0]) + others.flatten() =~= text);
            } else {
                assert(text =~= s.pending);
            }
        },
    }
}

/// Chunking invariance: however a text is cut into chunks of valid UTF-8,
/// none of them empty, a new cursor that is fed the chunks one by one gives
/// the nodes, and ends in the status, that the whole text gives.
pub proof fn lemma_chunking_invariance(chunks: Seq<Seq<u8>>)
    requires
        readable(chunks),
    ensures
        run(CursorState::initial(), chunks) == read(chunks.flatten()),
{
    lemma_run_is_read(CursorState::initial(), chunks);
    assert(Seq::<u8>::empty() + chunks.flatten() =~= chunks.flatten());
}

/// The same text in other chunks gives the same nodes and the same status.
pub proof fn lemma_chunks_do_not_matter(one: Seq<Seq<u8>>, other: Seq<Seq<u8>>)
    requires
        readable(one),
        readable(other),
        one.flatten() == other.flatten(),
    ensures
        run(CursorState::initial(), one) == run(CursorState::initial(), other),
{
    lemma_chunking_invariance(one);
    lemma_chunking_invariance(other);
}

/// All of `text` is spacelike.
pub open spec fn all_spacelike(text: Seq<u8>) -> bool {
    forall|j: int| 0 <= j < text.len() ==> is_spacelike(#[trigger] text[j])
}

/// `text` is one root element, no more and no less.
pub open spec fn is_element(text: Seq<u8>) -> bool {
    spec_root(text) matches Outcome::Done(rest, _) && rest.len() == 0
}

/// Every text of `elements` is one root element.
pub open spec fn all_elements(elements: Seq<Seq<u8>>) -> bool {
    forall|k: int| 0 <= k < elements.len() ==> is_element(#[trigger] elements[k])
}

/// The nodes among `elements`, in their order.
pub open spec fn nodes_among(elements: Seq<Seq<u8>>) -> Seq<NodeView>
    decreases elements.len(),
{
    if elements.len() == 0 {
        Seq::empty()
    } else {
        match spec_root(elements[0]) {
            Outcome::Done(_, Element::Node(node)) => seq![node] + nodes_among(
                elements.drop_first(),
            ),
            _ => nodes_among(elements.drop_first()),
        }
    }
}

/// Spacelike text alone needs more: a node may follow it.
pub proof fn lemma_spacelike_needs_more(text: Seq<u8>)
    requires
        all_spacelike(text),
    ensures
        spec_root(text) is NeedMore,
        status_at_end(text) == Status::Exhausted,
{
    lemma_run_unique(text, Class::Spacelike, text.len() as int);
    if text.len() > 0 {
        assert(is_spacelike(text[0]));
        let left = spec_spacelike(text)->Done_0;
        assert(left.len() == 0);
        assert(run_len(left, Class::Name) == 0);
    }
}

/// A text made of root elements, with nothing but spacelike text after the
/// last, reads as the nodes among them, comments left out, and ends cleanly.
pub proof fn lemma_read_document(elements: Seq<Seq<u8>>, tail: Seq<u8>)
    requires
        all_elements(elements),
        all_spacelike(tail),
    ensures
        read(elements.flatten() + tail) == (nodes_among(elements), Status::Exhausted),
    decreases elements.len(),
{
    if elements.len() == 0 {
        lemma_spacelike_needs_more(tail);
        assert(elements.flatten() + tail =~= tail);
    } else {
        let first = elements[0];
        let others = elements.drop_first();
        let after = others.flatten() + tail;
        assert(is_element(first));
        assert(all_elements(others)) by {
            assert forall|k: int| 0 <= k < others.len() implies is_element(
                #[trigger] others[k],
            ) by {
                assert(others[k] == elements[k + 1]);
            }
        }
        lemma_read_document(others, tail);
        lemma_root_stable(first, after);
        assert(spec_root(first)->Done_0 + after =~= after);
        assert(elements.flatten() + tail =~= first + after);
    }
}

/// The same document in chunks: a text made of root elements and a
/// spacelike end, cut into chunks of valid UTF-8 in any way, none of them
/// empty, gives the nodes among the elements in their order, and a clean end.
pub proof fn lemma_chunked_document(
    elements: Seq<Seq<u8>>,
    tail: Seq<u8>,
    chunks: Seq<Seq<u8>>,
)
    requires
        all_elements(elements),
        all_spacelike(tail),
        readable(chunks),
        chunks.flatten() == elements.flatten() + tail,
    ensures
        run(CursorState::initial(), chunks) == (nodes_among(elements), Status::Exhausted),
{
    lemma_chunking_invariance(chunks);
    lemma_read_document(elements, tail);
}

/// A node that stands for a recognised node is well formed: its type and
/// its name are not empty and hold nothing spacelike, no brace, bracket or
/// parenthesis.
pub proof fn lemma_node_well_formed(i: Seq<u8>, node: Node)
    requires
        spec_root(i) matches Outcome::Done(_, Element::Node(found)) && found == node@,
    ensures
        node.well_formed(),
{
    lemma_node_names_clean(i);
    lemma_clean_text(node.node_type@);
    lemma_clean_text(node.name@);
}

/// A body gives its name whatever else it holds: with any text `before`
/// the first `name `, and any text without `}` `between` the name and the
/// closing brace, the body is recognised, and its value is the name.
pub proof fn lemma_body_ignores_other_text(
    before: Seq<u8>,
    name: Seq<u8>,
    between: Seq<u8>,
    rest: Seq<u8>,
)
    requires
        is_first_occurrence(before + name_tag(), name_tag(), before.len() as int),
        clean_name(name),
        between.len() > 0 ==> ends_name(between[0]),
        forall|j: int| 0 <= j < between.len() ==> between[j] != CLOSE_BRACE,
    ensures
        spec_node_body(
            seq![OPEN_BRACE] + before + name_tag() + name + between + seq![CLOSE_BRACE] + rest,
        ) == Outcome::<Seq<u8>, Seq<u8>>::Done(rest, name),
{
    let tag = name_tag();
    let i = seq![OPEN_BRACE] + before + tag + name + between + seq![CLOSE_BRACE] + rest;
    let after_name = between + seq![CLOSE_BRACE] + rest;
    let after_tag = name + after_name;
    let field = tag + after_tag;
    let inside = before + field;
    assert(i.skip(1) =~= inside);
    assert(i[0] == OPEN_BRACE);
    // the first `name ` of the body
    assert(inside =~= (before + tag) + after_tag);
    assert forall|j: int| 0 <= j <= before.len() implies #[trigger] occurs_at(inside, tag, j)
        == occurs_at(before + tag, tag, j) by {
        lemma_occurs_at_extend(before + tag, after_tag, tag, j);
    }
    lemma_first_occurrence_unique(inside, tag, before.len() as int);
    assert(inside.skip(before.len() as int) =~= field);
    // the name field
    assert(field.take(tag.len() as int) =~= tag);
    assert(field.skip(tag.len() as int) =~= after_tag);
    assert forall|j: int| 0 <= j < name.len() implies Class::Name.contains(
        #[trigger] after_tag[j],
    ) by {
        assert(after_tag[j] == name[j]);
    }
    assert(after_tag[name.len() as int] == after_name[0]);
    assert(ends_name(after_name[0])) by {
        if between.len() > 0 {
            assert(after_name[0] == between[0]);
        } else {
            assert(after_name[0] == CLOSE_BRACE);
        }
    }
    lemma_run_unique(after_tag, Class::Name, name.len() as int);
    assert(after_tag.skip(name.len() as int) =~= after_name);
    assert(after_tag.take(name.len() as int) =~= name);
    // the spacelike text after the name lies before the closing brace
    let n = run_len(after_name, Class::Spacelike);
    lemma_run_len_is_run(after_name, Class::Spacelike);
    assert(after_name[between.len() as int] == CLOSE_BRACE);
    assert(n <= between.len()) by {
        if n > between.len() {
            assert(Class::Spacelike.contains(after_name[between.len() as int]));
        }
    }
    let after_field = after_name.skip(n);
    // up to the closing brace
    let m = between.len() - n;
    assert forall|j: int| 0 <= j < m implies Class::BodyText.contains(
        #[trigger] after_field[j],
    ) by {
        assert(after_field[j] == between[n + j]);
    }
    assert(after_field[m] == CLOSE_BRACE);
    lemma_run_unique(after_field, Class::BodyText, m);
    assert(after_field.skip(m).skip(1) =~= rest);
    assert(spec_node_name(field) == Outcome::<Seq<u8>, Seq<u8>>::Done(after_field, name));
}

/// A comment in front changes nothing: the cursor answers as it does
/// without the comment.
pub proof fn lemma_comment_is_dropped(s: CursorState, text: Seq<u8>, rest: Seq<u8>)
    requires
        s.status == Status::Active,
        forall|j: int| 0 <= j < text.len() ==> text[j] != LINE_FEED,
        s.pending == seq![HASH] + text + seq![LINE_FEED] + rest,
    ensures
        next_spec(s) == next_spec(CursorState { pending: rest, ..s }),
        read(s.pending) == read(rest),
{
    let body = s.pending.skip(1);
    assert(body =~= text + seq![LINE_FEED] + rest);
    assert forall|j: int| 0 <= j < text.len() implies Class::CommentText.contains(
        #[trigger] body[j],
    ) by {
        assert(body[j] == text[j]);
    }
    assert(body[text.len() as int] == LINE_FEED);
    lemma_run_unique(body, Class::CommentText, text.len() as int);
    assert(body.skip(text.len() as int).skip(1) =~= rest);
    assert(spec_comment(s.pending) == Outcome::<Seq<u8>, Seq<u8>>::Done(
        rest,
        body.take(text.len() as int),
    ));
}

/// No node without its closing brace: where the source has ended and the
/// pending text holds no `}`, the cursor gives no node and stops.
pub proof fn lemma_unfinished_node_is_dropped(s: CursorState)
    requires
        s.ended,
        forall|j: int| 0 <= j < s.pending.len() ==> s.pending[j] != CLOSE_BRACE,
    ensures
        next_spec(s).1 is None,
        next_spec(s).0.status != Status::Active,
    decreases s.pending.len(),
{
    if s.status == Status::Active {
        lemma_root_tail(s.pending);
        match spec_root(s.pending) {
            Outcome::Done(rest, Element::Comment(_)) => {
                let shorter = CursorState { pending: rest, ..s };
                assert forall|j: int| 0 <= j < rest.len() implies rest[j] != CLOSE_BRACE by {
                    assert(rest[j] == s.pending[s.pending.len() - rest.len() + j]);
                }
                lemma_unfinished_node_is_dropped(shorter);
            },
            Outcome::Done(rest, Element::Node(_)) => {
                lemma_node_closes(s.pending);
            },
            _ => {},
        }
    }
}

/// A text that starts with a node holds a `}`.
pub proof fn lemma_node_closes(i: Seq<u8>)
    requires
        spec_node_parser(i) is Done,
    ensures
        exists|j: int| 0 <= j < i.len() && i[j] == CLOSE_BRACE,
{
    lemma_node_parser_tail(i);
    let rest = spec_node_parser(i)->Done_0;
    assert(i[i.len() - rest.len() - 1] == CLOSE_BRACE);
}

/// The pending text stays text, and within the limit, whatever is done with
/// the cursor.
pub proof fn lemma_state_stays_well_formed(s: CursorState, chunk: Seq<u8>)
    requires
        s.well_formed(),
    ensures
        fill_spec(s, chunk).well_formed(),
        next_spec(s).0.well_formed(),
        source_failed_spec(s).well_formed(),
    decreases s.pending.len(),
{
    if valid_utf8(chunk) {
        valid_utf8_concat(s.pending, chunk);
    }
    if s.status == Status::Active {
        lemma_root_tail(s.pending);
        if let Outcome::Done(rest, element) = spec_root(s.pending) {
            let cut = s.pending.len() - rest.len();
            lemma_ascii_byte_boundaries(s.pending, cut - 1);
            valid_utf8_split(s.pending, cut);
            if element is Comment {
                lemma_state_stays_well_formed(CursorState { pending: rest, ..s }, chunk);
            }
        }
    }
}

} // verus!
