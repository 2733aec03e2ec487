//! Facts about the grammar: what a recogniser leaves is a tail of what it
//! was given, and a decided answer stays when more text follows.

use crate::grammar::{
    clean_name, name_tag, spec_byte, spec_comment, spec_name, spec_node_body, spec_node_name,
    spec_node_parser, spec_root, spec_run, spec_spacelike, spec_tag, spec_until, Element, Outcome,
};
use crate::scan::{
    ends_name, find, lemma_find, lemma_find_extend, lemma_run_len_extend, lemma_run_len_is_run,
    run_len, Class, CLOSE_BRACE, HASH, LINE_FEED, OPEN_BRACE,
};
use vstd::prelude::*;

verus! {

/// `rest` is `i` without some of its first bytes.
pub open spec fn is_tail(rest: Seq<u8>, i: Seq<u8>) -> bool {
    rest.len() <= i.len() && rest == i.skip(i.len() - rest.len())
}

/// Skipping bytes leaves a tail.
pub proof fn lemma_skip_is_tail(i: Seq<u8>, n: int)
    requires
        0 <= n <= i.len(),
    ensures
        is_tail(i.skip(n), i),
        i.skip(n).len() == i.len() - n,
{
}

/// A tail of a tail is a tail.
pub proof fn lemma_tail_of_tail(a: Seq<u8>, b: Seq<u8>, c: Seq<u8>)
    requires
        is_tail(a, b),
        is_tail(b, c),
    ensures
        is_tail(a, c),
{
    assert(a =~= c.skip(c.len() - a.len()));
}

/// What `spec_run` leaves is a tail that is not empty.
pub proof fn lemma_run_tail(i: Seq<u8>, class: Class)
    ensures
        spec_run(i, class) matches Outcome::Done(rest, value) ==> is_tail(rest, i) && rest.len()
            > 0 && value.len() + rest.len() == i.len() && !class.contains(rest[0]),
{
    lemma_run_len_is_run(i, class);
}

/// What `spec_comment` leaves is a tail, shorter than the text, and the
/// last byte before it is the line feed.
pub proof fn lemma_comment_tail(i: Seq<u8>)
    ensures
        spec_comment(i) matches Outcome::Done(rest, _) ==> is_tail(rest, i) && rest.len()
            < i.len() && i[i.len() - rest.len() - 1] == LINE_FEED,
{
    if let Outcome::Done(rest, _) = spec_comment(i) {
        let body = i.skip(1);
        lemma_run_tail(body, Class::CommentText);
        let after = spec_run(body, Class::CommentText)->Done_0;
        lemma_skip_is_tail(after, 1);
        lemma_tail_of_tail(rest, after, body);
        lemma_skip_is_tail(i, 1);
        lemma_tail_of_tail(rest, body, i);
        lemma_tail_of_tail(after, body, i);
        assert(after[0] == i[i.len() - after.len()]);
    }
}

/// What `spec_spacelike` leaves is a tail.
pub proof fn lemma_spacelike_tail(i: Seq<u8>)
    ensures
        is_tail(spec_spacelike(i)->Done_0, i),
{
    lemma_run_len_is_run(i, Class::Spacelike);
}

/// What `spec_name` leaves is a tail that starts with the byte that ended
/// the name.
pub proof fn lemma_name_tail(i: Seq<u8>)
    ensures
        spec_name(i) matches Outcome::Done(rest, value) ==> is_tail(rest, i) && 0 < rest.len()
            < i.len() && value.len() > 0,
{
    lemma_run_tail(i, Class::Name);
}

/// What `spec_node_name` leaves is a tail.
pub proof fn lemma_node_name_tail(i: Seq<u8>)
    ensures
        spec_node_name(i) matches Outcome::Done(rest, _) ==> is_tail(rest, i),
{
    if let Outcome::Done(rest, _) = spec_node_name(i) {
        let after_tag = spec_tag(i, name_tag())->Done_0;
        let after_name = spec_name(after_tag)->Done_0;
        lemma_skip_is_tail(i, name_tag().len() as int);
        lemma_name_tail(after_tag);
        lemma_spacelike_tail(after_name);
        lemma_tail_of_tail(rest, after_name, after_tag);
        lemma_tail_of_tail(rest, after_tag, i);
    }
}

/// What `spec_node_body` leaves is a tail, shorter than the text, and the
/// last byte before it is the closing brace.
pub proof fn lemma_node_body_tail(i: Seq<u8>)
    ensures
        spec_node_body(i) matches Outcome::Done(rest, _) ==> is_tail(rest, i) && rest.len()
            < i.len() && i[i.len() - rest.len() - 1] == CLOSE_BRACE,
{
    if let Outcome::Done(rest, _) = spec_node_body(i) {
        let inside = spec_byte(i, OPEN_BRACE)->Done_0;
        let field = spec_until(inside, name_tag())->Done_0;
        let after_field = spec_node_name(field)->Done_0;
        let closing = spec_run(after_field, Class::BodyText)->Done_0;
        lemma_skip_is_tail(i, 1);
        lemma_find(inside, name_tag());
        lemma_skip_is_tail(inside, find(inside, name_tag())->0);
        lemma_node_name_tail(field);
        lemma_run_tail(after_field, Class::BodyText);
        lemma_skip_is_tail(closing, 1);
        lemma_tail_of_tail(rest, closing, after_field);
        lemma_tail_of_tail(rest, after_field, field);
        lemma_tail_of_tail(rest, field, inside);
        lemma_tail_of_tail(rest, inside, i);
        lemma_tail_of_tail(closing, after_field, field);
        lemma_tail_of_tail(closing, field, inside);
        lemma_tail_of_tail(closing, inside, i);
        assert(closing[0] == i[i.len() - closing.len()]);
    }
}

/// What `spec_node_parser` leaves is a tail, shorter than the text, and the
/// last byte before it is the closing brace.
pub proof fn lemma_node_parser_tail(i: Seq<u8>)
    ensures
        spec_node_parser(i) matches Outcome::Done(rest, _) ==> is_tail(rest, i) && rest.len()
            < i.len() && i[i.len() - rest.len() - 1] == CLOSE_BRACE,
{
    if let Outcome::Done(rest, _) = spec_node_parser(i) {
        let start = spec_spacelike(i)->Done_0;
        let after_type = spec_name(start)->Done_0;
        let open = spec_spacelike(after_type)->Done_0;
        lemma_spacelike_tail(i);
        lemma_name_tail(start);
        lemma_spacelike_tail(after_type);
        lemma_node_body_tail(open);
        lemma_tail_of_tail(rest, open, after_type);
        lemma_tail_of_tail(rest, after_type, start);
        lemma_tail_of_tail(rest, start, i);
        lemma_tail_of_tail(open, after_type, start);
        lemma_tail_of_tail(open, start, i);
        assert(open[open.len() - rest.len() - 1] == i[i.len() - rest.len() - 1]);
    }
}

/// What `spec_root` leaves is a tail, shorter than the text: a root element
/// is never empty. It ends with a line feed or a closing brace.
pub proof fn lemma_root_tail(i: Seq<u8>)
    ensures
        spec_root(i) matches Outcome::Done(rest, element) ==> is_tail(rest, i) && rest.len()
            < i.len() && i[i.len() - rest.len() - 1] == (match element {
            Element::Comment(_) => LINE_FEED,
            Element::Node(_) => CLOSE_BRACE,
        }),
{
    lemma_comment_tail(i);
    lemma_node_parser_tail(i);
}

/// Cutting `p + q` inside `p` cuts `p` and leaves `q` where it was.
pub proof fn lemma_cut_extend(p: Seq<u8>, q: Seq<u8>, n: int)
    requires
        0 <= n <= p.len(),
    ensures
        (p + q).skip(n) == p.skip(n) + q,
        (p + q).take(n) == p.take(n),
{
    assert((p + q).skip(n) =~= p.skip(n) + q);
    assert((p + q).take(n) =~= p.take(n));
}

/// What `answer` says of a text, it says of the text with `q` after it: a
/// mismatch stays a mismatch, and what was recognised stays recognised,
/// with `q` added to the rest.
pub open spec fn extended<T>(answer: Outcome<Seq<u8>, T>, q: Seq<u8>) -> Outcome<Seq<u8>, T> {
    match answer {
        Outcome::Done(rest, value) => Outcome::Done(rest + q, value),
        Outcome::NeedMore => Outcome::NeedMore,
        Outcome::Mismatch => Outcome::Mismatch,
    }
}

/// A decided `spec_byte` stays.
pub proof fn lemma_byte_stable(p: Seq<u8>, q: Seq<u8>, b: u8)
    requires
        !(spec_byte(p, b) is NeedMore),
    ensures
        spec_byte(p + q, b) == extended(spec_byte(p, b), q),
{
    lemma_cut_extend(p, q, 1);
}

/// A decided `spec_run` stays.
pub proof fn lemma_run_stable(p: Seq<u8>, q: Seq<u8>, class: Class)
    requires
        !(spec_run(p, class) is NeedMore),
    ensures
        spec_run(p + q, class) == extended(spec_run(p, class), q),
{
    lemma_run_len_is_run(p, class);
    lemma_run_len_extend(p, q, class);
    lemma_cut_extend(p, q, run_len(p, class));
}

/// A decided `spec_tag` stays.
pub proof fn lemma_tag_stable(p: Seq<u8>, q: Seq<u8>, lit: Seq<u8>)
    requires
        !(spec_tag(p, lit) is NeedMore),
    ensures
        spec_tag(p + q, lit) == extended(spec_tag(p, lit), q),
{
    if lit.is_prefix_of(p) {
        lemma_cut_extend(p, q, lit.len() as int);
        assert((p + q).take(lit.len() as int) =~= lit);
    } else {
        if lit.is_prefix_of(p + q) {
            if p.len() <= lit.len() {
                assert(p =~= lit.take(p.len() as int));
            } else {
                assert(lit =~= p.take(lit.len() as int));
            }
        }
        if (p + q).is_prefix_of(lit) {
            assert(p =~= lit.take(p.len() as int));
        }
    }
}

/// A decided `spec_until` stays.
pub proof fn lemma_until_stable(p: Seq<u8>, q: Seq<u8>, lit: Seq<u8>)
    requires
        !(spec_until(p, lit) is NeedMore),
    ensures
        spec_until(p + q, lit) == extended(spec_until(p, lit), q),
{
    lemma_find(p, lit);
    lemma_find_extend(p, q, lit);
    lemma_cut_extend(p, q, find(p, lit)->0);
}

/// A comment that is decided stays.
pub proof fn lemma_comment_stable(p: Seq<u8>, q: Seq<u8>)
    requires
        !(spec_comment(p) is NeedMore),
    ensures
        spec_comment(p + q) == extended(spec_comment(p), q),
{
    lemma_byte_stable(p, q, HASH);
    if let Outcome::Done(body, _) = spec_byte(p, HASH) {
        lemma_run_stable(body, q, Class::CommentText);
        lemma_run_tail(body, Class::CommentText);
        let after = spec_run(body, Class::CommentText)->Done_0;
        lemma_cut_extend(after, q, 1);
    }
}

/// A spacelike run that leaves something stays.
pub proof fn lemma_spacelike_stable(p: Seq<u8>, q: Seq<u8>)
    requires
        spec_spacelike(p)->Done_0.len() > 0,
    ensures
        spec_spacelike(p + q) == extended(spec_spacelike(p), q),
{
    lemma_run_len_is_run(p, Class::Spacelike);
    lemma_run_len_extend(p, q, Class::Spacelike);
    lemma_cut_extend(p, q, run_len(p, Class::Spacelike));
}

/// A name that is decided stays.
pub proof fn lemma_name_stable(p: Seq<u8>, q: Seq<u8>)
    requires
        !(spec_name(p) is NeedMore),
    ensures
        spec_name(p + q) == extended(spec_name(p), q),
{
    lemma_run_stable(p, q, Class::Name);
}

/// A name field stays where it is a mismatch, and where it is done and
/// leaves something.
pub proof fn lemma_node_name_stable(p: Seq<u8>, q: Seq<u8>)
    requires
        match spec_node_name(p) {
            Outcome::Done(rest, _) => rest.len() > 0,
            Outcome::NeedMore => false,
            Outcome::Mismatch => true,
        },
    ensures
        spec_node_name(p + q) == extended(spec_node_name(p), q),
{
    lemma_tag_stable(p, q, name_tag());
    if let Outcome::Done(after_tag, _) = spec_tag(p, name_tag()) {
        lemma_name_stable(after_tag, q);
        if let Outcome::Done(after_name, _) = spec_name(after_tag) {
            lemma_spacelike_stable(after_name, q);
        }
    }
}

/// A node body that is decided stays.
pub proof fn lemma_node_body_stable(p: Seq<u8>, q: Seq<u8>)
    requires
        !(spec_node_body(p) is NeedMore),
    ensures
        spec_node_body(p + q) == extended(spec_node_body(p), q),
{
    lemma_byte_stable(p, q, OPEN_BRACE);
    if let Outcome::Done(inside, _) = spec_byte(p, OPEN_BRACE) {
        lemma_until_stable(inside, q, name_tag());
        let field = spec_until(inside, name_tag())->Done_0;
        if let Outcome::Done(after_field, _) = spec_node_name(field) {
            lemma_run_tail(after_field, Class::BodyText);
            lemma_node_name_stable(field, q);
            lemma_run_stable(after_field, q, Class::BodyText);
            let closing = spec_run(after_field, Class::BodyText)->Done_0;
            lemma_cut_extend(closing, q, 1);
        } else {
            lemma_node_name_stable(field, q);
        }
    }
}

/// A node that is decided stays.
pub proof fn lemma_node_parser_stable(p: Seq<u8>, q: Seq<u8>)
    requires
        !(spec_node_parser(p) is NeedMore),
    ensures
        spec_node_parser(p + q) == extended(spec_node_parser(p), q),
{
    let start = spec_spacelike(p)->Done_0;
    lemma_spacelike_stable(p, q);
    lemma_name_stable(start, q);
    if let Outcome::Done(after_type, _) = spec_name(start) {
        lemma_name_tail(start);
        let open = spec_spacelike(after_type)->Done_0;
        lemma_spacelike_stable(after_type, q);
        lemma_node_body_stable(open, q);
    }
}

/// A root element that is decided stays: more text never changes what was
/// recognised, nor turns a mismatch into anything else.
pub proof fn lemma_root_stable(p: Seq<u8>, q: Seq<u8>)
    requires
        !(spec_root(p) is NeedMore),
    ensures
        spec_root(p + q) == extended(spec_root(p), q),
{
    lemma_comment_stable(p, q);
    if spec_comment(p) is Mismatch {
        lemma_node_parser_stable(p, q);
    }
}

/// What `spec_name` recognises is a clean name.
pub proof fn lemma_name_clean(i: Seq<u8>)
    ensures
        spec_name(i) matches Outcome::Done(_, value) ==> clean_name(value),
{
    lemma_run_len_is_run(i, Class::Name);
    if let Outcome::Done(_, value) = spec_name(i) {
        assert forall|j: int| 0 <= j < value.len() implies !ends_name(#[trigger] value[j]) by {
            assert(value[j] == i[j]);
            assert(Class::Name.contains(i[j]));
        }
    }
}

/// The type and the name of a node are clean names.
pub proof fn lemma_node_names_clean(i: Seq<u8>)
    ensures
        spec_node_parser(i) matches Outcome::Done(_, (node_type, name)) ==> clean_name(node_type)
            && clean_name(name),
        spec_root(i) matches Outcome::Done(_, Element::Node(node)) ==> clean_name(node.node_type)
            && clean_name(node.name),
{
    if let Outcome::Done(_, _) = spec_node_parser(i) {
        let start = spec_spacelike(i)->Done_0;
        lemma_name_clean(start);
        let open = spec_spacelike(spec_name(start)->Done_0)->Done_0;
        let field = spec_until(spec_byte(open, OPEN_BRACE)->Done_0, name_tag())->Done_0;
        lemma_name_clean(spec_tag(field, name_tag())->Done_0);
    }
}

} // verus!
