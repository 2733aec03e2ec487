//! The streaming cursor: it keeps the text that has come in and has not been
//! recognised yet, and hands out one node at a time.
//!
//! The cursor does no reading. Whoever owns the source calls `next`; when
//! that returns `None` and the cursor is not finished, they read a chunk,
//! hand it to `fill`, and call `next` again. A chunk of no bytes says that
//! the source has ended.

use crate::facts::{is_tail, lemma_root_tail, lemma_tail_of_tail};
use crate::grammar::{root, spec_root, Element, Node, NodeView, Outcome, RootElement};
use crate::scan::{run_len, run_length, Class};
use crate::text::{bytes_of, lemma_encode_concat, lemma_valid_suffix_boundary};
use vstd::prelude::*;
use vstd::string::*;
use vstd::utf8::*;

verus! {

/// Whether a cursor still works, and if not, why it stopped.
#[derive(Clone, Copy, Debug, PartialEq, Eq, Structural)]
pub enum Status {
    /// Nodes may still come.
    Active,
    /// The source ended, and nothing but spacelike text was left.
    Exhausted,
    /// The pending text cannot start a root element, or the source ended in
    /// the middle of one, be it a node or a comment.
    SyntaxError,
    /// A chunk was not valid UTF-8.
    DecodeError,
    /// The owner of the source said that reading failed.
    SourceError,
    /// A chunk would have made the pending text longer than the limit of
    /// the cursor.
    TooLong,
}

/// Why `fill` did not take a chunk in.
#[derive(Clone, Copy, Debug, PartialEq, Eq, Structural)]
pub enum FillError {
    /// The chunk is not valid UTF-8.
    Decode,
    /// With the chunk the pending text would be longer than the limit.
    TooLong,
}

/// What a cursor stands for.
pub struct CursorState {
    /// The text that came in and is not recognised yet, as UTF-8.
    pub pending: Seq<u8>,
    /// Whether the source has ended.
    pub ended: bool,
    pub status: Status,
    /// The number of bytes that the pending text may have at most, if it is
    /// bounded.
    pub limit: Option<usize>,
}

impl CursorState {
    /// The state of a new cursor.
    pub open spec fn initial() -> CursorState {
        CursorState { pending: Seq::empty(), ended: false, status: Status::Active, limit: None }
    }

    /// The pending text is text, that is valid UTF-8, and no longer than
    /// the limit.
    pub open spec fn well_formed(self) -> bool {
        &&& valid_utf8(self.pending)
        &&& self.limit matches Some(limit) ==> self.pending.len() <= limit
    }

    /// With `chunk` the pending text would be longer than the limit.
    pub open spec fn overflows(self, chunk: Seq<u8>) -> bool {
        self.limit matches Some(limit) && self.pending.len() + chunk.len() > limit
    }

    /// Whether `fill` still takes a chunk in.
    pub open spec fn takes_input(self) -> bool {
        self.status == Status::Active && !self.ended
    }
}

/// The status of a cursor whose source ended with `pending` left, none of
/// it a root element: text that is all spacelike is a clean end, anything
/// else is an element that was not finished. A comment whose line feed
/// never came is such an element too.
pub open spec fn status_at_end(pending: Seq<u8>) -> Status {
    if run_len(pending, Class::Spacelike) == pending.len() {
        Status::Exhausted
    } else {
        Status::SyntaxError
    }
}

/// The state after `fill`. A cursor that is finished or whose source has
/// ended ignores the chunk. A chunk of no bytes ends the source. A chunk
/// that would make the pending text longer than the limit stops the cursor.
/// Valid UTF-8 is appended to the pending text; any other chunk stops the
/// cursor.
pub open spec fn fill_spec(s: CursorState, chunk: Seq<u8>) -> CursorState {
    if !s.takes_input() {
        s
    } else if chunk.len() == 0 {
        CursorState { ended: true, ..s }
    } else if s.overflows(chunk) {
        CursorState { status: Status::TooLong, ..s }
    } else if valid_utf8(chunk) {
        CursorState { pending: s.pending + chunk, ..s }
    } else {
        CursorState { status: Status::DecodeError, ..s }
    }
}

/// What `fill` returns: the number of bytes taken in, or the error.
pub open spec fn fill_result(s: CursorState, chunk: Seq<u8>) -> Result<usize, FillError> {
    if !s.takes_input() || chunk.len() == 0 {
        Ok(0usize)
    } else if s.overflows(chunk) {
        Err(FillError::TooLong)
    } else if valid_utf8(chunk) {
        Ok(chunk.len() as usize)
    } else {
        Err(FillError::Decode)
    }
}

/// The state after `source_failed`: a cursor that works stops.
pub open spec fn source_failed_spec(s: CursorState) -> CursorState {
    if s.status == Status::Active {
        CursorState { status: Status::SourceError, ..s }
    } else {
        s
    }
}

/// The state after `next`, and the node that it returns.
///
/// A cursor that has stopped stays as it is. Otherwise the root elements at
/// the start of the pending text are taken off one by one: comments are
/// dropped, the first node is returned. A mismatch stops the cursor. Where
/// the text needs more, the cursor waits, or, if the source has ended, stops
/// with `status_at_end`.
pub open spec fn next_spec(s: CursorState) -> (CursorState, Option<NodeView>)
    decreases s.pending.len(),
{
    if s.status != Status::Active {
        (s, None)
    } else {
        match spec_root(s.pending) {
            Outcome::Done(rest, Element::Node(node)) => (
                CursorState { pending: rest, ..s },
                Some(node),
            ),
            Outcome::Done(rest, Element::Comment(_)) => {
                proof {
                    lemma_root_tail(s.pending);
                }
                next_spec(CursorState { pending: rest, ..s })
            },
            Outcome::Mismatch => (CursorState { status: Status::SyntaxError, ..s }, None),
            Outcome::NeedMore => if s.ended {
                (CursorState { status: status_at_end(s.pending), ..s }, None)
            } else {
                (s, None)
            },
        }
    }
}

/// What `next_spec` keeps, and what its answers tell.
pub proof fn lemma_next_spec(s: CursorState)
    ensures
        ({
            let (after, node) = next_spec(s);
            &&& after.ended == s.ended
            &&& is_tail(after.pending, s.pending)
            &&& s.status != Status::Active ==> after == s && node is None
            &&& node is Some ==> after.status == Status::Active && after.pending.len()
                < s.pending.len()
            &&& node is None && after.status == Status::Active ==> !s.ended && spec_root(
                after.pending,
            ) is NeedMore
        }),
    decreases s.pending.len(),
{
    lemma_root_tail(s.pending);
    assert(s.pending.skip(0) =~= s.pending);
    if s.status == Status::Active {
        if let Outcome::Done(rest, Element::Comment(_)) = spec_root(s.pending) {
            let shorter = CursorState { pending: rest, ..s };
            lemma_next_spec(shorter);
            lemma_tail_of_tail(next_spec(shorter).0.pending, rest, s.pending);
        }
    }
}

/// The nodes of a source that hands out `chunks` one by one and then ends,
/// read through a cursor in state `s`, and the status in which the cursor
/// stops.
///
/// The cursor is asked for nodes as long as it has some; when it waits, it
/// is given the next chunk, or told that the source has ended.
pub open spec fn run(s: CursorState, chunks: Seq<Seq<u8>>) -> (Seq<NodeView>, Status)
    decreases chunks.len(), s.pending.len(),
{
    let (after, node) = next_spec(s);
    match node {
        Some(node) => {
            proof {
                lemma_next_spec(s);
            }
            let (nodes, status) = run(after, chunks);
            (seq![node] + nodes, status)
        },
        None => if after.status != Status::Active {
            (Seq::empty(), after.status)
        } else if chunks.len() > 0 {
            run(fill_spec(after, chunks[0]), chunks.drop_first())
        } else {
            (Seq::empty(), status_at_end(after.pending))
        },
    }
}

/// What a list of chunks stands for.
pub open spec fn chunk_views(chunks: Seq<Vec<u8>>) -> Seq<Seq<u8>> {
    chunks.map_values(|chunk: Vec<u8>| chunk@)
}

/// What a list of nodes stands for.
pub open spec fn node_views(nodes: Seq<Node>) -> Seq<NodeView> {
    nodes.map_values(|node: Node| node@)
}

/// What a node returned by `next` stands for.
pub open spec fn node_view(node: Option<Node>) -> Option<NodeView> {
    match node {
        Some(node) => Some(node@),
        None => None,
    }
}

/// The streaming cursor.
pub struct ArseParser {
    buffer: String,
    start: usize,
    ended: bool,
    status: Status,
    limit: Option<usize>,
}

impl View for ArseParser {
    type V = CursorState;

    closed spec fn view(&self) -> CursorState {
        CursorState {
            pending: bytes_of(&self.buffer).skip(self.start as int),
            ended: self.ended,
            status: self.status,
            limit: self.limit,
        }
    }
}

impl ArseParser {
    #[verifier::type_invariant]
    spec fn well_formed(&self) -> bool {
        &&& self.start <= bytes_of(&self.buffer).len()
        &&& is_char_boundary(bytes_of(&self.buffer), self.start as int)
        &&& self.limit matches Some(limit) ==> bytes_of(&self.buffer).len() - self.start <= limit
    }

    proof fn lemma_view_well_formed(&self)
        requires
            self.well_formed(),
        ensures
            self@.well_formed(),
    {
        encode_utf8_valid_utf8(self.buffer@);
        valid_utf8_split(bytes_of(&self.buffer), self.start as int);
    }

    /// A cursor with no pending text, whose source has not ended.
    pub fn new() -> (r: Self)
        ensures
            r@ == CursorState::initial(),
            r@.well_formed(),
    {
        let buffer = String::new();
        proof {
            assert(bytes_of(&buffer) =~= Seq::<u8>::empty());
            assert(bytes_of(&buffer).skip(0) =~= Seq::<u8>::empty());
        }
        ArseParser { buffer, start: 0, ended: false, status: Status::Active, limit: None }
    }

    /// A cursor like a new one, with room for `capacity` bytes of pending
    /// text where that many can be asked for.
    pub fn with_capacity(capacity: usize) -> (r: Self)
        ensures
            r@ == CursorState::initial(),
            r@.well_formed(),
    {
        let buffer = if capacity <= isize::MAX as usize {
            String::with_capacity(capacity)
        } else {
            String::new()
        };
        proof {
            assert(bytes_of(&buffer) =~= Seq::<u8>::empty());
            assert(bytes_of(&buffer).skip(0) =~= Seq::<u8>::empty());
        }
        ArseParser { buffer, start: 0, ended: false, status: Status::Active, limit: None }
    }

    /// A cursor like a new one, whose pending text may not grow beyond
    /// `limit` bytes: the chunk that would make it longer stops the cursor.
    pub fn with_limit(limit: usize) -> (r: Self)
        ensures
            r@ == (CursorState { limit: Some(limit), ..CursorState::initial() }),
            r@.well_formed(),
    {
        let buffer = String::new();
        proof {
            assert(bytes_of(&buffer) =~= Seq::<u8>::empty());
            assert(bytes_of(&buffer).skip(0) =~= Seq::<u8>::empty());
        }
        ArseParser { buffer, start: 0, ended: false, status: Status::Active, limit: Some(limit) }
    }

    /// Whether the cursor works or why it stopped.
    pub fn status(&self) -> (r: Status)
        ensures
            r == self@.status,
    {
        self.status
    }

    /// Whether the cursor has stopped for good.
    pub fn is_finished(&self) -> (r: bool)
        ensures
            r == (self@.status != Status::Active),
    {
        self.status != Status::Active
    }

    /// Takes in the next chunk of the source; a chunk of no bytes says that
    /// the source has ended.
    pub fn fill(&mut self, chunk: &[u8]) -> (r: Result<usize, FillError>)
        ensures
            final(self)@ == fill_spec(old(self)@, chunk@),
            r == fill_result(old(self)@, chunk@),
            final(self)@.well_formed(),
    {
        proof {
            use_type_invariant(&*self);
            self.lemma_view_well_formed();
        }
        if self.status != Status::Active || self.ended {
            return Ok(0);
        }
        if chunk.len() == 0 {
            self.ended = true;
            return Ok(0);
        }
        let limit = self.limit;
        if let Some(limit) = limit {
            let held = self.buffer.as_str().as_bytes().len() - self.start;
            if chunk.len() > limit || held > limit - chunk.len() {
                self.status = Status::TooLong;
                return Err(FillError::TooLong);
            }
        }
        match core::str::from_utf8(chunk) {
            Err(_) => {
                self.status = Status::DecodeError;
                Err(FillError::Decode)
            },
            Ok(text) => {
                // What was recognised is dropped from the buffer here, so
                // that `next` only has to move `start`.
                let mut buffer = if self.start > 0 {
                    self.buffer.as_str().split_at(self.start).1.to_owned()
                } else {
                    let mut whole = String::new();
                    proof {
                        assert(bytes_of(&whole) =~= Seq::<u8>::empty());
                    }
                    core::mem::swap(&mut self.buffer, &mut whole);
                    whole
                };
                let ghost kept = buffer@;
                proof {
                    assert(encode_utf8(kept) =~= old(self)@.pending);
                    lemma_encode_concat(kept, text@);
                    encode_utf8_valid_utf8(kept + text@);
                    is_char_boundary_start_end_of_seq(encode_utf8(kept + text@));
                    assert(encode_utf8(kept + text@).skip(0) =~= encode_utf8(kept + text@));
                }
                buffer.append(text);
                *self =
                ArseParser { buffer, start: 0, ended: false, status: Status::Active, limit };
                Ok(chunk.len())
            },
        }
    }

    /// Stops a cursor that works, because its source could not be read.
    pub fn source_failed(&mut self)
        ensures
            final(self)@ == source_failed_spec(old(self)@),
            final(self)@.well_formed(),
    {
        proof {
            use_type_invariant(&*self);
            self.lemma_view_well_formed();
        }
        if self.status == Status::Active {
            self.status = Status::SourceError;
        }
    }

    /// The next node of the pending text, if it holds one.
    ///
    /// After `None` the cursor either has stopped (`is_finished`) or waits
    /// for `fill`.
    pub fn next(&mut self) -> (r: Option<Node>)
        ensures
            (final(self)@, node_view(r)) == next_spec(old(self)@),
            r matches Some(node) ==> node.well_formed(),
            final(self)@.well_formed(),
    {
        proof {
            use_type_invariant(&*self);
            self.lemma_view_well_formed();
        }
        if self.status != Status::Active {
            return None;
        }
        loop
            invariant
                self.well_formed(),
                self.status == Status::Active,
                self@.well_formed(),
                next_spec(self@) == next_spec(old(self)@),
            decreases self@.pending.len(),
        {
            let total = self.buffer.as_str().as_bytes().len();
            let pending = self.buffer.as_str().split_at(self.start).1;
            proof {
                lemma_root_tail(pending.spec_bytes());
                encode_utf8_valid_utf8(self.buffer@);
            }
            match root(pending) {
                Outcome::Done(rest, element) => {
                    let left = rest.as_bytes().len();
                    proof {
                        encode_utf8_valid_utf8(rest@);
                        assert(rest.spec_bytes() =~= bytes_of(&self.buffer).skip(total - left));
                        lemma_valid_suffix_boundary(bytes_of(&self.buffer), total - left);
                    }
                    self.start = total - left;
                    match element {
                        RootElement::Node(node) => {
                            return Some(node);
                        },
                        RootElement::Comment(_) => {},
                    }
                },
                Outcome::Mismatch => {
                    self.status = Status::SyntaxError;
                    return None;
                },
                Outcome::NeedMore => {
                    if self.ended {
                        let spaces = run_length(pending.as_bytes(), Class::Spacelike);
                        self.status = if spaces == pending.as_bytes().len() {
                            Status::Exhausted
                        } else {
                            Status::SyntaxError
                        };
                    }
                    return None;
                },
            }
        }
    }
}

/// Reads a source that hands out `chunks` one by one and then ends: the
/// nodes in the order in which they come, and the status in which the
/// cursor stopped.
pub fn parse_chunks(chunks: &Vec<Vec<u8>>) -> (r: (Vec<Node>, Status))
    ensures
        (node_views(r.0@), r.1) == run(CursorState::initial(), chunk_views(chunks@)),
        forall|j: int| 0 <= j < r.0@.len() ==> (#[trigger] r.0@[j]).well_formed(),
{
    let ghost all = chunk_views(chunks@);
    let ghost goal = run(CursorState::initial(), all);
    let mut parser = ArseParser::new();
    let mut nodes: Vec<Node> = Vec::new();
    let mut k: usize = 0;
    proof {
        assert(all.skip(0) =~= all);
        assert(node_views(nodes@) =~= Seq::<NodeView>::empty());
        assert(node_views(nodes@) + goal.0 =~= goal.0);
    }
    loop
        invariant
            k <= chunks@.len(),
            all == chunk_views(chunks@),
            goal == run(CursorState::initial(), all),
            forall|j: int| 0 <= j < nodes@.len() ==> (#[trigger] nodes@[j]).well_formed(),
            node_views(nodes@) + run(parser@, all.skip(k as int)).0 == goal.0,
            run(parser@, all.skip(k as int)).1 == goal.1,
        decreases chunks@.len() - k, parser@.pending.len(),
    {
        let ghost before = parser@;
        let ghost found = node_views(nodes@);
        proof {
            lemma_next_spec(before);
        }
        match parser.next() {
            Some(node) => {
                nodes.push(node);
                proof {
                    let rest = run(parser@, all.skip(k as int)).0;
                    assert(node_views(nodes@) =~= found + seq![node@]);
                    assert((found + seq![node@]) + rest =~= found + (seq![node@] + rest));
                }
            },
            None => {
                if parser.is_finished() {
                    proof {
                        assert(found + Seq::<NodeView>::empty() =~= found);
                    }
                    return (nodes, parser.status());
                }
                if k < chunks.len() {
                    proof {
                        assert(all.skip(k as int)[0] == chunks@[k as int]@);
                        assert(all.skip(k as int).drop_first() =~= all.skip(k + 1));
                    }
                    let _ = parser.fill(chunks[k].as_slice());
                    k += 1;
                } else {
                    let end: [u8; 0] = [];
                    let _ = parser.fill(end.as_slice());
                    let _ = parser.next();
                    proof {
                        assert(found + Seq::<NodeView>::empty() =~= found);
                    }
                    return (nodes, parser.status());
                }
            },
        }
    }
}

} // verus!
