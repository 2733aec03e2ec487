//! Scanning primitives: the longest run of bytes of one class, and the
//! first occurrence of a literal.
//!
//! Every marker of the grammar is an ASCII byte, so the primitives work on
//! the UTF-8 encoding of the text directly.

use vstd::prelude::*;

verus! {

pub const TAB: u8 = 0x09;

pub const LINE_FEED: u8 = 0x0a;

pub const CARRIAGE_RETURN: u8 = 0x0d;

pub const SPACE: u8 = 0x20;

pub const HASH: u8 = 0x23;

pub const OPEN_PAREN: u8 = 0x28;

pub const CLOSE_PAREN: u8 = 0x29;

pub const OPEN_BRACKET: u8 = 0x5b;

pub const CLOSE_BRACKET: u8 = 0x5d;

pub const OPEN_BRACE: u8 = 0x7b;

pub const CLOSE_BRACE: u8 = 0x7d;

/// Space, tab, carriage return or line feed.
pub open spec fn is_spacelike(b: u8) -> bool {
    b == SPACE || b == TAB || b == CARRIAGE_RETURN || b == LINE_FEED
}

/// A byte that ends a name: anything spacelike, a brace, a bracket or a
/// parenthesis.
pub open spec fn ends_name(b: u8) -> bool {
    is_spacelike(b) || b == OPEN_BRACE || b == CLOSE_BRACE || b == OPEN_BRACKET || b
        == CLOSE_BRACKET || b == OPEN_PAREN || b == CLOSE_PAREN
}

/// The classes of bytes that the grammar takes in runs.
#[derive(Clone, Copy, Debug)]
pub enum Class {
    /// Space, tab, carriage return, line feed.
    Spacelike,
    /// Any byte that does not end a name.
    Name,
    /// Any byte but a line feed.
    CommentText,
    /// Any byte but a closing brace.
    BodyText,
}

impl Class {
    /// Whether `b` belongs to the class.
    pub open spec fn contains(self, b: u8) -> bool {
        match self {
            Class::Spacelike => is_spacelike(b),
            Class::Name => !ends_name(b),
            Class::CommentText => b != LINE_FEED,
            Class::BodyText => b != CLOSE_BRACE,
        }
    }

    /// Tests whether `b` belongs to the class.
    pub fn has(self, b: u8) -> (r: bool)
        ensures
            r == self.contains(b),
    {
        match self {
            Class::Spacelike => b == SPACE || b == TAB || b == CARRIAGE_RETURN || b == LINE_FEED,
            Class::Name => !(b == SPACE || b == TAB || b == CARRIAGE_RETURN || b == LINE_FEED || b
                == OPEN_BRACE || b == CLOSE_BRACE || b == OPEN_BRACKET || b == CLOSE_BRACKET || b
                == OPEN_PAREN || b == CLOSE_PAREN),
            Class::CommentText => b != LINE_FEED,
            Class::BodyText => b != CLOSE_BRACE,
        }
    }
}

/// The length of the longest prefix of `s` whose bytes all belong to `class`.
pub open spec fn run_len(s: Seq<u8>, class: Class) -> int
    decreases s.len(),
{
    if s.len() > 0 && class.contains(s[0]) {
        1 + run_len(s.drop_first(), class)
    } else {
        0
    }
}

/// `n` bytes of `class` start `s`, and the run ends there: with the end of
/// `s` or with a byte outside the class.
pub open spec fn is_run(s: Seq<u8>, class: Class, n: int) -> bool {
    &&& 0 <= n <= s.len()
    &&& forall|j: int| 0 <= j < n ==> class.contains(#[trigger] s[j])
    &&& n < s.len() ==> !class.contains(s[n])
}

/// `run_len` is a run.
pub proof fn lemma_run_len_is_run(s: Seq<u8>, class: Class)
    ensures
        is_run(s, class, run_len(s, class)),
    decreases s.len(),
{
    if s.len() > 0 && class.contains(s[0]) {
        let t = s.drop_first();
        lemma_run_len_is_run(t, class);
        let n = run_len(s, class);
        assert forall|j: int| 0 <= j < n implies class.contains(#[trigger] s[j]) by {
            if j > 0 {
                assert(s[j] == t[j - 1]);
            }
        }
        if n < s.len() {
            assert(s[n] == t[n - 1]);
        }
    }
}

/// There is only one run: whatever satisfies `is_run` is `run_len`.
pub proof fn lemma_run_unique(s: Seq<u8>, class: Class, n: int)
    requires
        is_run(s, class, n),
    ensures
        run_len(s, class) == n,
    decreases s.len(),
{
    if n > 0 {
        let t = s.drop_first();
        assert(class.contains(s[0]));
        assert forall|j: int| 0 <= j < n - 1 implies class.contains(#[trigger] t[j]) by {
            assert(t[j] == s[j + 1]);
        }
        if n - 1 < t.len() {
            assert(t[n - 1] == s[n]);
        }
        lemma_run_unique(t, class, n - 1);
    }
}

/// A run that ends before the end of `s` is not changed by what follows `s`.
pub proof fn lemma_run_len_extend(s: Seq<u8>, more: Seq<u8>, class: Class)
    requires
        run_len(s, class) < s.len(),
    ensures
        run_len(s + more, class) == run_len(s, class),
{
    lemma_run_len_is_run(s, class);
    let n = run_len(s, class);
    let t = s + more;
    assert forall|j: int| 0 <= j < n implies class.contains(#[trigger] t[j]) by {
        assert(t[j] == s[j]);
    }
    assert(t[n] == s[n]);
    lemma_run_unique(t, class, n);
}

/// Counts the bytes of `class` that start `bytes`.
pub fn run_length(bytes: &[u8], class: Class) -> (n: usize)
    ensures
        n == run_len(bytes@, class),
{
    let mut i: usize = 0;
    while i < bytes.len() && class.has(bytes[i])
        invariant
            i <= bytes@.len(),
            forall|j: int| 0 <= j < i ==> class.contains(#[trigger] bytes@[j]),
        decreases bytes@.len() - i,
    {
        i += 1;
    }
    proof {
        lemma_run_unique(bytes@, class, i as int);
    }
    i
}

/// `lit` stands in `s` at index `i`.
pub open spec fn occurs_at(s: Seq<u8>, lit: Seq<u8>, i: int) -> bool {
    &&& 0 <= i
    &&& i + lit.len() <= s.len()
    &&& s.subrange(i, i + lit.len()) == lit
}

/// `k` is the index of the first occurrence of `lit` in `s`.
pub open spec fn is_first_occurrence(s: Seq<u8>, lit: Seq<u8>, k: int) -> bool {
    &&& occurs_at(s, lit, k)
    &&& forall|j: int| 0 <= j < k ==> !occurs_at(s, lit, j)
}

/// `lit` occurs nowhere in `s`.
pub open spec fn never_occurs(s: Seq<u8>, lit: Seq<u8>) -> bool {
    forall|j: int| !occurs_at(s, lit, j)
}

/// The index of the first occurrence of `lit` in `s` at or after `from`.
pub open spec fn find_from(s: Seq<u8>, lit: Seq<u8>, from: int) -> Option<int>
    decreases s.len() - from + 1,
{
    if from < 0 || from + lit.len() > s.len() {
        None
    } else if occurs_at(s, lit, from) {
        Some(from)
    } else {
        find_from(s, lit, from + 1)
    }
}

/// The index of the first occurrence of `lit` in `s`.
pub open spec fn find(s: Seq<u8>, lit: Seq<u8>) -> Option<int> {
    find_from(s, lit, 0)
}

proof fn lemma_find_from(s: Seq<u8>, lit: Seq<u8>, from: int)
    requires
        0 <= from,
    ensures
        match find_from(s, lit, from) {
            Some(k) => from <= k && occurs_at(s, lit, k) && forall|j: int|
                from <= j < k ==> !occurs_at(s, lit, j),
            None => forall|j: int| from <= j ==> !occurs_at(s, lit, j),
        },
    decreases s.len() - from + 1,
{
    if from + lit.len() <= s.len() && !occurs_at(s, lit, from) {
        lemma_find_from(s, lit, from + 1);
    }
}

/// What `find` returns: the first occurrence, or `None` where there is none.
pub proof fn lemma_find(s: Seq<u8>, lit: Seq<u8>)
    ensures
        match find(s, lit) {
            Some(k) => is_first_occurrence(s, lit, k),
            None => never_occurs(s, lit),
        },
{
    lemma_find_from(s, lit, 0);
}

/// There is only one first occurrence.
pub proof fn lemma_first_occurrence_unique(s: Seq<u8>, lit: Seq<u8>, k: int)
    requires
        is_first_occurrence(s, lit, k),
    ensures
        find(s, lit) == Some(k),
{
    lemma_find_from(s, lit, 0);
}

/// An occurrence inside `s` is an occurrence in `s + more`, and the other
/// way round.
pub proof fn lemma_occurs_at_extend(s: Seq<u8>, more: Seq<u8>, lit: Seq<u8>, i: int)
    requires
        0 <= i,
        i + lit.len() <= s.len(),
    ensures
        occurs_at(s + more, lit, i) == occurs_at(s, lit, i),
{
    assert((s + more).subrange(i, i + lit.len()) =~= s.subrange(i, i + lit.len()));
}

/// The first occurrence in `s` stays the first when more text follows.
pub proof fn lemma_find_extend(s: Seq<u8>, more: Seq<u8>, lit: Seq<u8>)
    requires
        find(s, lit) is Some,
    ensures
        find(s + more, lit) == find(s, lit),
{
    lemma_find(s, lit);
    let k = find(s, lit)->0;
    assert forall|j: int| 0 <= j <= k implies #[trigger] occurs_at(s + more, lit, j)
        == occurs_at(s, lit, j) by {
        lemma_occurs_at_extend(s, more, lit, j);
    }
    lemma_first_occurrence_unique(s + more, lit, k);
}

/// Counts the leading bytes that `a` and `b` share.
pub fn common_prefix(a: &[u8], b: &[u8]) -> (n: usize)
    ensures
        n <= a@.len(),
        n <= b@.len(),
        a@.take(n as int) == b@.take(n as int),
        n < a@.len() && n < b@.len() ==> a@[n as int] != b@[n as int],
{
    let mut n: usize = 0;
    while n < a.len() && n < b.len() && a[n] == b[n]
        invariant
            n <= a@.len(),
            n <= b@.len(),
            forall|j: int| 0 <= j < n ==> a@[j] == b@[j],
        decreases a@.len() - n,
    {
        n += 1;
    }
    assert(a@.take(n as int) =~= b@.take(n as int));
    n
}

/// Tests whether `lit` stands in `hay` at index `at`.
pub fn occurs_here(hay: &[u8], lit: &[u8], at: usize) -> (r: bool)
    ensures
        r == occurs_at(hay@, lit@, at as int),
{
    if lit.len() > hay.len() || at > hay.len() - lit.len() {
        return false;
    }
    let mut j: usize = 0;
    while j < lit.len()
        invariant
            j <= lit@.len(),
            at + lit@.len() <= hay@.len() <= usize::MAX,
            forall|m: int| 0 <= m < j ==> hay@[at + m] == lit@[m],
        decreases lit@.len() - j,
    {
        if hay[at + j] != lit[j] {
            proof {
                let sub = hay@.subrange(at as int, at + lit@.len());
                assert(sub[j as int] == hay@[at + j]);
            }
            return false;
        }
        j += 1;
    }
    assert(hay@.subrange(at as int, at + lit@.len()) =~= lit@);
    true
}

/// Searches `hay` for the first occurrence of `lit`.
pub fn find_literal(hay: &[u8], lit: &[u8]) -> (r: Option<usize>)
    ensures
        match r {
            Some(k) => find(hay@, lit@) == Some(k as int),
            None => find(hay@, lit@) is None,
        },
{
    if lit.len() > hay.len() {
        proof {
            lemma_find(hay@, lit@);
        }
        return None;
    }
    let last: usize = hay.len() - lit.len();
    let mut i: usize = 0;
    loop
        invariant
            i <= last,
            last + lit@.len() == hay@.len(),
            forall|j: int| 0 <= j < i ==> !occurs_at(hay@, lit@, j),
        decreases last - i,
    {
        if occurs_here(hay, lit, i) {
            proof {
                lemma_first_occurrence_unique(hay@, lit@, i as int);
            }
            return Some(i);
        }
        if i == last {
            proof {
                lemma_find(hay@, lit@);
            }
            return None;
        }
        i += 1;
    }
}

} // verus!
