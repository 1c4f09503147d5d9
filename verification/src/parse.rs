//! A cursor over the bytes of a request path that hands out its segments
//! without copying them.

use vstd::prelude::*;
use vstd::string::{StringExecFns, StringSliceAdditionalSpecFns};
use crate::scan::{hits, stop_index, lemma_stop_index, lemma_stop_index_after, lemma_stop_index_take,
    lemma_stop_index_unique, position_of, search_any_of, vector_width};

verus! {

/// The segment separator, `/`.
pub const SLASH: u8 = 47;

/// The byte that ends a path, a space.
pub const SPACE: u8 = 32;

/// Carriage return, which also ends an identifier.
pub const CR: u8 = 13;

/// Number of leading bytes that are always scanned one by one.
pub const SCALAR_HEAD: usize = 32;

/// Why a parser handed out nothing.
#[derive(Debug)]
pub enum ParseError<'src> {
    /// The input does not start with what was expected.
    Expected { expected: &'static str, found: &'src [u8] },
    /// The input ended before anything that ends a run of bytes.
    EndOfInput,
    /// The path yields no further segment. This is how a path ends, and no
    /// failure.
    Complete,
}

/// The text that `{:?}` makes of a slice of bytes.
pub uninterp spec fn debug_text(bytes: Seq<u8>) -> Seq<char>;

/// `format!` with `{:?}` on a slice of bytes: the bytes as text, which is
/// the same for the same bytes.
#[verifier::external_body]
fn bytes_as_text(bytes: &[u8]) -> (text: String)
    ensures
        text@ == debug_text(bytes@),
{
    format!("{bytes:?}")
}

impl<'src> ParseError<'src> {
    /// The failure as text, for a log or a message.
    pub fn text(&self) -> (text: String)
        ensures
            text@ == match *self {
                ParseError::Expected { expected, found } => "ParseError { expected: "@
                    + expected@ + ", found: "@ + debug_text(found@) + " }"@,
                ParseError::EndOfInput => "ParseError {{ EndOfInput }}"@,
                ParseError::Complete => "ParseError {{ Complete }}"@,
            },
    {
        match self {
            ParseError::Expected { expected, found } => {
                let list = bytes_as_text(found);
                let text = "ParseError { expected: ".to_owned();
                let text = text.concat(expected);
                let text = text.concat(", found: ");
                let text = text.concat(list.as_str());
                text.concat(" }")
            },
            ParseError::EndOfInput => "ParseError {{ EndOfInput }}".to_owned(),
            ParseError::Complete => "ParseError {{ Complete }}".to_owned(),
        }
    }
}

/// The path is over at `rest`: nothing is left, or a space comes next.
pub open spec fn at_terminal(rest: Seq<u8>) -> bool {
    rest.len() == 0 || rest[0] == SPACE
}

/// Where a segment ends: at the first `byte` or space.
pub open spec fn segment_end(raw: Seq<u8>, byte: u8) -> int {
    stop_index(raw, byte, SPACE, SPACE)
}

/// Where an identifier ends: at the first space, carriage return or slash.
pub open spec fn ident_end(raw: Seq<u8>) -> int {
    stop_index(raw, SPACE, CR, SLASH)
}

/// Scans `raw[..]` for the first of `x`, `y`, `z`: the first `SCALAR_HEAD`
/// bytes one by one, what follows with the vector search when at least one
/// register's worth follows them, else one by one as well.
fn scan_stop(raw: &[u8], x: u8, y: u8, z: u8) -> (r: Option<usize>)
    ensures
        match r {
            Some(i) => i < raw@.len() && i == stop_index(raw@, x, y, z),
            None => stop_index(raw@, x, y, z) == raw@.len(),
        },
{
    let head = if raw.len() < SCALAR_HEAD { raw.len() } else { SCALAR_HEAD };
    proof {
        assert(raw@.subrange(0, head as int) == raw@.take(head as int));
        lemma_stop_index_take(raw@, head as int, x, y, z);
        lemma_stop_index(raw@.take(head as int), x, y, z);
    }
    match position_of(raw, 0, head, x, y, z) {
        Some(pos) => Some(pos),
        None => {
            if raw.len() == head {
                proof {
                    assert(raw@.take(head as int) == raw@);
                }
                return None;
            }
            proof {
                assert forall|j: int| 0 <= j < head implies !hits(#[trigger] raw@[j], x, y, z) by {
                    assert(raw@[j] == raw@.take(head as int)[j]);
                }
                lemma_stop_index_after(raw@, head as int, x, y, z);
                assert(raw@.subrange(head as int, raw@.len() as int) == raw@.skip(head as int));
            }
            let found = if raw.len() - head >= vector_width() {
                match search_any_of(&raw[head..raw.len()], x, y, z) {
                    Some(pos) => Some(head + pos),
                    None => None,
                }
            } else {
                position_of(raw, head, raw.len(), x, y, z)
            };
            found
        },
    }
}

/// Takes the bytes before the first `byte` or space. The remainder starts at
/// that byte. A run without either is unterminated: `EndOfInput`.
pub fn take_until<'src>(raw: &'src [u8], byte: u8) -> (r: Result<
    (&'src [u8], &'src [u8]),
    ParseError<'src>,
>)
    ensures
        match r {
            Ok((rem, seg)) => {
                &&& segment_end(raw@, byte) < raw@.len()
                &&& seg@ == raw@.take(segment_end(raw@, byte))
                &&& rem@ == raw@.skip(segment_end(raw@, byte))
            },
            Err(e) => e is EndOfInput && segment_end(raw@, byte) == raw@.len(),
        },
{
    match scan_stop(raw, byte, SPACE, SPACE) {
        Some(pos) => {
            proof {
                assert(raw@.subrange(0, pos as int) == raw@.take(pos as int));
                assert(raw@.subrange(pos as int, raw@.len() as int) == raw@.skip(pos as int));
            }
            Ok((&raw[pos..raw.len()], &raw[0..pos]))
        },
        None => Err(ParseError::EndOfInput),
    }
}

/// 1 when `raw` starts with a slash, else 0.
pub open spec fn lead_of(raw: Seq<u8>) -> int {
    if raw.len() > 0 && raw[0] == SLASH {
        1
    } else {
        0
    }
}

/// Skips one leading slash, then takes a segment up to the next slash or
/// space.
pub fn take_path_seg<'src>(raw: &'src [u8]) -> (r: Result<
    (&'src [u8], &'src [u8]),
    ParseError<'src>,
>)
    ensures
        match r {
            Ok((rem, seg)) => {
                let body = raw@.skip(lead_of(raw@));
                &&& segment_end(body, SLASH) < body.len()
                &&& seg@ == body.take(segment_end(body, SLASH))
                &&& rem@ == body.skip(segment_end(body, SLASH))
            },
            Err(e) => e is EndOfInput && segment_end(raw@.skip(lead_of(raw@)), SLASH)
                == raw@.len() - lead_of(raw@),
        },
{
    if raw.len() > 0 && raw[0] == SLASH {
        proof {
            assert(raw@.subrange(1, raw@.len() as int) == raw@.skip(1));
        }
        take_until(&raw[1..raw.len()], SLASH)
    } else {
        proof {
            assert(raw@.skip(0) == raw@);
        }
        take_until(raw, SLASH)
    }
}

/// Takes a non-empty identifier: the bytes before the first space, carriage
/// return or slash. The remainder starts at that byte.
pub fn take_ident<'src>(raw: &'src [u8]) -> (r: Result<
    (&'src [u8], &'src [u8]),
    ParseError<'src>,
>)
    ensures
        match r {
            Ok((rem, seg)) => {
                &&& 0 < ident_end(raw@) < raw@.len()
                &&& seg@ == raw@.take(ident_end(raw@))
                &&& rem@ == raw@.skip(ident_end(raw@))
            },
            Err(ParseError::Expected { expected, found }) => {
                &&& raw@.len() > 0
                &&& ident_end(raw@) == 0
                &&& found@ == raw@
                &&& expected@ == "ident"@
            },
            Err(ParseError::EndOfInput) => ident_end(raw@) == raw@.len(),
            Err(ParseError::Complete) => false,
        },
{
    match scan_stop(raw, SPACE, CR, SLASH) {
        Some(pos) => {
            if pos == 0 {
                Err(ParseError::Expected { expected: "ident", found: raw })
            } else {
                proof {
                    assert(raw@.subrange(0, pos as int) == raw@.take(pos as int));
                    assert(raw@.subrange(pos as int, raw@.len() as int) == raw@.skip(pos as int));
                }
                Ok((&raw[pos..raw.len()], &raw[0..pos]))
            }
        },
        None => Err(ParseError::EndOfInput),
    }
}

/// The next segment of a path whose unread bytes are `rest`, as the pair of
/// offsets into `rest` where it starts and ends; `None` when the path yields
/// no further segment. A segment starts behind at most one slash and ends
/// before the next slash or space. Where neither follows, a segment is only
/// found in a path without a slash, ending before a carriage return.
pub open spec fn next_segment(rest: Seq<u8>) -> Option<(int, int)> {
    if at_terminal(rest) {
        None
    } else {
        let lead = lead_of(rest);
        let body = rest.skip(lead);
        if segment_end(body, SLASH) < body.len() {
            Some((lead, lead + segment_end(body, SLASH)))
        } else if 0 < ident_end(rest) < rest.len() {
            Some((0, ident_end(rest)))
        } else {
            None
        }
    }
}

/// `next_segment` stays within `rest`, moves forward, and the segment it
/// finds holds neither slash nor space.
pub proof fn lemma_next_segment(rest: Seq<u8>)
    ensures
        match next_segment(rest) {
            Some((s, e)) => {
                &&& 0 <= s <= e <= rest.len()
                &&& s <= 1
                &&& 0 < e
                &&& s == lead_of(rest)
                &&& forall|j: int| s <= j < e ==> rest[j] != SLASH && rest[j] != SPACE
            },
            None => true,
        },
{
    if !at_terminal(rest) {
        let lead = lead_of(rest);
        let body = rest.skip(lead);
        lemma_stop_index(body, SLASH, SPACE, SPACE);
        lemma_stop_index(rest, SPACE, CR, SLASH);
        if segment_end(body, SLASH) < body.len() {
            let e = lead + segment_end(body, SLASH);
            assert forall|j: int| lead <= j < e implies rest[j] != SLASH && rest[j] != SPACE by {
                assert(rest[j] == body[j - lead]);
                assert(!hits(body[j - lead], SLASH, SPACE, SPACE));
            }
            if lead == 0 {
                assert(body[0] == rest[0]);
                assert(!hits(body[0], SLASH, SPACE, SPACE));
            }
        } else if 0 < ident_end(rest) < rest.len() {
            assert(rest[0] != SLASH) by {
                if rest[0] == SLASH {
                    lemma_stop_index_unique(rest, 0, SPACE, CR, SLASH);
                }
            }
            assert forall|j: int| 0 <= j < ident_end(rest) implies rest[j] != SLASH && rest[j]
                != SPACE by {
                assert(!hits(rest[j], SPACE, CR, SLASH));
            }
        }
    }
}

/// Length of the longest common prefix of `a` and `b`.
pub open spec fn common_len(a: Seq<u8>, b: Seq<u8>) -> int
    decreases a.len(),
{
    if a.len() == 0 || b.len() == 0 || a[0] != b[0] {
        0
    } else {
        1 + common_len(a.skip(1), b.skip(1))
    }
}

/// `common_len` counts exactly the leading positions at which both agree.
pub proof fn lemma_common_len(a: Seq<u8>, b: Seq<u8>)
    ensures
        0 <= common_len(a, b) <= a.len(),
        common_len(a, b) <= b.len(),
        forall|j: int| 0 <= j < common_len(a, b) ==> a[j] == b[j],
        common_len(a, b) < a.len() && common_len(a, b) < b.len() ==> a[common_len(a, b)]
            != b[common_len(a, b)],
    decreases a.len(),
{
    if a.len() == 0 || b.len() == 0 || a[0] != b[0] {
    } else {
        let (x, y) = (a.skip(1), b.skip(1));
        lemma_common_len(x, y);
        let n = common_len(x, y);
        assert forall|j: int| 0 <= j < n + 1 implies a[j] == b[j] by {
            if j > 0 {
                assert(a[j] == x[j - 1] && b[j] == y[j - 1]);
            }
        }
        if n < x.len() && n < y.len() {
            assert(a[n + 1] == x[n] && b[n + 1] == y[n]);
        }
    }
}

/// Any count that meets what `lemma_common_len` states is `common_len`.
pub proof fn lemma_common_len_unique(a: Seq<u8>, b: Seq<u8>, n: int)
    requires
        0 <= n <= a.len(),
        n <= b.len(),
        forall|j: int| 0 <= j < n ==> a[j] == b[j],
        n < a.len() && n < b.len() ==> a[n] != b[n],
    ensures
        common_len(a, b) == n,
    decreases a.len(),
{
    if a.len() == 0 || b.len() == 0 || a[0] != b[0] {
    } else {
        let (x, y) = (a.skip(1), b.skip(1));
        assert forall|j: int| 0 <= j < n - 1 implies x[j] == y[j] by {
            assert(a[j + 1] == x[j] && b[j + 1] == y[j]);
        }
        if n - 1 < x.len() && n - 1 < y.len() {
            assert(a[n] == x[n - 1] && b[n] == y[n - 1]);
        }
        lemma_common_len_unique(x, y, n - 1);
    }
}

/// What matching the candidate `other` against the path at `rest` comes to,
/// as the pair of the number of candidate bytes matched and the number of
/// path bytes passed over. Segments are taken one after another and compared
/// with what is left of the candidate, byte for byte. The match stops at the
/// first byte that differs, at an empty segment, at the end of the path and
/// at the end of the candidate. A slash in front of a segment is passed over
/// only when a byte of that segment matched.
pub open spec fn match_run(rest: Seq<u8>, other: Seq<u8>) -> (int, int)
    decreases other.len(),
{
    if other.len() == 0 {
        (0, 0)
    } else {
        match next_segment(rest) {
            None => (0, 0),
            Some((s, e)) => {
                let n = common_len(rest.subrange(s, e), other);
                if n <= 0 {
                    (0, 0)
                } else if n < e - s || n >= other.len() {
                    (n, s + n)
                } else {
                    let t = match_run(rest.skip(s + n), other.skip(n));
                    (n + t.0, s + n + t.1)
                }
            },
        }
    }
}

/// A match never takes more than the candidate or the path hold.
pub proof fn lemma_match_run(rest: Seq<u8>, other: Seq<u8>)
    ensures
        0 <= match_run(rest, other).0 <= other.len(),
        0 <= match_run(rest, other).1 <= rest.len(),
        match_run(rest, other).0 <= match_run(rest, other).1,
        match_run(rest, other).1 > 0 ==> match_run(rest, other).0 > 0,
    decreases other.len(),
{
    if other.len() > 0 {
        lemma_next_segment(rest);
        match next_segment(rest) {
            None => {},
            Some((s, e)) => {
                lemma_common_len(rest.subrange(s, e), other);
                let n = common_len(rest.subrange(s, e), other);
                if n <= 0 {
                } else if n < e - s || n >= other.len() {
                } else {
                    lemma_match_run(rest.skip(s + n), other.skip(n));
                }
            },
        }
    }
}

/// Number of leading bytes on which `a` and `b` agree.
pub fn common_prefix(a: &[u8], b: &[u8]) -> (n: usize)
    ensures
        n == common_len(a@, b@),
{
    let mut i: usize = 0;
    while i < a.len() && i < b.len() && a[i] == b[i]
        invariant
            i <= a@.len(),
            i <= b@.len(),
            forall|j: int| 0 <= j < i ==> a@[j] == b@[j],
        decreases a@.len() - i,
    {
        i = i + 1;
    }
    proof {
        lemma_common_len_unique(a@, b@, i as int);
    }
    i
}

/// A cursor over the bytes of a request path. It borrows the bytes, hands out
/// segments as sub-slices of them, and only ever moves forward.
#[derive(Clone, Copy)]
pub struct PathIter<'src> {
    complete: bool,
    src: &'src [u8],
    pos: usize,
}

impl<'src> PathIter<'src> {
    /// The cursor lies within its bytes.
    #[verifier::type_invariant]
    pub open spec fn wf(self) -> bool {
        0 <= self.consumed() <= self.source().len()
    }

    /// All the bytes the cursor was made over.
    pub closed spec fn source(self) -> Seq<u8> {
        self.src@
    }

    /// Number of bytes the cursor has passed.
    pub closed spec fn consumed(self) -> int {
        self.pos as int
    }

    /// Whether the cursor has reported the end of the path.
    pub closed spec fn done(self) -> bool {
        self.complete
    }

    /// The bytes not yet passed.
    pub open spec fn rest(self) -> Seq<u8> {
        self.source().skip(self.consumed())
    }

    /// The bytes already passed.
    pub open spec fn parsed(self) -> Seq<u8> {
        self.source().take(self.consumed())
    }

    /// The same cursor moved `n` bytes forward.
    pub open spec fn advanced(self, other: Self, n: int) -> bool {
        &&& other.source() == self.source()
        &&& other.consumed() == self.consumed() + n
        &&& other.done() == self.done()
        &&& other.rest() == self.rest().skip(n)
    }

    /// What the cursor has passed and what it has not make up its bytes.
    pub proof fn law_cursor_splits_source(self)
        requires
            self.wf(),
        ensures
            self.parsed() + self.rest() == self.source(),
            self.parsed().len() == self.consumed(),
    {
        assert(self.parsed() + self.rest() =~= self.source());
    }

    /// A cursor at the start of `raw`.
    pub fn new(raw: &'src [u8]) -> (it: Self)
        ensures
            it.wf(),
            it.source() == raw@,
            it.consumed() == 0,
            !it.done(),
    {
        Self { complete: false, src: raw, pos: 0 }
    }

    /// The bytes passed so far, as a slice of the cursor's bytes.
    pub fn get_parsed(&self) -> (r: &'src [u8])
        ensures
            self.wf(),
            r@ == self.parsed(),
    {
        proof {
            use_type_invariant(self);
            assert(self.src@.subrange(0, self.pos as int) == self.src@.take(self.pos as int));
        }
        &self.src[0..self.pos]
    }

    /// The bytes not yet passed, as a slice of the cursor's bytes.
    pub fn remainder(&self) -> (r: &'src [u8])
        ensures
            self.wf(),
            r@ == self.rest(),
    {
        proof {
            use_type_invariant(self);
            assert(self.src@.subrange(self.pos as int, self.src@.len() as int) == self.src@.skip(
                self.pos as int,
            ));
        }
        &self.src[self.pos..self.src.len()]
    }

    /// Whether the cursor has reported the end of the path.
    pub fn is_complete(&self) -> (r: bool)
        ensures
            r == self.done(),
    {
        self.complete
    }

    /// Whether no further segment will be looked for: the end was reported,
    /// or the path ends here.
    pub fn peek_complete(&self) -> (r: bool)
        ensures
            r == (self.done() || at_terminal(self.rest())),
    {
        self.complete || self.next_known_terminal()
    }

    /// The next byte, if any is left.
    pub fn peek(&self) -> (r: Option<u8>)
        ensures
            self.wf(),
            r == if self.rest().len() > 0 {
                Some(self.rest()[0])
            } else {
                None
            },
    {
        proof {
            use_type_invariant(self);
        }
        if self.pos < self.src.len() {
            Some(self.src[self.pos])
        } else {
            None
        }
    }

    /// Whether the next byte is `other`.
    pub fn next_is(&self, other: u8) -> (r: bool)
        ensures
            r == (self.rest().len() > 0 && self.rest()[0] == other),
    {
        match self.peek() {
            Some(b) => b == other,
            None => false,
        }
    }

    /// Passes over the next byte if it is `other`.
    pub fn take(&mut self, other: u8)
        ensures
            old(self).advanced(
                *final(self),
                if old(self).rest().len() > 0 && old(self).rest()[0] == other {
                    1int
                } else {
                    0int
                },
            ),
            final(self).wf(),
    {
        proof {
            use_type_invariant(&*self);
            assert(self.src@.len() == self.src.len());
        }
        if self.next_is(other) {
            self.pos = self.pos + 1;
            proof {
                assert(old(self).rest().skip(1) == self.rest());
            }
        } else {
            proof {
                assert(old(self).rest().skip(0) == self.rest());
            }
        }
    }

    /// Whether the next byte of the path proper is `other`: the next byte,
    /// or the one behind it when the next byte is a slash.
    pub fn next_is_opt(&self, other: Option<&u8>) -> (r: bool)
        ensures
            r == match other {
                Some(o) => {
                    let rest = self.rest();
                    rest.len() > 0 && if rest[0] == SLASH {
                        rest.len() > 1 && rest[1] == *o
                    } else {
                        rest[0] == *o
                    }
                },
                None => false,
            },
    {
        proof {
            use_type_invariant(self);
        }
        match other {
            Some(o) => {
                if self.pos < self.src.len() {
                    if self.src[self.pos] == SLASH {
                        self.pos + 1 < self.src.len() && self.src[self.pos + 1] == *o
                    } else {
                        self.src[self.pos] == *o
                    }
                } else {
                    false
                }
            },
            None => false,
        }
    }

    /// Whether the path ends here: a space comes next, or nothing.
    pub fn next_known_terminal(&self) -> (r: bool)
        ensures
            r == at_terminal(self.rest()),
    {
        match self.peek() {
            Some(b) => b == SPACE,
            None => true,
        }
    }

    /// The next byte as a slice of length one, if any byte is left.
    pub fn peek_ref(&self) -> (r: Option<&'src [u8]>)
        ensures
            match r {
                Some(b) => self.rest().len() > 0 && b@ == self.rest().take(1),
                None => self.rest().len() == 0,
            },
    {
        proof {
            use_type_invariant(self);
            assert(self.src@.len() == self.src.len());
        }
        if self.pos < self.src.len() {
            proof {
                assert(self.src@.subrange(self.pos as int, self.pos + 1) == self.rest().take(1));
            }
            Some(&self.src[self.pos..self.pos + 1])
        } else {
            None
        }
    }

    /// The next byte as text, where it is a character by itself.
    pub fn peek_utf8(&self) -> (r: Option<&'src str>)
        ensures
            match r {
                Some(t) => self.rest().len() > 0 && t.spec_bytes() == self.rest().take(1),
                None => self.rest().len() == 0 || !vstd::utf8::valid_utf8(self.rest().take(1)),
            },
    {
        match self.peek_ref() {
            Some(b) => text_of(b),
            None => None,
        }
    }

    /// Looks at the next segment without moving: the segment and the bytes
    /// that follow it. `Complete` when the path yields no further segment.
    pub fn parse_next(&self) -> (r: Result<(&'src [u8], &'src [u8]), ParseError<'src>>)
        ensures
            match r {
                Ok((rem, seg)) => {
                    &&& !self.done()
                    &&& next_segment(self.rest()) matches Some((s, e))
                    &&& seg@ == self.rest().subrange(s, e)
                    &&& rem@ == self.rest().skip(e)
                },
                Err(e) => e is Complete && (self.done() || next_segment(self.rest()) is None),
            },
    {
        if self.complete || self.next_known_terminal() {
            return Err(ParseError::Complete);
        }
        let raw = self.remainder();
        let ghost rest = self.rest();
        let ghost lead = lead_of(rest);
        let ghost body = rest.skip(lead);
        proof {
            lemma_stop_index(body, SLASH, SPACE, SPACE);
            lemma_stop_index(rest, SPACE, CR, SLASH);
        }
        match take_path_seg(raw) {
            Ok((rem, seg)) => {
                proof {
                    let p = segment_end(body, SLASH);
                    assert(body.take(p) == rest.subrange(lead, lead + p));
                    assert(body.skip(p) == rest.skip(lead + p));
                }
                Ok((rem, seg))
            },
            Err(_) => match take_ident(raw) {
                Ok((rem, seg)) => {
                    proof {
                        assert(rest.take(ident_end(rest)) == rest.subrange(0, ident_end(rest)));
                    }
                    Ok((rem, seg))
                },
                Err(_) => Err(ParseError::Complete),
            },
        }
    }

    /// Hands out the next segment and moves behind it. Once there is none,
    /// the cursor is complete and stays where it is.
    pub fn next(&mut self) -> (r: Option<&'src [u8]>)
        ensures
            final(self).wf(),
            final(self).source() == old(self).source(),
            final(self).consumed() >= old(self).consumed(),
            match r {
                Some(seg) => {
                    &&& !old(self).done()
                    &&& next_segment(old(self).rest()) matches Some((s, e))
                    &&& seg@ == old(self).rest().subrange(s, e)
                    &&& old(self).advanced(*final(self), e)
                },
                None => {
                    &&& old(self).done() || next_segment(old(self).rest()) is None
                    &&& final(self).done()
                    &&& final(self).consumed() == old(self).consumed()
                },
            },
    {
        proof {
            use_type_invariant(&*self);
            assert(self.src@.len() == self.src.len());
            lemma_next_segment(self.rest());
        }
        match self.parse_next() {
            Ok((rem, seg)) => {
                self.pos = self.src.len() - rem.len();
                proof {
                    assert(old(self).rest().skip(self.pos - old(self).pos) == self.rest());
                }
                Some(seg)
            },
            Err(_) => {
                self.complete = true;
                None
            },
        }
    }

    /// Matches the candidate `other` against the path from here on and moves
    /// behind what matched, then behind one slash if one comes next. Returns
    /// the part of `other` that matched. An empty candidate moves nothing.
    pub fn move_match<'o>(&mut self, other: &'o [u8]) -> (r: &'o [u8])
        ensures
            final(self).wf(),
            final(self).consumed() >= old(self).consumed(),
            ({
                let run = if old(self).done() {
                    (0int, 0int)
                } else {
                    match_run(old(self).rest(), other@)
                };
                &&& r@ == other@.take(run.0)
                &&& old(self).advanced(
                    *final(self),
                    if other@.len() == 0 {
                        0
                    } else {
                        run.1 + lead_of(old(self).rest().skip(run.1))
                    },
                )
            }),
    {
        proof {
            use_type_invariant(&*self);
            assert(self.src@.len() == self.src.len());
        }
        if other.len() == 0 {
            proof {
                assert(other@.take(0) == other@);
                assert(self.rest().skip(0) == self.rest());
            }
            return other;
        }
        let ghost rest0 = self.rest();
        let ghost pos0 = self.pos;
        let mut eaten: usize = 0;
        let mut go = true;
        proof {
            assert(other@.skip(0) == other@);
            assert(rest0.skip(0) == rest0);
        }
        while go && eaten < other.len()
            invariant
                self.src@.len() == self.src.len(),
                self.pos <= self.src@.len(),
                self.src == old(self).src,
                self.complete == old(self).complete,
                rest0 == old(self).rest(),
                pos0 == old(self).pos,
                pos0 <= self.pos,
                eaten <= other@.len(),
                other@.len() > 0,
                self.complete ==> eaten == 0 && self.pos == pos0,
                !self.complete ==> ({
                    let t = if go {
                        match_run(self.rest(), other@.skip(eaten as int))
                    } else {
                        (0int, 0int)
                    };
                    match_run(rest0, other@) == (eaten + t.0, self.pos - pos0 + t.1)
                }),
            decreases other@.len() - eaten + if go { 1int } else { 0int },
        {
            let ghost rest = self.rest();
            let ghost cand = other@.skip(eaten as int);
            proof {
                lemma_next_segment(rest);
                assert(other@.subrange(eaten as int, other@.len() as int) == cand);
            }
            match self.parse_next() {
                Err(_) => {
                    go = false;
                },
                Ok((_, seg)) => {
                    let lead: usize = if self.next_is(SLASH) { 1 } else { 0 };
                    let n = common_prefix(seg, &other[eaten..other.len()]);
                    proof {
                        lemma_common_len(seg@, cand);
                    }
                    if n == 0 {
                        go = false;
                    } else {
                        if n < seg.len() {
                            go = false;
                        }
                        self.pos = self.pos + lead + n;
                        eaten = eaten + n;
                        proof {
                            assert(cand.skip(n as int) == other@.skip(eaten as int));
                            assert(rest.skip(lead + n) == self.rest());
                            if eaten == other@.len() {
                                assert(match_run(self.rest(), other@.skip(eaten as int)) == (
                                    0int,
                                    0int,
                                ));
                            }
                        }
                    }
                },
            }
        }
        proof {
            lemma_match_run(rest0, other@);
            assert(rest0.skip(self.pos - pos0) == self.rest());
            assert(other@.subrange(0, eaten as int) == other@.take(eaten as int));
        }
        let ghost mid = *self;
        self.take(SLASH);
        proof {
            let a = mid.consumed() - old(self).consumed();
            assert(rest0.skip(a).skip(lead_of(rest0.skip(a))) == rest0.skip(a + lead_of(rest0.skip(a))));
        }
        &other[0..eaten]
    }
}

/// `core::str::from_utf8`, without its error: the bytes as text where they
/// are valid UTF-8, `None` where they are not.
#[verifier::external_body]
fn text_of<'a>(bytes: &'a [u8]) -> (r: Option<&'a str>)
    ensures
        match r {
            Some(t) => vstd::utf8::valid_utf8(bytes@) && t.spec_bytes() == bytes@,
            None => !vstd::utf8::valid_utf8(bytes@),
        },
{
    core::str::from_utf8(bytes).ok()
}

/// The bytes `GET /`, which open a request line.
pub open spec fn method_tag() -> Seq<u8> {
    seq![71u8, 69u8, 84u8, 32u8, 47u8]
}

/// A cursor over what follows `GET /` in `raw`. Anything else in front is
/// refused with `Expected`.
pub fn get_req_path<'src>(raw: &'src [u8]) -> (r: Result<PathIter<'src>, ParseError<'src>>)
    ensures
        match r {
            Ok(it) => {
                &&& raw@.len() >= 5
                &&& raw@.take(5) == method_tag()
                &&& it.wf()
                &&& it.source() == raw@.skip(5)
                &&& it.consumed() == 0
                &&& !it.done()
            },
            Err(ParseError::Expected { expected, found }) => {
                &&& !(raw@.len() >= 5 && raw@.take(5) == method_tag())
                &&& found@ == raw@
                &&& expected@ == "GET /"@
            },
            Err(_) => false,
        },
{
    if raw.len() >= 5 && raw[0] == 71 && raw[1] == 69 && raw[2] == 84 && raw[3] == SPACE && raw[4]
        == SLASH {
        proof {
            assert(raw@.take(5) == method_tag());
            assert(raw@.subrange(5, raw@.len() as int) == raw@.skip(5));
        }
        Ok(PathIter::new(&raw[5..raw.len()]))
    } else {
        proof {
            if raw@.len() >= 5 && raw@.take(5) == method_tag() {
                assert(raw@.take(5)[0] == 71 && raw@.take(5)[1] == 69 && raw@.take(5)[2] == 84
                    && raw@.take(5)[3] == 32 && raw@.take(5)[4] == 47);
            }
        }
        Err(ParseError::Expected { expected: "GET /", found: raw })
    }
}

/// All the segments that a path at `rest` still yields, in order.
pub open spec fn segments_of(rest: Seq<u8>) -> Seq<Seq<u8>>
    decreases rest.len(),
{
    match next_segment(rest) {
        Some((s, e)) => if 0 < e <= rest.len() {
            seq![rest.subrange(s, e)] + segments_of(rest.skip(e))
        } else {
            Seq::empty()
        },
        None => Seq::empty(),
    }
}

impl<'src> PathIter<'src> {
    /// The segments this cursor still yields: none once it is complete.
    pub open spec fn segments(self) -> Seq<Seq<u8>> {
        if self.done() {
            Seq::empty()
        } else {
            segments_of(self.rest())
        }
    }
}

} // verus!
