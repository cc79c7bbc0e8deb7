use crate::rope::{
    bytes_of, line_index, line_start, rope_byte_slice, rope_byte_to_line, rope_line_to_byte,
    rope_text, rope_to_string, sliceable,
};
use ropey::Rope;
use vstd::prelude::*;
use vstd::std_specs::ops::{AddSpecImpl, SubSpecImpl};

verus! {

/// A byte offset into a buffer.
#[derive(Clone, Copy, PartialEq, Eq, Structural, Hash, PartialOrd, Ord, Debug)]
pub struct BytePos(pub u32);

impl BytePos {
    /// The offset of byte `n`.
    pub fn from_u32(n: u32) -> (pos: BytePos)
        ensures
            pos.0 == n,
    {
        BytePos(n)
    }

    /// The offset as a number.
    pub fn to_u32(self) -> (n: u32)
        ensures
            n == self.0,
    {
        self.0
    }

    /// The offset of byte `n`, which an offset must be able to name.
    pub fn from_usize(n: usize) -> (pos: BytePos)
        requires
            n <= u32::MAX,
        ensures
            pos.0 == n,
    {
        BytePos(n as u32)
    }

    /// The offset as an index.
    pub fn to_usize(self) -> (n: usize)
        ensures
            n == self.0,
    {
        self.0 as usize
    }
}

impl core::ops::Add for BytePos {
    type Output = BytePos;

    fn add(self, rhs: BytePos) -> (sum: BytePos) {
        BytePos(self.0 + rhs.0)
    }
}

impl AddSpecImpl for BytePos {
    open spec fn obeys_add_spec() -> bool {
        true
    }

    open spec fn add_req(self, rhs: BytePos) -> bool {
        self.0 + rhs.0 <= u32::MAX
    }

    open spec fn add_spec(self, rhs: BytePos) -> BytePos {
        BytePos((self.0 + rhs.0) as u32)
    }
}

impl core::ops::Sub for BytePos {
    type Output = BytePos;

    fn sub(self, rhs: BytePos) -> (difference: BytePos) {
        BytePos(self.0 - rhs.0)
    }
}

impl SubSpecImpl for BytePos {
    open spec fn obeys_sub_spec() -> bool {
        true
    }

    open spec fn sub_req(self, rhs: BytePos) -> bool {
        rhs.0 <= self.0
    }

    open spec fn sub_spec(self, rhs: BytePos) -> BytePos {
        BytePos((self.0 - rhs.0) as u32)
    }
}

/// A range of bytes `[low, high)` of a buffer.
#[derive(Clone, Copy, PartialEq, Eq, Structural, Debug)]
pub struct Span {
    pub low: BytePos,
    pub high: BytePos,
}

impl Span {
    /// The invariant of a span: it does not end before it starts.
    pub open spec fn wf(self) -> bool {
        self.low.0 <= self.high.0
    }

    /// The span of the bytes `low..high`.
    pub fn new(low: BytePos, high: BytePos) -> (span: Span)
        requires
            low.0 <= high.0,
        ensures
            span.low == low,
            span.high == high,
            span.wf(),
    {
        Span { low, high }
    }

    /// The span of the bytes `low..high` counted from the start of this span:
    /// it turns offsets within a text that was taken out of the buffer into
    /// offsets of the buffer.
    pub fn relative(self, low: BytePos, high: BytePos) -> (span: Span)
        requires
            low.0 <= high.0,
            self.low.0 + high.0 <= u32::MAX,
        ensures
            span.low.0 == self.low.0 + low.0,
            span.high.0 == self.low.0 + high.0,
            span.wf(),
    {
        Span { low: self.low + low, high: self.low + high }
    }

    /// The span that stands for no location.
    pub open spec fn dummy_spec() -> Span {
        Span { low: BytePos(u32::MAX), high: BytePos(u32::MAX) }
    }

    /// The span that stands for no location.
    #[verifier::when_used_as_spec(dummy_spec)]
    pub fn dummy() -> (span: Span)
        ensures
            span == Span::dummy_spec(),
    {
        Span { low: BytePos(u32::MAX), high: BytePos(u32::MAX) }
    }

    /// Whether this is the span that stands for no location.
    pub fn is_dummy(&self) -> (b: bool)
        ensures
            b == (*self == Span::dummy_spec()),
    {
        self.low.0 == u32::MAX && self.high.0 == u32::MAX
    }

    /// The first byte of the span.
    pub fn low(&self) -> (low: BytePos)
        ensures
            low == self.low,
    {
        self.low
    }

    /// The byte after the last one of the span.
    pub fn high(&self) -> (high: BytePos)
        ensures
            high == self.high,
    {
        self.high
    }

    /// The smallest span that holds both `self` and `span`.
    pub fn to(&self, span: Span) -> (hull: Span)
        ensures
            hull.low.0 == if self.low.0 <= span.low.0 { self.low.0 } else { span.low.0 },
            hull.high.0 == if self.high.0 >= span.high.0 { self.high.0 } else { span.high.0 },
            self.wf() && span.wf() ==> hull.wf(),
    {
        Span {
            low: if self.low.0 <= span.low.0 { self.low } else { span.low },
            high: if self.high.0 >= span.high.0 { self.high } else { span.high },
        }
    }

    /// The number of bytes of the span.
    pub fn len(&self) -> (n: BytePos)
        requires
            self.wf(),
        ensures
            n.0 == self.high.0 - self.low.0,
    {
        self.high - self.low
    }
}

impl Default for Span {
    fn default() -> (span: Span)
        ensures
            span == Span::dummy_spec(),
    {
        Span::dummy()
    }
}

/// A place in a text: its line and, within the line, its byte column, both
/// counted from zero.
#[derive(Clone, Copy, PartialEq, Eq, Structural, Debug)]
pub struct Position(pub u32, pub u32);

/// The places at which a span starts and ends.
#[derive(Clone, Copy, PartialEq, Eq, Structural, Debug)]
pub struct Range(pub Position, pub Position);

/// The text of a buffer.
#[derive(Debug)]
pub struct Source(pub Rope);

impl Clone for Source {
    fn clone(&self) -> (copy: Source)
        ensures
            copy@ == self@,
    {
        Source(self.0.clone())
    }
}

impl View for Source {
    type V = Seq<char>;

    open spec fn view(&self) -> Seq<char> {
        rope_text(self.0)
    }
}

/// The text of the bytes of `span` in `text`, or `None` where they cannot be
/// taken out of it.
pub open spec fn slice(text: Seq<char>, span: Span) -> Option<Seq<char>> {
    if span != Span::dummy_spec() && sliceable(text, span.low.0 as int, span.high.0 as int) {
        Some(vstd::utf8::decode_utf8(bytes_of(text).subrange(span.low.0 as int, span.high.0 as int)))
    } else {
        None
    }
}

/// The place of byte `offset` in a text in which it lies in line `line`, when
/// that line starts at byte `start`: nothing where the line starts after the
/// byte or the line does not fit the position's type.
pub open spec fn place(offset: BytePos, line: int, start: int) -> Option<Position> {
    if 0 <= line <= u32::MAX && 0 <= start <= offset.0 {
        Some(Position(line as u32, (offset.0 - start) as u32))
    } else {
        None
    }
}

/// The place of byte `offset` in `text`.
pub open spec fn line_col(text: Seq<char>, offset: BytePos) -> Option<Position> {
    if offset.0 <= bytes_of(text).len() {
        match line_start(text, line_index(text, offset.0 as int)) {
            Some(start) => place(offset, line_index(text, offset.0 as int), start),
            None => None,
        }
    } else {
        None
    }
}

/// The places of both ends of `span` in `text`.
pub open spec fn range_of(text: Seq<char>, span: Span) -> Option<Range> {
    match (line_col(text, span.low), line_col(text, span.high)) {
        (Some(low), Some(high)) => Some(Range(low, high)),
        _ => None,
    }
}

impl Position {
    /// The place of byte `offset`, which lies in line `line`, when that line
    /// starts at byte `start`.
    pub fn locate(offset: BytePos, line: usize, start: usize) -> (position: Option<Position>)
        ensures
            position == place(offset, line as int, start as int),
    {
        if line > u32::MAX as usize || start > offset.0 as usize {
            None
        } else {
            Some(Position(line as u32, offset.0 - start as u32))
        }
    }
}

impl Source {
    /// The buffer that holds the text `source`.
    pub fn new(source: &str) -> (src: Source)
        ensures
            src@ == source@,
    {
        Source(Rope::from_str(source))
    }

    /// The number of bytes of the text.
    pub fn len_bytes(&self) -> (n: usize)
        ensures
            n == bytes_of(self@).len(),
    {
        self.0.len_bytes()
    }

    /// The whole text.
    pub fn text(&self) -> (text: String)
        ensures
            text@ == self@,
    {
        rope_to_string(&self.0)
    }

    /// The text of the bytes of `span`. There is none where the span is the
    /// one that stands for no location, where it does not lie within the
    /// text, and where it cuts a character.
    pub fn str_from(&self, span: Span) -> (text: Option<String>)
        ensures
            match text {
                Some(t) => slice(self@, span) == Some(t@),
                None => slice(self@, span) is None,
            },
            text matches Some(t) ==> bytes_of(t@).len() == span.high.0 - span.low.0,
    {
        if span.is_dummy() {
            return None;
        }
        let text = rope_byte_slice(&self.0, span.low.to_usize(), span.high.to_usize());
        proof {
            if text is Some {
                vstd::utf8::encode_utf8_decode_utf8(text->0@);
            }
        }
        text
    }

    /// The line and column of byte `offset`. There is none where the byte
    /// lies beyond the end of the text.
    pub fn to_line_col(&self, offset: BytePos) -> (position: Option<Position>)
        ensures
            position == line_col(self@, offset),
            offset.0 > bytes_of(self@).len() ==> position is None,
    {
        match rope_byte_to_line(&self.0, offset.to_usize()) {
            Some(line) => match rope_line_to_byte(&self.0, line) {
                Some(start) => Position::locate(offset, line, start),
                None => None,
            },
            None => None,
        }
    }

    /// The lines and columns of both ends of `span`. There are none where
    /// either end lies beyond the end of the text.
    pub fn span_to_range(&self, span: Span) -> (range: Option<Range>)
        ensures
            range == range_of(self@, span),
            span.low.0 > bytes_of(self@).len() || span.high.0 > bytes_of(self@).len()
                ==> range is None,
    {
        match self.to_line_col(span.low) {
            Some(one) => match self.to_line_col(span.high) {
                Some(two) => Some(Range(one, two)),
                None => None,
            },
            None => None,
        }
    }
}

} // verus!
