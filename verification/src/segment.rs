//! Segments: the pieces into which a parser cuts a payload.

use std::ops::Range;
use vstd::prelude::*;

verus! {

/// What a segment is.
#[derive(Debug, PartialEq, Eq)]
pub enum SegmentKind {
    /// Protocol control information.
    Pci,
    /// A service data unit: payload for the next layer.
    Sdu,
    /// The border between two bundled messages.
    MessageBoundary,
    /// A named field.
    Field(String),
    /// A place where parsing failed.
    Error(String),
}

/// The mathematical value of a [`SegmentKind`].
pub enum KindView {
    Pci,
    Sdu,
    MessageBoundary,
    Field(Seq<char>),
    Error(Seq<char>),
}

impl View for SegmentKind {
    type V = KindView;

    open spec fn view(&self) -> KindView {
        match *self {
            SegmentKind::Pci => KindView::Pci,
            SegmentKind::Sdu => KindView::Sdu,
            SegmentKind::MessageBoundary => KindView::MessageBoundary,
            SegmentKind::Field(name) => KindView::Field(name@),
            SegmentKind::Error(msg) => KindView::Error(msg@),
        }
    }
}

impl Clone for SegmentKind {
    fn clone(&self) -> (copy: Self)
        ensures
            copy@ == self@,
    {
        match self {
            SegmentKind::Pci => SegmentKind::Pci,
            SegmentKind::Sdu => SegmentKind::Sdu,
            SegmentKind::MessageBoundary => SegmentKind::MessageBoundary,
            SegmentKind::Field(name) => SegmentKind::Field(name.clone()),
            SegmentKind::Error(msg) => SegmentKind::Error(msg.clone()),
        }
    }
}

/// One piece of a parsed payload: a kind and a byte range of the payload.
#[derive(Debug)]
pub struct Segment {
    pub kind: SegmentKind,
    pub range: Range<usize>,
    pub note: Option<String>,
}

/// The mathematical value of a [`Segment`].
pub struct SegmentView {
    pub kind: KindView,
    pub start: int,
    pub end: int,
    pub note: Option<Seq<char>>,
}

impl SegmentView {
    /// The range is well ordered and ends within `len` bytes.
    pub open spec fn within(self, len: int) -> bool {
        0 <= self.start <= self.end <= len
    }

    /// The number of bytes covered.
    pub open spec fn len(self) -> int {
        self.end - self.start
    }
}

/// A segment of the given kind over `[start, end)`, without a note.
pub open spec fn seg(kind: KindView, start: int, end: int) -> SegmentView {
    SegmentView { kind, start, end, note: None }
}

impl View for Segment {
    type V = SegmentView;

    open spec fn view(&self) -> SegmentView {
        SegmentView {
            kind: self.kind@,
            start: self.range.start as int,
            end: self.range.end as int,
            note: match self.note {
                Some(text) => Some(text@),
                None => None,
            },
        }
    }
}

impl DeepView for Segment {
    type V = SegmentView;

    open spec fn deep_view(&self) -> SegmentView {
        self@
    }
}

impl Clone for Segment {
    fn clone(&self) -> (copy: Self)
        ensures
            copy@ == self@,
    {
        let note = match &self.note {
            Some(text) => Some(text.clone()),
            None => None,
        };
        Segment { kind: self.kind.clone(), range: self.range.start..self.range.end, note }
    }
}

impl Segment {
    /// A segment of `kind` over `range`, without a note.
    pub fn new(kind: SegmentKind, range: Range<usize>) -> (segment: Self)
        ensures
            segment@ == seg(kind@, range.start as int, range.end as int),
            segment.kind == kind,
            segment.range == range,
    {
        Segment { kind, range, note: None }
    }

    /// The same segment with `note` attached.
    pub fn with_note(self, note: String) -> (segment: Self)
        ensures
            segment@ == (SegmentView { note: Some(note@), ..self@ }),
            segment.kind == self.kind,
            segment.range == self.range,
    {
        let mut segment = self;
        segment.note = Some(note);
        segment
    }

    /// The number of bytes covered.
    pub fn len(&self) -> (n: usize)
        requires
            self.range.start <= self.range.end,
        ensures
            n == self@.len(),
    {
        self.range.end - self.range.start
    }
}

} // verus!
