//! The serialisable form of a typeset page: segments of pieces, with styles
//! given as whole numbers (sizes in percent, padding in hundredths).
use vstd::prelude::*;

verus! {

/// How a segment's lines are aligned.
#[derive(Clone, Copy, Debug, PartialEq, Eq, Structural)]
pub enum Alignment {
    Justified,
    Unjustified,
    Center,
    Right,
}

#[derive(Clone, Copy, Debug, PartialEq, Eq, Structural)]
pub struct SegmentStyle {
    /// Left padding in hundredths; 0 when there is none.
    pub left_padding: u16,
    pub alignment: Alignment,
}

#[derive(Clone, Copy, Debug, PartialEq, Eq, Structural)]
pub struct ChunkStyle {
    pub emphasis: bool,
    pub strong: bool,
    pub superscript: bool,
    pub subscript: bool,
    pub strikethrough: bool,
    pub underline: bool,
    pub wide_spacing: bool,
    pub colour_gray: bool,
    /// Size in percent of the base size.
    pub size: u8,
}

#[derive(Debug, Clone, PartialEq, Eq)]
pub struct Chunk {
    pub style: Option<ChunkStyle>,
    pub text: String,
}

#[derive(Debug, Clone, PartialEq, Eq)]
pub struct Link {
    pub url: String,
    pub text: String,
}

#[derive(Debug, Clone, PartialEq, Eq)]
pub struct PageRef {
    pub page: u32,
}

#[derive(Debug, Clone, PartialEq, Eq)]
pub struct SearchWord {
    pub word: String,
}

#[derive(Debug, Clone, PartialEq, Eq)]
pub enum Body {
    Chunk(Chunk),
    Link(Link),
    PageRef(PageRef),
    SearchWord(SearchWord),
}

#[derive(Debug, Clone, PartialEq, Eq)]
pub struct Piece {
    pub body: Option<Body>,
}

#[derive(Debug, Clone, PartialEq, Eq)]
pub struct Segment {
    pub style: Option<SegmentStyle>,
    pub pieces: Vec<Piece>,
}

#[derive(Debug, Clone, PartialEq, Eq)]
pub struct Segments {
    pub segments: Vec<Segment>,
}

} // verus!
