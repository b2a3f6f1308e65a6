//! The structured sink: builds a document of styled chunks grouped into
//! segments that share a block style.
use vstd::prelude::*;
use vstd::string::StringExecFns;
use crate::encoder::{chunk_calls_text, Alignment, Encoder, SinkCall, Style};
use crate::for_flutter_proto as proto;

verus! {

/// The inline part of a style.
#[derive(Clone, Copy, Debug, PartialEq, Eq, Structural)]
pub struct ChunkStyle {
    pub emphasis: bool,
    pub strong: bool,
    pub superscript: bool,
    pub subscript: bool,
    pub strikethrough: bool,
    pub underline: bool,
    pub wide_spacing: bool,
    pub size: Option<u8>,
    pub colour_gray: bool,
}

/// The block part of a style.
#[derive(Clone, Copy, Debug, PartialEq, Eq, Structural)]
pub struct SegmentStyle {
    pub left_padding: Option<u16>,
    pub no_justification: bool,
    pub alignment: Option<Alignment>,
}

/// The inline part of `s`.
pub open spec fn chunk_style_of(s: Style) -> ChunkStyle {
    ChunkStyle {
        emphasis: s.emphasis,
        strong: s.strong,
        superscript: s.superscript,
        subscript: s.subscript,
        strikethrough: s.strikethrough,
        underline: s.underline,
        wide_spacing: s.wide_spacing,
        size: s.size,
        colour_gray: s.color_gray,
    }
}

/// The block part of `s`.
pub open spec fn segment_style_of(s: Style) -> SegmentStyle {
    SegmentStyle {
        left_padding: s.left_padding,
        no_justification: s.no_justification,
        alignment: s.alignment,
    }
}

/// The block style of a segment that has not been given one.
pub open spec fn plain_segment_style() -> SegmentStyle {
    SegmentStyle { left_padding: None, no_justification: false, alignment: None }
}

/// Splits a style into its inline and block parts.
pub fn split_style(s: Style) -> (r: (ChunkStyle, SegmentStyle))
    ensures
        r == (chunk_style_of(s), segment_style_of(s)),
{
    let c = ChunkStyle {
        emphasis: s.emphasis,
        strong: s.strong,
        superscript: s.superscript,
        subscript: s.subscript,
        strikethrough: s.strikethrough,
        underline: s.underline,
        wide_spacing: s.wide_spacing,
        size: s.size,
        colour_gray: s.color_gray,
    };
    let g = SegmentStyle {
        left_padding: s.left_padding,
        no_justification: s.no_justification,
        alignment: s.alignment,
    };
    (c, g)
}

/// A piece of a segment, as values.
pub enum PieceModel {
    Chunk { style: ChunkStyle, text: Seq<char> },
    Link { url: Seq<char>, content: Seq<char> },
    PageRef(u32),
    SearchWord(Seq<char>),
}

/// A segment, as values.
pub struct SegmentModel {
    pub style: SegmentStyle,
    pub pieces: Seq<PieceModel>,
}

/// A document, as values.
pub struct Document {
    pub plain: Seq<char>,
    pub segments: Seq<SegmentModel>,
}

/// A piece of a segment.
#[derive(Debug)]
pub enum Piece {
    Chunk { style: ChunkStyle, text: String },
    Link { url: String, content: String },
    PageRef(u32),
    SearchWord(String),
}

impl View for Piece {
    type V = PieceModel;

    open spec fn view(&self) -> PieceModel {
        match self {
            Piece::Chunk { style, text } => PieceModel::Chunk { style: *style, text: text@ },
            Piece::Link { url, content } => PieceModel::Link { url: url@, content: content@ },
            Piece::PageRef(n) => PieceModel::PageRef(*n),
            Piece::SearchWord(w) => PieceModel::SearchWord(w@),
        }
    }
}

/// A run of pieces under one block style.
#[derive(Debug)]
pub struct Segment {
    style: SegmentStyle,
    pieces: Vec<Piece>,
}

impl View for Segment {
    type V = SegmentModel;

    closed spec fn view(&self) -> SegmentModel {
        SegmentModel { style: self.style, pieces: self.pieces@.map_values(|p: Piece| p@) }
    }
}

/// A segment after a piece is added: a chunk whose style equals that of a
/// chunk just before it is merged into it, any other piece is appended.
pub open spec fn push_piece_model(seg: SegmentModel, p: PieceModel) -> SegmentModel {
    let n = seg.pieces.len();
    match p {
        PieceModel::Chunk { style, text } => {
            if n > 0 && seg.pieces[n - 1] is Chunk && seg.pieces[n - 1]->Chunk_style == style {
                SegmentModel {
                    pieces: seg.pieces.update(
                        n - 1,
                        PieceModel::Chunk { style, text: seg.pieces[n - 1]->Chunk_text + text },
                    ),
                    ..seg
                }
            } else {
                SegmentModel { pieces: seg.pieces.push(p), ..seg }
            }
        },
        _ => SegmentModel { pieces: seg.pieces.push(p), ..seg },
    }
}

/// The document with a piece added to its last segment.
pub open spec fn push_same_style(d: Document, p: PieceModel) -> Document {
    let n = d.segments.len();
    Document { segments: d.segments.update(n - 1, push_piece_model(d.segments[n - 1], p)), ..d }
}

/// The document with a piece added under a block style: to the last segment
/// if its style is that one, else in a new segment.
pub open spec fn push_styled(d: Document, style: SegmentStyle, p: PieceModel) -> Document {
    let n = d.segments.len();
    if d.segments[n - 1].style == style {
        push_same_style(d, p)
    } else {
        Document {
            segments: d.segments.push(SegmentModel { style, pieces: seq![p] }),
            ..d
        }
    }
}

/// The document after one sink call.
pub open spec fn apply_call(d: Document, c: SinkCall) -> Document {
    match c {
        SinkCall::Chunk { text, style } => {
            let d1 = Document { plain: d.plain + text, ..d };
            push_styled(
                d1,
                segment_style_of(style),
                PieceModel::Chunk { style: chunk_style_of(style), text },
            )
        },
        SinkCall::Link { url, content } => push_same_style(d, PieceModel::Link { url, content }),
        SinkCall::PageRef(n) => push_same_style(d, PieceModel::PageRef(n)),
        SinkCall::SearchWord(w) => push_same_style(d, PieceModel::SearchWord(w)),
    }
}

/// The document before any call: one empty segment.
pub open spec fn initial_document() -> Document {
    Document {
        plain: Seq::empty(),
        segments: seq![SegmentModel { style: plain_segment_style(), pieces: Seq::empty() }],
    }
}

/// The document that a sequence of sink calls builds.
pub open spec fn document_of(calls: Seq<SinkCall>) -> Document
    decreases calls.len(),
{
    if calls.len() == 0 {
        initial_document()
    } else {
        apply_call(document_of(calls.drop_last()), calls.last())
    }
}

impl Segment {
    pub fn new() -> (r: Segment)
        ensures
            r@ == (SegmentModel { style: plain_segment_style(), pieces: Seq::empty() }),
    {
        let r = Segment {
            style: SegmentStyle { left_padding: None, no_justification: false, alignment: None },
            pieces: Vec::new(),
        };
        assert(r@.pieces =~= Seq::<PieceModel>::empty());
        r
    }

    pub fn new_with_piece(style: SegmentStyle, piece: Piece) -> (r: Segment)
        ensures
            r@ == (SegmentModel { style, pieces: seq![piece@] }),
    {
        let r = Segment { style, pieces: vec![piece] };
        assert(r@.pieces =~= seq![piece@]);
        r
    }

    pub fn push_piece(&mut self, piece: Piece)
        ensures
            final(self)@ == push_piece_model(old(self)@, piece@),
    {
        let ghost m0 = self@;
        let ghost added = piece@;
        match piece {
            Piece::Chunk { style: new_style, text: new_text } => {
                match self.pieces.pop() {
                    Some(Piece::Chunk { style, mut text }) => {
                        if style == new_style {
                            text.append(new_text.as_str());
                            self.pieces.push(Piece::Chunk { style, text });
                            assert(self@.pieces =~= push_piece_model(m0, added).pieces);
                        } else {
                            self.pieces.push(Piece::Chunk { style, text });
                            self.pieces.push(Piece::Chunk { style: new_style, text: new_text });
                            assert(self@.pieces =~= push_piece_model(m0, added).pieces);
                        }
                    },
                    Some(last) => {
                        self.pieces.push(last);
                        self.pieces.push(Piece::Chunk { style: new_style, text: new_text });
                        assert(self@.pieces =~= push_piece_model(m0, added).pieces);
                    },
                    None => {
                        self.pieces.push(Piece::Chunk { style: new_style, text: new_text });
                        assert(self@.pieces =~= push_piece_model(m0, added).pieces);
                    },
                }
            },
            _ => {
                self.pieces.push(piece);
                assert(self@.pieces =~= push_piece_model(m0, added).pieces);
            },
        }
    }
}

/// The structured sink: the page's plain text and its segments.
pub struct ForFlutter {
    pub plain: String,
    segments: Vec<Segment>,
    received: Ghost<Seq<SinkCall>>,
}

impl View for ForFlutter {
    type V = Document;

    closed spec fn view(&self) -> Document {
        Document { plain: self.plain@, segments: self.segments@.map_values(|s: Segment| s@) }
    }
}

impl ForFlutter {
    pub fn new() -> (r: ForFlutter)
        ensures
            r.inv(),
            r.calls() == Seq::<SinkCall>::empty(),
    {
        let r = ForFlutter {
            plain: String::new(),
            segments: vec![Segment::new()],
            received: Ghost(Seq::empty()),
        };
        assert(r@.segments =~= initial_document().segments);
        r
    }

    /// The document of a sink in its invariant is the one its calls built.
    pub proof fn lemma_document(&self)
        requires
            self.inv(),
        ensures
            self@ == document_of(self.calls()),
    {
    }

    /// The plain text of the page: every chunk's text, in order.
    pub fn plain_text(&self) -> (r: &String)
        ensures
            r@ == self@.plain,
            self.inv() ==> r@ == document_of(self.calls()).plain,
    {
        &self.plain
    }

    fn push_piece_samestyle(&mut self, piece: Piece)
        requires
            old(self).segments@.len() > 0,
        ensures
            final(self).segments@.len() > 0,
            final(self).plain == old(self).plain,
            final(self).received == old(self).received,
            final(self)@ == push_same_style(old(self)@, piece@),
    {
        let ghost d0 = self@;
        let mut seg = self.segments.pop().unwrap();
        seg.push_piece(piece);
        self.segments.push(seg);
        assert(self@.segments =~= push_same_style(d0, piece@).segments);
    }

    fn push_piece(&mut self, style: SegmentStyle, piece: Piece)
        requires
            old(self).segments@.len() > 0,
        ensures
            final(self).segments@.len() > 0,
            final(self).plain == old(self).plain,
            final(self).received == old(self).received,
            final(self)@ == push_styled(old(self)@, style, piece@),
    {
        let ghost d0 = self@;
        let n = self.segments.len();
        if self.segments[n - 1].style == style {
            proof {
                assert(d0.segments[n - 1].style == self.segments@[n - 1].style);
            }
            self.push_piece_samestyle(piece);
        } else {
            proof {
                assert(d0.segments[n - 1].style == self.segments@[n - 1].style);
            }
            self.segments.push(Segment::new_with_piece(style, piece));
            assert(self@.segments =~= push_styled(d0, style, piece@).segments);
        }
    }
}

impl Encoder for ForFlutter {
    closed spec fn calls(&self) -> Seq<SinkCall> {
        self.received@
    }

    closed spec fn inv(&self) -> bool {
        &&& self.segments@.len() > 0
        &&& self@ == document_of(self.received@)
    }

    fn chunk(&mut self, s: &str, style: &Style) {
        self.plain.append(s);
        let (chunk_style, segment_style) = split_style(*style);
        self.push_piece(segment_style, Piece::Chunk { style: chunk_style, text: String::from_str(s) });
        self.received = Ghost(self.received@.push(SinkCall::Chunk { text: s@, style: *style }));
        assert(self.received@.drop_last() =~= old(self).received@);
    }

    fn link(&mut self, url: &str, content: &str) {
        self.push_piece_samestyle(
            Piece::Link { url: String::from_str(url), content: String::from_str(content) },
        );
        self.received = Ghost(self.received@.push(SinkCall::Link { url: url@, content: content@ }));
        assert(self.received@.drop_last() =~= old(self).received@);
    }

    fn pageref(&mut self, page: u32) {
        self.push_piece_samestyle(Piece::PageRef(page));
        self.received = Ghost(self.received@.push(SinkCall::PageRef(page)));
        assert(self.received@.drop_last() =~= old(self).received@);
    }

    fn searchword(&mut self, s: &str) {
        self.push_piece_samestyle(Piece::SearchWord(String::from_str(s)));
        self.received = Ghost(self.received@.push(SinkCall::SearchWord(s@)));
        assert(self.received@.drop_last() =~= old(self).received@);
    }
}

/// The alignment of a block style: an explicit alignment wins, then
/// no-justification, else justified.
pub open spec fn resolved_alignment(s: SegmentStyle) -> proto::Alignment {
    match s.alignment {
        Some(Alignment::Center) => proto::Alignment::Center,
        Some(Alignment::Right) => proto::Alignment::Right,
        None => if s.no_justification {
            proto::Alignment::Unjustified
        } else {
            proto::Alignment::Justified
        },
    }
}

/// The serialisable form of a block style.
pub open spec fn segment_style_proto(s: SegmentStyle) -> proto::SegmentStyle {
    proto::SegmentStyle {
        left_padding: match s.left_padding {
            Some(x) => x,
            None => 0,
        },
        alignment: resolved_alignment(s),
    }
}

/// The serialisable form of an inline style; an unset size is 100 percent.
pub open spec fn chunk_style_proto(c: ChunkStyle) -> proto::ChunkStyle {
    proto::ChunkStyle {
        emphasis: c.emphasis,
        strong: c.strong,
        superscript: c.superscript,
        subscript: c.subscript,
        strikethrough: c.strikethrough,
        underline: c.underline,
        wide_spacing: c.wide_spacing,
        colour_gray: c.colour_gray,
        size: match c.size {
            Some(x) => x,
            None => 100,
        },
    }
}

/// `p` is the serialisable form of piece `m`.
pub open spec fn piece_matches(p: proto::Piece, m: PieceModel) -> bool {
    match m {
        PieceModel::Chunk { style, text } => {
            &&& p.body matches Some(proto::Body::Chunk(c))
            &&& c.style == Some(chunk_style_proto(style))
            &&& c.text@ == text
        },
        PieceModel::Link { url, content } => {
            &&& p.body matches Some(proto::Body::Link(l))
            &&& l.url@ == url
            &&& l.text@ == content
        },
        PieceModel::PageRef(n) => p.body == Some(proto::Body::PageRef(proto::PageRef { page: n })),
        PieceModel::SearchWord(w) => {
            &&& p.body matches Some(proto::Body::SearchWord(s))
            &&& s.word@ == w
        },
    }
}

/// `p` is the serialisable form of segment `m`.
pub open spec fn segment_matches(p: proto::Segment, m: SegmentModel) -> bool {
    &&& p.style == Some(segment_style_proto(m.style))
    &&& p.pieces@.len() == m.pieces.len()
    &&& forall|j: int| 0 <= j < m.pieces.len() ==> piece_matches(#[trigger] p.pieces@[j], m.pieces[j])
}

/// `p` is the serialisable form of document `d`'s segments.
pub open spec fn segments_match(p: proto::Segments, d: Document) -> bool {
    &&& p.segments@.len() == d.segments.len()
    &&& forall|i: int|
        0 <= i < d.segments.len() ==> segment_matches(#[trigger] p.segments@[i], d.segments[i])
}

impl ChunkStyle {
    pub fn to_proto(self) -> (r: proto::ChunkStyle)
        ensures
            r == chunk_style_proto(self),
    {
        proto::ChunkStyle {
            emphasis: self.emphasis,
            strong: self.strong,
            superscript: self.superscript,
            subscript: self.subscript,
            strikethrough: self.strikethrough,
            underline: self.underline,
            wide_spacing: self.wide_spacing,
            colour_gray: self.colour_gray,
            size: match self.size {
                Some(x) => x,
                None => 100,
            },
        }
    }
}

impl SegmentStyle {
    pub fn to_proto(self) -> (r: proto::SegmentStyle)
        ensures
            r == segment_style_proto(self),
    {
        let alignment = match self.alignment {
            Some(Alignment::Center) => proto::Alignment::Center,
            Some(Alignment::Right) => proto::Alignment::Right,
            None => {
                if self.no_justification {
                    proto::Alignment::Unjustified
                } else {
                    proto::Alignment::Justified
                }
            },
        };
        proto::SegmentStyle {
            left_padding: match self.left_padding {
                Some(x) => x,
                None => 0,
            },
            alignment,
        }
    }
}

impl Piece {
    pub fn to_proto(&self) -> (r: proto::Piece)
        ensures
            piece_matches(r, self@),
    {
        let body = match self {
            Piece::Chunk { style, text } => proto::Body::Chunk(
                proto::Chunk { style: Some(style.to_proto()), text: text.clone() },
            ),
            Piece::Link { url, content } => proto::Body::Link(
                proto::Link { url: url.clone(), text: content.clone() },
            ),
            Piece::PageRef(number) => proto::Body::PageRef(proto::PageRef { page: *number }),
            Piece::SearchWord(word) => proto::Body::SearchWord(
                proto::SearchWord { word: word.clone() },
            ),
        };
        proto::Piece { body: Some(body) }
    }
}

impl Segment {
    pub fn to_proto(&self) -> (r: proto::Segment)
        ensures
            segment_matches(r, self@),
    {
        let mut pieces: Vec<proto::Piece> = Vec::new();
        let mut j: usize = 0;
        while j < self.pieces.len()
            invariant
                j <= self.pieces@.len(),
                pieces@.len() == j,
                forall|k: int| 0 <= k < j ==> piece_matches(#[trigger] pieces@[k], self.pieces@[k]@),
            decreases self.pieces@.len() - j,
        {
            pieces.push(self.pieces[j].to_proto());
            j += 1;
        }
        proto::Segment { style: Some(self.style.to_proto()), pieces }
    }
}

impl ForFlutter {
    /// The serialisable form of the document built so far.
    pub fn to_proto(self) -> (r: proto::Segments)
        ensures
            segments_match(r, self@),
            self.inv() ==> segments_match(r, document_of(self.calls())),
    {
        let mut segments: Vec<proto::Segment> = Vec::new();
        let mut i: usize = 0;
        while i < self.segments.len()
            invariant
                i <= self.segments@.len(),
                segments@.len() == i,
                forall|k: int|
                    0 <= k < i ==> segment_matches(#[trigger] segments@[k], self.segments@[k]@),
            decreases self.segments@.len() - i,
        {
            segments.push(self.segments[i].to_proto());
            i += 1;
        }
        proto::Segments { segments }
    }
}

/// No two consecutive pieces of a segment are chunks with one inline style.
pub open spec fn chunks_merged(s: SegmentModel) -> bool {
    forall|j: int|
        0 <= j && j + 1 < s.pieces.len() && #[trigger] s.pieces[j] is Chunk && s.pieces[j + 1] is Chunk
            ==> s.pieces[j]->Chunk_style != s.pieces[j + 1]->Chunk_style
}

proof fn lemma_push_piece_merged(s: SegmentModel, p: PieceModel)
    requires
        chunks_merged(s),
    ensures
        chunks_merged(push_piece_model(s, p)),
{
    let r = push_piece_model(s, p);
    assert forall|j: int|
        0 <= j && j + 1 < r.pieces.len() && #[trigger] r.pieces[j] is Chunk && r.pieces[j + 1] is Chunk
            implies r.pieces[j]->Chunk_style != r.pieces[j + 1]->Chunk_style by {
        if j + 1 < s.pieces.len() {
            assert(s.pieces[j] is Chunk && s.pieces[j + 1] is Chunk);
        }
    }
}

proof fn lemma_document_nonempty(calls: Seq<SinkCall>)
    ensures
        document_of(calls).segments.len() > 0,
    decreases calls.len(),
{
    if calls.len() > 0 {
        lemma_document_nonempty(calls.drop_last());
    }
}

/// In every document that sink calls build, no two consecutive chunks of a
/// segment share an inline style: such chunks are merged.
pub proof fn lemma_adjacent_chunks_differ(calls: Seq<SinkCall>)
    ensures
        forall|i: int|
            0 <= i < document_of(calls).segments.len() ==> chunks_merged(
                #[trigger] document_of(calls).segments[i],
            ),
    decreases calls.len(),
{
    if calls.len() > 0 {
        let prev = calls.drop_last();
        lemma_adjacent_chunks_differ(prev);
        lemma_document_nonempty(prev);
        let d0 = document_of(prev);
        let n = d0.segments.len();
        let d = document_of(calls);
        assert(chunks_merged(d0.segments[n - 1]));
        match calls.last() {
            SinkCall::Chunk { text, style } => {
                let p = PieceModel::Chunk { style: chunk_style_of(style), text };
                lemma_push_piece_merged(d0.segments[n - 1], p);
                if d0.segments[n - 1].style != segment_style_of(style) {
                    let fresh = SegmentModel { style: segment_style_of(style), pieces: seq![p] };
                    assert(chunks_merged(fresh));
                    assert(forall|i: int| 0 <= i < n ==> d.segments[i] == d0.segments[i]);
                }
            },
            SinkCall::Link { url, content } => {
                lemma_push_piece_merged(d0.segments[n - 1], PieceModel::Link { url, content });
            },
            SinkCall::PageRef(k) => {
                lemma_push_piece_merged(d0.segments[n - 1], PieceModel::PageRef(k));
            },
            SinkCall::SearchWord(w) => {
                lemma_push_piece_merged(d0.segments[n - 1], PieceModel::SearchWord(w));
            },
        }
    }
}

/// The text that a piece adds to the plain text.
pub open spec fn piece_text(p: PieceModel) -> Seq<char> {
    match p {
        PieceModel::Chunk { text, .. } => text,
        _ => Seq::empty(),
    }
}

/// The chunk texts of pieces, in order.
pub open spec fn pieces_text(ps: Seq<PieceModel>) -> Seq<char>
    decreases ps.len(),
{
    if ps.len() == 0 {
        Seq::empty()
    } else {
        pieces_text(ps.drop_last()) + piece_text(ps.last())
    }
}

/// The chunk texts of segments, in order.
pub open spec fn segments_text(ss: Seq<SegmentModel>) -> Seq<char>
    decreases ss.len(),
{
    if ss.len() == 0 {
        Seq::empty()
    } else {
        segments_text(ss.drop_last()) + pieces_text(ss.last().pieces)
    }
}

proof fn lemma_push_piece_text(s: SegmentModel, p: PieceModel)
    ensures
        pieces_text(push_piece_model(s, p).pieces) == pieces_text(s.pieces) + piece_text(p),
{
    let r = push_piece_model(s, p);
    let n = s.pieces.len();
    if r.pieces.len() == n {
        assert(r.pieces.drop_last() =~= s.pieces.drop_last());
        assert(pieces_text(s.pieces) == pieces_text(s.pieces.drop_last()) + piece_text(s.pieces[n - 1]));
        assert(pieces_text(r.pieces) =~= pieces_text(s.pieces) + piece_text(p));
    } else {
        assert(r.pieces.drop_last() =~= s.pieces);
    }
}

proof fn lemma_update_last_text(ss: Seq<SegmentModel>, s: SegmentModel)
    requires
        ss.len() > 0,
    ensures
        segments_text(ss.update(ss.len() - 1, s)) == segments_text(ss.drop_last()) + pieces_text(s.pieces),
{
    assert(ss.update(ss.len() - 1, s).drop_last() =~= ss.drop_last());
}

/// The plain text of a document is the chunk texts of its segments in order,
/// and it is the texts of the chunk calls in the order they were made.
pub proof fn lemma_plain_text(calls: Seq<SinkCall>)
    ensures
        document_of(calls).plain == segments_text(document_of(calls).segments),
        document_of(calls).plain == chunk_calls_text(calls),
    decreases calls.len(),
{
    if calls.len() == 0 {
        assert(initial_document().segments.drop_last() =~= Seq::<SegmentModel>::empty());
        assert(pieces_text(Seq::<PieceModel>::empty()) == Seq::<char>::empty());
        assert(segments_text(Seq::<SegmentModel>::empty()) == Seq::<char>::empty());
        assert(segments_text(initial_document().segments) =~= Seq::<char>::empty());
    } else {
        let prev = calls.drop_last();
        lemma_plain_text(prev);
        lemma_document_nonempty(prev);
        let d0 = document_of(prev);
        let n = d0.segments.len();
        let d = document_of(calls);
        let last = d0.segments[n - 1];
        let p = match calls.last() {
            SinkCall::Chunk { text, style } => PieceModel::Chunk { style: chunk_style_of(style), text },
            SinkCall::Link { url, content } => PieceModel::Link { url, content },
            SinkCall::PageRef(k) => PieceModel::PageRef(k),
            SinkCall::SearchWord(w) => PieceModel::SearchWord(w),
        };
        lemma_push_piece_text(last, p);
        assert(segments_text(d0.segments) == segments_text(d0.segments.drop_last()) + pieces_text(last.pieces));
        if d.segments.len() == n {
            lemma_update_last_text(d0.segments, push_piece_model(last, p));
            assert(d.segments == d0.segments.update(n - 1, push_piece_model(last, p)));
        } else {
            let fresh = SegmentModel { style: d.segments[n as int].style, pieces: seq![p] };
            assert(d.segments == d0.segments.push(fresh));
            assert(d.segments.drop_last() =~= d0.segments);
            assert(fresh.pieces.drop_last() =~= Seq::<PieceModel>::empty());
            assert(pieces_text(Seq::<PieceModel>::empty()) == Seq::<char>::empty());
            assert(pieces_text(fresh.pieces) =~= piece_text(p));
        }
        assert(d.plain =~= segments_text(d.segments));
        assert(d.plain =~= chunk_calls_text(calls));
    }
}

/// Some chunk call among `calls` was made under a style whose inline part is
/// the style of chunk `j` of segment `i` of `d`, and whose block part is the
/// style of that segment.
pub open spec fn chunk_from_call(d: Document, calls: Seq<SinkCall>, i: int, j: int) -> bool {
    exists|k: int|
        0 <= k < calls.len() && #[trigger] calls[k] is Chunk && chunk_style_of(calls[k]->Chunk_style)
            == d.segments[i].pieces[j]->Chunk_style && segment_style_of(calls[k]->Chunk_style)
            == d.segments[i].style
}

/// Every chunk of a document stands in a segment whose block style is that of
/// the style under which its text was emitted.
pub proof fn lemma_segment_style(calls: Seq<SinkCall>)
    ensures
        forall|i: int, j: int|
            0 <= i < document_of(calls).segments.len() && 0 <= j
                < document_of(calls).segments[i].pieces.len()
                && (#[trigger] document_of(calls).segments[i].pieces[j]) is Chunk
                ==> chunk_from_call(document_of(calls), calls, i, j),
    decreases calls.len(),
{
    if calls.len() > 0 {
        let prev = calls.drop_last();
        lemma_segment_style(prev);
        lemma_document_nonempty(prev);
        let d0 = document_of(prev);
        let d = document_of(calls);
        let n = d0.segments.len();
        let last = calls.len() - 1;
        assert forall|i: int, j: int|
            0 <= i < d.segments.len() && 0 <= j < d.segments[i].pieces.len()
                && (#[trigger] d.segments[i].pieces[j]) is Chunk implies chunk_from_call(
            d,
            calls,
            i,
            j,
        ) by {
            let from_new = calls[last] is Chunk && chunk_style_of(calls[last]->Chunk_style)
                == d.segments[i].pieces[j]->Chunk_style && segment_style_of(
                calls[last]->Chunk_style,
            ) == d.segments[i].style;
            if from_new {
                assert(calls[last] is Chunk);
            } else {
                assert(i < n && j < d0.segments[i].pieces.len());
                assert(d.segments[i].style == d0.segments[i].style);
                assert(d.segments[i].pieces[j]->Chunk_style == d0.segments[i].pieces[j]->Chunk_style);
                assert(d0.segments[i].pieces[j] is Chunk);
                assert(chunk_from_call(d0, prev, i, j));
                let k = choose|k: int|
                    0 <= k < prev.len() && #[trigger] prev[k] is Chunk && chunk_style_of(
                        prev[k]->Chunk_style,
                    ) == d0.segments[i].pieces[j]->Chunk_style && segment_style_of(
                        prev[k]->Chunk_style,
                    ) == d0.segments[i].style;
                assert(calls[k] == prev[k]);
                assert(calls[k] is Chunk);
            }
        }
    }
}

/// A chunk call's text ends the last chunk of the last segment, and both
/// carry the parts of the call's style.
pub proof fn lemma_chunk_lands(calls: Seq<SinkCall>, text: Seq<char>, style: Style)
    ensures
        ({
            let d = document_of(calls.push(SinkCall::Chunk { text, style }));
            let s = d.segments.last();
            let p = s.pieces.last();
            &&& d.segments.len() > 0
            &&& s.style == segment_style_of(style)
            &&& s.pieces.len() > 0
            &&& p is Chunk
            &&& p->Chunk_style == chunk_style_of(style)
            &&& p->Chunk_text.len() >= text.len()
            &&& p->Chunk_text.subrange(p->Chunk_text.len() - text.len(), p->Chunk_text.len() as int)
                == text
        }),
{
    let all = calls.push(SinkCall::Chunk { text, style });
    assert(all.drop_last() =~= calls);
    lemma_document_nonempty(calls);
    let d = document_of(all);
    let p = d.segments.last().pieces.last();
    assert(p->Chunk_text.subrange(p->Chunk_text.len() - text.len(), p->Chunk_text.len() as int)
        =~= text);
}

} // verus!
