//! The typesetting state machine that folds a token stream into sink calls.
use vstd::prelude::*;
use vstd::string::{StrSliceExecFns, StringExecFns};
use crate::decoding::{alphanumeric, decode_string, decode_word, is_alphanumeric, is_white_space, white_space};
use crate::toc::TocItem;
use crate::token::Token;

verus! {

/// An explicit paragraph alignment.
#[derive(Clone, Copy, Debug, PartialEq, Eq, Structural)]
pub enum Alignment {
    Center,
    Right,
}

/// The style in force while text is emitted: inline flags and size, and the
/// block fields (padding, justification, alignment).
#[derive(Clone, Copy, Debug, PartialEq, Eq, Structural)]
pub struct Style {
    /// Left padding in hundredths; the typesetter unsets it rather than set it to zero.
    pub left_padding: Option<u16>,
    pub emphasis: bool,
    pub strong: bool,
    pub superscript: bool,
    pub subscript: bool,
    pub strikethrough: bool,
    pub underline: bool,
    pub wide_spacing: bool,
    /// Size in percent of the base size; the typesetter unsets it rather than set it to zero.
    pub size: Option<u8>,
    pub color_gray: bool,
    pub no_justification: bool,
    pub alignment: Option<Alignment>,
}

/// The style with every flag off and every optional field unset.
pub open spec fn plain_style() -> Style {
    Style {
        left_padding: None,
        emphasis: false,
        strong: false,
        superscript: false,
        subscript: false,
        strikethrough: false,
        underline: false,
        wide_spacing: false,
        size: None,
        color_gray: false,
        no_justification: false,
        alignment: None,
    }
}

impl Default for Style {
    fn default() -> (r: Style)
        ensures
            r == plain_style(),
    {
        Style {
            left_padding: None,
            emphasis: false,
            strong: false,
            superscript: false,
            subscript: false,
            strikethrough: false,
            underline: false,
            wide_spacing: false,
            size: None,
            color_gray: false,
            no_justification: false,
            alignment: None,
        }
    }
}

/// One call that the typesetter makes on its sink.
pub enum SinkCall {
    Chunk { text: Seq<char>, style: Style },
    Link { url: Seq<char>, content: Seq<char> },
    PageRef(u32),
    SearchWord(Seq<char>),
}

/// A consumer of typeset output. `calls` is the record of every call made on
/// it so far; each method appends its own call to that record.
pub trait Encoder {
    /// The calls received so far.
    spec fn calls(&self) -> Seq<SinkCall>;

    /// The sink's own invariant.
    spec fn inv(&self) -> bool;

    fn chunk(&mut self, s: &str, style: &Style)
        requires
            old(self).inv(),
        ensures
            final(self).inv(),
            final(self).calls() == old(self).calls().push(SinkCall::Chunk { text: s@, style: *style }),
    ;

    fn link(&mut self, url: &str, content: &str)
        requires
            old(self).inv(),
        ensures
            final(self).inv(),
            final(self).calls() == old(self).calls().push(SinkCall::Link { url: url@, content: content@ }),
    ;

    fn pageref(&mut self, page: u32)
        requires
            old(self).inv(),
        ensures
            final(self).inv(),
            final(self).calls() == old(self).calls().push(SinkCall::PageRef(page)),
    ;

    fn searchword(&mut self, s: &str)
        requires
            old(self).inv(),
        ensures
            final(self).inv(),
            final(self).calls() == old(self).calls().push(SinkCall::SearchWord(s@)),
    ;
}

/// The typesetter's state, as values.
pub struct TypesetState {
    /// A link being captured: the content so far and the url.
    pub link: Option<(Seq<char>, Seq<char>)>,
    pub font_idx: u8,
    pub word_incomplete: bool,
    pub had_carriage_return: bool,
    pub hyphen_at_eol: bool,
    pub hyphen_ck: bool,
    pub invisible_hyphen: bool,
    pub file_name: Option<Seq<char>>,
    pub concordance: Option<u16>,
    pub node_number: Option<u16>,
    pub sigil: Option<Seq<char>>,
    pub style: Style,
}

/// The state at the start of a page.
pub open spec fn initial_state() -> TypesetState {
    TypesetState {
        link: None,
        font_idx: 0,
        word_incomplete: false,
        had_carriage_return: false,
        hyphen_at_eol: false,
        hyphen_ck: false,
        invisible_hyphen: false,
        file_name: None,
        concordance: None,
        node_number: None,
        sigil: None,
        style: plain_style(),
    }
}

/// Some hyphen flag is set.
pub open spec fn hyphenated(st: TypesetState) -> bool {
    st.hyphen_at_eol || st.hyphen_ck || st.invisible_hyphen
}

/// The state with the three hyphen flags cleared.
pub open spec fn clear_hyphens(st: TypesetState) -> TypesetState {
    TypesetState { hyphen_at_eol: false, hyphen_ck: false, invisible_hyphen: false, ..st }
}

/// Emitting text: captured into the pending link if there is one, else a
/// chunk under the current style.
pub open spec fn emit(st: TypesetState, s: Seq<char>) -> (TypesetState, Seq<SinkCall>) {
    match st.link {
        Some((acc, url)) => (TypesetState { link: Some((acc + s, url)), ..st }, Seq::empty()),
        None => (st, seq![SinkCall::Chunk { text: s, style: st.style }]),
    }
}

/// `s` without its trailing white space.
pub open spec fn trim_white_end(s: Seq<char>) -> Seq<char>
    decreases s.len(),
{
    if s.len() > 0 && white_space(s.last()) {
        trim_white_end(s.drop_last())
    } else {
        s
    }
}

/// `s` without its trailing dashes.
pub open spec fn trim_dash_end(s: Seq<char>) -> Seq<char>
    decreases s.len(),
{
    if s.len() > 0 && s.last() == '-' {
        trim_dash_end(s.drop_last())
    } else {
        s
    }
}

/// The text of a word: decoded under the current font, right-trimmed, and
/// without trailing dashes unless a hyphen flag is set.
pub open spec fn word_text(st: TypesetState, data: Seq<u8>) -> Seq<char> {
    let s = trim_white_end(decode_word(data, st.font_idx));
    if hyphenated(st) {
        s
    } else {
        trim_dash_end(s)
    }
}

/// A word is followed by a space when its flag says so or when its text ends
/// in a character that is not alphanumeric.
pub open spec fn word_spaced(space_at_end: bool, s: Seq<char>) -> bool {
    space_at_end || (s.len() > 0 && !alphanumeric(s.last()))
}

/// The effect of a `Word` token.
pub open spec fn word_step(st: TypesetState, space_at_end: bool, data: Seq<u8>) -> (
    TypesetState,
    Seq<SinkCall>,
) {
    let s = word_text(st, data);
    let (st1, c1) = if st.word_incomplete {
        (TypesetState { word_incomplete: false, ..st }, Seq::empty())
    } else if s.len() > 0 {
        emit(st, s)
    } else {
        (st, Seq::empty())
    };
    let st2 = clear_hyphens(st1);
    if word_spaced(space_at_end, s) {
        let (st3, c3) = emit(st2, seq![' ']);
        (st3, c1 + c3)
    } else {
        (st2, c1)
    }
}

/// The effect on the style of a `FontPreset` token.
pub open spec fn preset_style(s: Style, n: u8) -> Style {
    if n == 0 {
        Style { color_gray: false, emphasis: false, strong: false, ..s }
    } else if n == 1 {
        Style { size: Some(133), ..s }
    } else if n == 2 {
        Style { size: Some(122), ..s }
    } else if n == 3 {
        Style { size: Some(111), ..s }
    } else if n == 4 {
        Style { size: None, strong: true, ..s }
    } else if n == 5 {
        Style { size: None, ..s }
    } else if n == 6 {
        Style { size: None, emphasis: true, ..s }
    } else {
        s
    }
}

/// The token emits text or calls the sink.
pub open spec fn emits(t: Token) -> bool {
    ||| t is Blanks
    ||| t is Word
    ||| t is HardCarriageReturn
    ||| t is OneBlank
    ||| t is PageLink
    ||| t is AutoLink
    ||| t is SoftCarriageReturn
    ||| t is HalfLineSpacing
    ||| t is UrlBegin
    ||| t is UrlEnd
    ||| t is WordRest
    ||| t is WordIncomplete
}

/// The effect of a token on the style.
pub open spec fn style_after(s: Style, t: Token) -> Style {
    match t {
        Token::ItalicsOn => Style { emphasis: true, ..s },
        Token::ItalicsOff => Style { emphasis: false, ..s },
        Token::BoldOn => Style { strong: true, ..s },
        Token::BoldOff => Style { strong: false, ..s },
        Token::FontPreset(n) => preset_style(s, n),
        Token::SuperScriptOn => Style { superscript: true, ..s },
        Token::SuperScriptOff => Style { superscript: false, ..s },
        Token::UnderlineOn => Style { underline: true, ..s },
        Token::UnderlineOff => Style { underline: false, ..s },
        Token::SubscriptOn => Style { subscript: true, ..s },
        Token::SubscriptOff => Style { subscript: false, ..s },
        Token::Color(c) => Style { color_gray: c == 1, ..s },
        Token::FontSize(n) => Style { size: if n == 0 { None } else { Some(n) }, ..s },
        Token::LetterSpacingOn => Style { wide_spacing: true, ..s },
        Token::LetterSpacingOff => Style { wide_spacing: false, ..s },
        Token::SetX(n) => Style { left_padding: if n == 0 { None } else { Some(n) }, ..s },
        Token::CenteredOn => Style { alignment: Some(Alignment::Center), ..s },
        Token::CenteredOff => Style { alignment: None, ..s },
        Token::AlignRightOn => Style { alignment: Some(Alignment::Right), ..s },
        Token::AlignRightOff => Style { alignment: None, ..s },
        Token::NoJustifyOn => Style { no_justification: true, ..s },
        Token::NoJustifyOff => Style { no_justification: false, ..s },
        Token::StrikeThroughOn => Style { strikethrough: true, ..s },
        Token::StrikeThroughOff => Style { strikethrough: false, ..s },
        _ => s,
    }
}

/// The effect of a token that emits nothing.
pub open spec fn restyle(st: TypesetState, t: Token) -> TypesetState {
    let st1 = TypesetState { style: style_after(st.style, t), ..st };
    match t {
        Token::Font(n) => TypesetState { font_idx: n, ..st1 },
        Token::FileName(name) => TypesetState { file_name: Some(name.data@), ..st1 },
        Token::Concordance(n) => TypesetState { concordance: Some(n), ..st1 },
        Token::NodeNumber(n) => TypesetState { node_number: Some(n), ..st1 },
        Token::Sigil(name) => TypesetState { sigil: Some(name.data@), ..st1 },
        Token::HyphenAtEol => TypesetState { invisible_hyphen: true, ..st1 },
        Token::InvisibleHyphen => TypesetState { invisible_hyphen: true, ..st1 },
        Token::HyphenCK => TypesetState { hyphen_ck: true, ..st1 },
        _ => st1,
    }
}

/// `n` spaces.
pub open spec fn spaces(n: nat) -> Seq<char> {
    Seq::new(n, |i: int| ' ')
}

/// The effect of one token: the next state and the sink calls it makes.
pub open spec fn step(st: TypesetState, t: Token) -> (TypesetState, Seq<SinkCall>) {
    match t {
        Token::Blanks(n) => if n == 0 {
            (st, Seq::empty())
        } else {
            emit(st, spaces(n as nat))
        },
        Token::Word { space_at_end, data } => word_step(st, space_at_end, data@),
        Token::HardCarriageReturn => emit(
            TypesetState { had_carriage_return: true, ..st },
            seq!['\n', '\n'],
        ),
        Token::OneBlank => emit(st, seq![' ']),
        Token::PageLink { page_number, name } => if page_number != 0 {
            (st, seq![SinkCall::PageRef(page_number)])
        } else {
            (st, Seq::empty())
        },
        Token::AutoLink(page) => (st, seq![SinkCall::PageRef(page)]),
        Token::SoftCarriageReturn => if !hyphenated(st) {
            emit(st, seq![' '])
        } else {
            (st, Seq::empty())
        },
        Token::HalfLineSpacing => emit(st, seq!['\n']),
        Token::UrlBegin(url) => (
            TypesetState { link: Some((Seq::empty(), url.data@)), ..st },
            Seq::empty(),
        ),
        Token::UrlEnd => match st.link {
            Some((content, url)) => (
                TypesetState { link: None, ..st },
                seq![SinkCall::Link { url, content }],
            ),
            None => (st, Seq::empty()),
        },
        Token::WordRest { space_at_end, data } => {
            let (st1, c1) = emit(st, data@);
            if space_at_end {
                let (st2, c2) = emit(st1, seq![' ']);
                (st2, c1 + c2)
            } else {
                (st1, c1)
            }
        },
        Token::WordIncomplete(name) => {
            let (st1, c1) = emit(st, name.data@);
            (TypesetState { word_incomplete: true, ..st1 }, c1)
        },
        _ => (restyle(st, t), Seq::empty()),
    }
}

/// Running the typesetter over tokens from state `st`, up to and including
/// the first `EndOfPage`: the final state and the sink calls.
pub open spec fn run(st: TypesetState, ts: Seq<Token>) -> (TypesetState, Seq<SinkCall>)
    decreases ts.len(),
{
    if ts.len() == 0 {
        (st, Seq::empty())
    } else {
        let (st1, c1) = step(st, ts[0]);
        if ts[0] is EndOfPage {
            (st1, c1)
        } else {
            let (st2, c2) = run(st1, ts.drop_first());
            (st2, c1 + c2)
        }
    }
}

/// The sink calls that typesetting a page's tokens makes.
pub open spec fn typeset(ts: Seq<Token>) -> Seq<SinkCall> {
    run(initial_state(), ts).1
}

/// The typesetter's state during one page.
pub struct State {
    queued_link: Option<(String, String)>,
    font_idx: u8,
    word_incomplete: bool,
    had_carriage_return: bool,
    add_hyphen_at_eol: bool,
    add_hyphen_at_eol_separating_ck: bool,
    add_invisible_hyphen: bool,
    file_name: Option<String>,
    concordance: Option<u16>,
    node_number: Option<u16>,
    sigil: Option<String>,
    current_style: Style,
}

impl View for State {
    type V = TypesetState;

    closed spec fn view(&self) -> TypesetState {
        TypesetState {
            link: match self.queued_link {
                Some((content, url)) => Some((content@, url@)),
                None => None,
            },
            font_idx: self.font_idx,
            word_incomplete: self.word_incomplete,
            had_carriage_return: self.had_carriage_return,
            hyphen_at_eol: self.add_hyphen_at_eol,
            hyphen_ck: self.add_hyphen_at_eol_separating_ck,
            invisible_hyphen: self.add_invisible_hyphen,
            file_name: match self.file_name {
                Some(s) => Some(s@),
                None => None,
            },
            concordance: self.concordance,
            node_number: self.node_number,
            sigil: match self.sigil {
                Some(s) => Some(s@),
                None => None,
            },
            style: self.current_style,
        }
    }
}

/// The characters of `s` up to its trailing white space.
pub fn trim_end(s: &str) -> (r: String)
    ensures
        r@ == trim_white_end(s@),
{
    let mut k = s.unicode_len();
    assert(s@.subrange(0, k as int) =~= s@);
    let mut done = false;
    while !done && k > 0
        invariant
            k <= s@.len(),
            trim_white_end(s@.subrange(0, k as int)) == trim_white_end(s@),
            done ==> k > 0 && !white_space(s@[k - 1]),
        decreases k + (if done { 0int } else { 1 }),
    {
        if is_white_space(s.get_char(k - 1)) {
            assert(s@.subrange(0, k as int).drop_last() =~= s@.subrange(0, k - 1));
            k -= 1;
        } else {
            done = true;
        }
    }
    assert(s@.subrange(0, 0) =~= Seq::<char>::empty());
    String::from_str(s.substring_char(0, k))
}

/// The characters of `s` up to its trailing dashes.
pub fn trim_end_dashes(s: &str) -> (r: String)
    ensures
        r@ == trim_dash_end(s@),
{
    let mut k = s.unicode_len();
    assert(s@.subrange(0, k as int) =~= s@);
    let mut done = false;
    while !done && k > 0
        invariant
            k <= s@.len(),
            trim_dash_end(s@.subrange(0, k as int)) == trim_dash_end(s@),
            done ==> k > 0 && s@[k - 1] != '-',
        decreases k + (if done { 0int } else { 1 }),
    {
        if s.get_char(k - 1) == '-' {
            assert(s@.subrange(0, k as int).drop_last() =~= s@.subrange(0, k - 1));
            k -= 1;
        } else {
            done = true;
        }
    }
    assert(s@.subrange(0, 0) =~= Seq::<char>::empty());
    String::from_str(s.substring_char(0, k))
}

impl State {
    pub fn new() -> (r: State)
        ensures
            r@ == initial_state(),
    {
        State {
            queued_link: None,
            font_idx: 0,
            word_incomplete: false,
            had_carriage_return: false,
            add_hyphen_at_eol: false,
            add_hyphen_at_eol_separating_ck: false,
            add_invisible_hyphen: false,
            file_name: None,
            concordance: None,
            node_number: None,
            sigil: None,
            current_style: Style::default(),
        }
    }

    pub fn reset_hyphens(&mut self)
        ensures
            final(self)@ == clear_hyphens(old(self)@),
    {
        self.add_hyphen_at_eol = false;
        self.add_hyphen_at_eol_separating_ck = false;
        self.add_invisible_hyphen = false;
    }

    pub fn hyphen(&self) -> (r: bool)
        ensures
            r == hyphenated(self@),
    {
        self.add_hyphen_at_eol || self.add_hyphen_at_eol_separating_ck || self.add_invisible_hyphen
    }

    /// Emits `s`: into the pending link if one is being captured, else to the
    /// sink as a chunk.
    pub fn write_str<E: Encoder>(&mut self, s: &str, encoder: &mut E)
        requires
            old(encoder).inv(),
        ensures
            final(encoder).inv(),
            final(self)@ == emit(old(self)@, s@).0,
            final(encoder).calls() == old(encoder).calls() + emit(old(self)@, s@).1,
    {
        match self.queued_link.take() {
            Some((mut content, url)) => {
                content.append(s);
                self.queued_link = Some((content, url));
            },
            None => {
                encoder.chunk(s, &self.current_style);
                assert(encoder.calls() =~= old(encoder).calls() + emit(old(self)@, s@).1);
            },
        }
    }

    /// Applies a token that emits nothing; other tokens leave the state as it is.
    pub fn set(&mut self, t: &Token)
        ensures
            final(self)@ == restyle(old(self)@, *t),
    {
        self.current_style = next_style(self.current_style, t);
        match t {
            Token::Font(n) => self.font_idx = *n,
            Token::FileName(name) => self.file_name = Some(name.data.clone()),
            Token::Concordance(n) => self.concordance = Some(*n),
            Token::NodeNumber(n) => self.node_number = Some(*n),
            Token::Sigil(name) => self.sigil = Some(name.data.clone()),
            Token::HyphenAtEol => self.add_invisible_hyphen = true,
            Token::InvisibleHyphen => self.add_invisible_hyphen = true,
            Token::HyphenCK => self.add_hyphen_at_eol_separating_ck = true,
            _ => {},
        }
    }

    /// Applies a `Word` token.
    pub fn word<E: Encoder>(&mut self, space_at_end: bool, data: &Vec<u8>, encoder: &mut E)
        requires
            old(encoder).inv(),
        ensures
            final(encoder).inv(),
            final(self)@ == word_step(old(self)@, space_at_end, data@).0,
            final(encoder).calls() == old(encoder).calls() + word_step(
                old(self)@,
                space_at_end,
                data@,
            ).1,
    {
        let ghost st0 = self@;
        let ghost calls0 = encoder.calls();
        let decoded = decode_string(data.as_slice(), self.font_idx);
        let trimmed = trim_end(decoded.as_str());
        let s = if !self.hyphen() {
            trim_end_dashes(trimmed.as_str())
        } else {
            trimmed
        };
        assert(s@ == word_text(st0, data@));
        let n = s.as_str().unicode_len();
        if self.word_incomplete {
            self.word_incomplete = false;
        } else if n > 0 {
            self.write_str(s.as_str(), encoder);
        } else {
            assert(encoder.calls() =~= calls0 + Seq::<SinkCall>::empty());
        }
        self.reset_hyphens();
        let spaced = space_at_end || (n > 0 && !is_alphanumeric(s.as_str().get_char(n - 1)));
        if spaced {
            proof {
                reveal_strlit(" ");
            }
            assert(" "@ =~= seq![' ']);
            self.write_str(" ", encoder);
            assert(encoder.calls() =~= calls0 + word_step(st0, space_at_end, data@).1);
        } else {
            assert(encoder.calls() =~= calls0 + word_step(st0, space_at_end, data@).1);
        }
    }

    /// Applies one token: updates the state and makes its sink calls.
    pub fn apply<E: Encoder>(&mut self, t: &Token, encoder: &mut E)
        requires
            old(encoder).inv(),
        ensures
            final(encoder).inv(),
            final(self)@ == step(old(self)@, *t).0,
            final(encoder).calls() == old(encoder).calls() + step(old(self)@, *t).1,
    {
        proof {
            reveal_strlit(" ");
            reveal_strlit("\n");
            reveal_strlit("\n\n");
        }
        assert(" "@ =~= seq![' ']);
        assert("\n"@ =~= seq!['\n']);
        assert("\n\n"@ =~= seq!['\n', '\n']);
        let ghost calls0 = encoder.calls();
        match t {
            Token::Blanks(n) => {
                if *n > 0 {
                    let s = blank_string(*n);
                    self.write_str(s.as_str(), encoder);
                } else {
                    assert(encoder.calls() =~= calls0 + Seq::<SinkCall>::empty());
                }
            },
            Token::Word { space_at_end, data } => self.word(*space_at_end, data, encoder),
            Token::HardCarriageReturn => {
                self.had_carriage_return = true;
                self.write_str("\n\n", encoder);
            },
            Token::OneBlank => self.write_str(" ", encoder),
            Token::PageLink { page_number, name: _ } => {
                if *page_number != 0 {
                    encoder.pageref(*page_number);
                    assert(encoder.calls() =~= calls0 + step(old(self)@, *t).1);
                } else {
                    assert(encoder.calls() =~= calls0 + Seq::<SinkCall>::empty());
                }
            },
            Token::AutoLink(page) => {
                encoder.pageref(*page);
                assert(encoder.calls() =~= calls0 + step(old(self)@, *t).1);
            },
            Token::SoftCarriageReturn => {
                if !self.hyphen() {
                    self.write_str(" ", encoder);
                } else {
                    assert(encoder.calls() =~= calls0 + Seq::<SinkCall>::empty());
                }
            },
            Token::HalfLineSpacing => self.write_str("\n", encoder),
            Token::UrlBegin(url) => {
                self.queued_link = Some((String::new(), url.data.clone()));
                assert(encoder.calls() =~= calls0 + Seq::<SinkCall>::empty());
            },
            Token::UrlEnd => {
                match self.queued_link.take() {
                    Some((content, url)) => {
                        encoder.link(url.as_str(), content.as_str());
                        assert(encoder.calls() =~= calls0 + step(old(self)@, *t).1);
                    },
                    None => {
                        assert(encoder.calls() =~= calls0 + Seq::<SinkCall>::empty());
                    },
                }
            },
            Token::WordRest { space_at_end, data } => {
                self.write_str(data.as_str(), encoder);
                if *space_at_end {
                    self.write_str(" ", encoder);
                    assert(encoder.calls() =~= calls0 + step(old(self)@, *t).1);
                }
            },
            Token::WordIncomplete(word) => {
                self.write_str(word.data.as_str(), encoder);
                self.word_incomplete = true;
            },
            _ => {
                self.set(t);
                assert(encoder.calls() =~= calls0 + Seq::<SinkCall>::empty());
            },
        }
    }
}

/// The style after token `t`.
pub fn next_style(s: Style, t: &Token) -> (r: Style)
    ensures
        r == style_after(s, *t),
{
    match t {
        Token::ItalicsOn => Style { emphasis: true, ..s },
        Token::ItalicsOff => Style { emphasis: false, ..s },
        Token::BoldOn => Style { strong: true, ..s },
        Token::BoldOff => Style { strong: false, ..s },
        Token::FontPreset(n) => {
            if *n == 0 {
                Style { color_gray: false, emphasis: false, strong: false, ..s }
            } else if *n == 1 {
                Style { size: Some(133), ..s }
            } else if *n == 2 {
                Style { size: Some(122), ..s }
            } else if *n == 3 {
                Style { size: Some(111), ..s }
            } else if *n == 4 {
                Style { size: None, strong: true, ..s }
            } else if *n == 5 {
                Style { size: None, ..s }
            } else if *n == 6 {
                Style { size: None, emphasis: true, ..s }
            } else {
                s
            }
        },
        Token::SuperScriptOn => Style { superscript: true, ..s },
        Token::SuperScriptOff => Style { superscript: false, ..s },
        Token::UnderlineOn => Style { underline: true, ..s },
        Token::UnderlineOff => Style { underline: false, ..s },
        Token::SubscriptOn => Style { subscript: true, ..s },
        Token::SubscriptOff => Style { subscript: false, ..s },
        Token::Color(c) => Style { color_gray: *c == 1, ..s },
        Token::FontSize(n) => Style { size: if *n == 0 { None } else { Some(*n) }, ..s },
        Token::LetterSpacingOn => Style { wide_spacing: true, ..s },
        Token::LetterSpacingOff => Style { wide_spacing: false, ..s },
        Token::SetX(n) => Style { left_padding: if *n == 0 { None } else { Some(*n) }, ..s },
        Token::CenteredOn => Style { alignment: Some(Alignment::Center), ..s },
        Token::CenteredOff => Style { alignment: None, ..s },
        Token::AlignRightOn => Style { alignment: Some(Alignment::Right), ..s },
        Token::AlignRightOff => Style { alignment: None, ..s },
        Token::NoJustifyOn => Style { no_justification: true, ..s },
        Token::NoJustifyOff => Style { no_justification: false, ..s },
        Token::StrikeThroughOn => Style { strikethrough: true, ..s },
        Token::StrikeThroughOff => Style { strikethrough: false, ..s },
        _ => s,
    }
}

/// A string of `n` spaces.
pub fn blank_string(n: u8) -> (r: String)
    ensures
        r@ == spaces(n as nat),
{
    proof {
        reveal_strlit(" ");
    }
    let mut s = String::new();
    let mut i: u8 = 0;
    while i < n
        invariant
            i <= n,
            s@ == spaces(i as nat),
        decreases n - i,
    {
        proof {
            reveal_strlit(" ");
        }
        s.append(" ");
        assert(" "@ =~= seq![' ']);
        assert(s@ =~= spaces((i + 1) as nat));
        i += 1;
    }
    s
}

/// Typesets the tokens of one page onto `encoder`, up to the first
/// `EndOfPage`.
pub fn encode_page<E: Encoder>(
    tocitem: &TocItem,
    page_number: usize,
    lexed: &[Token],
    encoder: &mut E,
)
    requires
        old(encoder).inv(),
    ensures
        final(encoder).inv(),
        final(encoder).calls() == old(encoder).calls() + typeset(lexed@),
{
    let mut state = State::new();
    let ghost total = typeset(lexed@);
    let ghost emitted: Seq<SinkCall> = Seq::empty();
    let ghost calls0 = encoder.calls();
    let n = lexed.len();
    let mut i: usize = 0;
    let mut finished = false;
    assert(lexed@.subrange(0, n as int) =~= lexed@);
    while !finished && i < n
        invariant
            n == lexed@.len(),
            i <= n,
            encoder.inv(),
            encoder.calls() == calls0 + emitted,
            total == typeset(lexed@),
            !finished ==> emitted + run(state@, lexed@.subrange(i as int, n as int)).1 == total,
            finished ==> emitted == total,
        decreases n - i + (if finished { 0int } else { 1 }),
    {
        let t = &lexed[i];
        let ghost st0 = state@;
        let ghost rest = lexed@.subrange(i as int, n as int);
        assert(rest[0] == *t);
        assert(rest.drop_first() =~= lexed@.subrange(i + 1, n as int));
        state.apply(t, encoder);
        proof {
            emitted = emitted + step(st0, *t).1;
        }
        assert(encoder.calls() =~= calls0 + emitted);
        if let Token::EndOfPage = t {
            finished = true;
        } else {
            assert(emitted + run(state@, lexed@.subrange(i + 1, n as int)).1 =~= total);
        }
        i += 1;
    }
    if !finished {
        assert(lexed@.subrange(i as int, n as int) =~= Seq::<Token>::empty());
        assert(emitted =~= total);
    }
}

/// The texts of the chunk calls, in order.
pub open spec fn chunk_calls_text(calls: Seq<SinkCall>) -> Seq<char>
    decreases calls.len(),
{
    if calls.len() == 0 {
        Seq::empty()
    } else {
        chunk_calls_text(calls.drop_last()) + match calls.last() {
            SinkCall::Chunk { text, .. } => text,
            _ => Seq::empty(),
        }
    }
}

/// The calls other than chunks, in order.
pub open spec fn other_calls(calls: Seq<SinkCall>) -> Seq<SinkCall>
    decreases calls.len(),
{
    if calls.len() == 0 {
        Seq::empty()
    } else if calls.last() is Chunk {
        other_calls(calls.drop_last())
    } else {
        other_calls(calls.drop_last()).push(calls.last())
    }
}

proof fn lemma_single_call(x: SinkCall)
    ensures
        chunk_calls_text(Seq::<SinkCall>::empty()) == Seq::<char>::empty(),
        other_calls(Seq::<SinkCall>::empty()) == Seq::<SinkCall>::empty(),
        chunk_calls_text(seq![x]) == match x {
            SinkCall::Chunk { text, .. } => text,
            _ => Seq::<char>::empty(),
        },
        other_calls(seq![x]) == if x is Chunk {
            Seq::<SinkCall>::empty()
        } else {
            seq![x]
        },
{
    assert(chunk_calls_text(Seq::<SinkCall>::empty()) == Seq::<char>::empty());
    assert(other_calls(Seq::<SinkCall>::empty()) == Seq::<SinkCall>::empty());
    assert(seq![x].drop_last() =~= Seq::<SinkCall>::empty());
    assert(seq![x].last() == x);
    assert(Seq::<char>::empty() + match x {
        SinkCall::Chunk { text, .. } => text,
        _ => Seq::<char>::empty(),
    } =~= match x {
        SinkCall::Chunk { text, .. } => text,
        _ => Seq::<char>::empty(),
    });
    assert(Seq::<SinkCall>::empty().push(x) =~= seq![x]);
}

proof fn lemma_calls_concat(a: Seq<SinkCall>, b: Seq<SinkCall>)
    ensures
        chunk_calls_text(a + b) == chunk_calls_text(a) + chunk_calls_text(b),
        other_calls(a + b) == other_calls(a) + other_calls(b),
    decreases b.len(),
{
    if b.len() == 0 {
        assert(a + b =~= a);
        assert(chunk_calls_text(a) + chunk_calls_text(b) =~= chunk_calls_text(a));
        assert(other_calls(a) + other_calls(b) =~= other_calls(a));
    } else {
        lemma_calls_concat(a, b.drop_last());
        assert((a + b).drop_last() =~= a + b.drop_last());
        assert((a + b).last() == b.last());
        assert(chunk_calls_text(a + b) =~= chunk_calls_text(a) + chunk_calls_text(b));
        assert(other_calls(a + b) =~= other_calls(a) + other_calls(b));
    }
}

/// The state with a link being captured.
pub open spec fn capturing(st: TypesetState, content: Seq<char>, url: Seq<char>) -> TypesetState {
    TypesetState { link: Some((content, url)), ..st }
}

/// The token neither opens nor closes a link nor ends the page.
pub open spec fn inside_link(t: Token) -> bool {
    !(t is UrlBegin) && !(t is UrlEnd) && !(t is EndOfPage)
}

proof fn lemma_emit_capture(st: TypesetState, s: Seq<char>, content: Seq<char>, url: Seq<char>)
    requires
        st.link is None,
    ensures
        emit(st, s).0 == st,
        emit(capturing(st, content, url), s) == (
            capturing(st, content + chunk_calls_text(emit(st, s).1), url),
            other_calls(emit(st, s).1),
        ),
{
    lemma_single_call(SinkCall::Chunk { text: s, style: st.style });
}

proof fn lemma_step_capture(st: TypesetState, t: Token, content: Seq<char>, url: Seq<char>)
    requires
        st.link is None,
        inside_link(t),
    ensures
        step(st, t).0.link is None,
        step(capturing(st, content, url), t) == (
            capturing(step(st, t).0, content + chunk_calls_text(step(st, t).1), url),
            other_calls(step(st, t).1),
        ),
{
    let cs = capturing(st, content, url);
    let e = Seq::<SinkCall>::empty();
    lemma_single_call(SinkCall::PageRef(0));
    assert(content + Seq::<char>::empty() =~= content);
    match t {
        Token::Blanks(n) => {
            if n != 0 {
                lemma_emit_capture(st, spaces(n as nat), content, url);
            }
        },
        Token::Word { space_at_end, data } => {
            let s = word_text(st, data@);
            assert(word_text(cs, data@) == s);
            let (st1, c1) = if st.word_incomplete {
                (TypesetState { word_incomplete: false, ..st }, e)
            } else if s.len() > 0 {
                lemma_emit_capture(st, s, content, url);
                emit(st, s)
            } else {
                (st, e)
            };
            let acc1 = content + chunk_calls_text(c1);
            let st2 = clear_hyphens(st1);
            if word_spaced(space_at_end, s) {
                lemma_emit_capture(st2, seq![' '], acc1, url);
                let c3 = emit(st2, seq![' ']).1;
                lemma_calls_concat(c1, c3);
                assert(acc1 + chunk_calls_text(c3) =~= content + chunk_calls_text(c1 + c3));
            }
        },
        Token::HardCarriageReturn => {
            lemma_emit_capture(
                TypesetState { had_carriage_return: true, ..st },
                seq!['\n', '\n'],
                content,
                url,
            );
        },
        Token::OneBlank => {
            lemma_emit_capture(st, seq![' '], content, url);
        },
        Token::PageLink { page_number, name } => {
            if page_number != 0 {
                lemma_single_call(SinkCall::PageRef(page_number));
            }
        },
        Token::AutoLink(page) => {
            lemma_single_call(SinkCall::PageRef(page));
        },
        Token::SoftCarriageReturn => {
            if !hyphenated(st) {
                lemma_emit_capture(st, seq![' '], content, url);
            }
        },
        Token::HalfLineSpacing => {
            lemma_emit_capture(st, seq!['\n'], content, url);
        },
        Token::WordRest { space_at_end, data } => {
            lemma_emit_capture(st, data@, content, url);
            let c1 = emit(st, data@).1;
            let acc1 = content + chunk_calls_text(c1);
            if space_at_end {
                lemma_emit_capture(st, seq![' '], acc1, url);
                let c2 = emit(st, seq![' ']).1;
                lemma_calls_concat(c1, c2);
                assert(acc1 + chunk_calls_text(c2) =~= content + chunk_calls_text(c1 + c2));
            }
        },
        Token::WordIncomplete(name) => {
            lemma_emit_capture(st, name.data@, content, url);
        },
        _ => {},
    }
}

/// Link capture: between `UrlBegin` and `UrlEnd` the text that would have
/// been emitted as chunks goes, in order, into the link's content; the other
/// sink calls are made as they would have been.
pub proof fn lemma_link_capture(st: TypesetState, begin: Token, ts: Seq<Token>, end: Token)
    requires
        begin is UrlBegin,
        end is UrlEnd,
        forall|i: int| 0 <= i < ts.len() ==> inside_link(#[trigger] ts[i]),
    ensures
        ({
            let plain = TypesetState { link: None, ..st };
            let (after, would) = run(plain, ts);
            &&& run(st, seq![begin] + ts + seq![end]).1 == other_calls(would) + seq![
                SinkCall::Link { url: begin->UrlBegin_0.data@, content: chunk_calls_text(would) },
            ]
            &&& run(st, seq![begin] + ts + seq![end]).0 == after
        }),
{
    let url = begin->UrlBegin_0.data@;
    let plain = TypesetState { link: None, ..st };
    let all = seq![begin] + ts + seq![end];
    assert(all[0] == begin);
    assert(all.drop_first() =~= ts + seq![end]);
    let st1 = step(st, begin).0;
    assert(st1 == capturing(plain, Seq::empty(), url));
    lemma_run_capture(plain, ts, end, Seq::empty(), url);
    let would = run(plain, ts).1;
    assert(Seq::<char>::empty() + chunk_calls_text(would) =~= chunk_calls_text(would));
    assert(step(st, begin).1 =~= Seq::<SinkCall>::empty());
    assert(run(st, all).1 =~= Seq::<SinkCall>::empty() + run(st1, ts + seq![end]).1);
}

proof fn lemma_run_capture(st: TypesetState, ts: Seq<Token>, end: Token, content: Seq<char>, url: Seq<char>)
    requires
        st.link is None,
        end is UrlEnd,
        forall|i: int| 0 <= i < ts.len() ==> inside_link(#[trigger] ts[i]),
    ensures
        run(capturing(st, content, url), ts + seq![end]).1 == other_calls(run(st, ts).1) + seq![
            SinkCall::Link { url, content: content + chunk_calls_text(run(st, ts).1) },
        ],
        run(st, ts).0.link is None,
        run(capturing(st, content, url), ts + seq![end]).0 == run(st, ts).0,
    decreases ts.len(),
{
    let e = Seq::<SinkCall>::empty();
    reveal_with_fuel(run, 2);
    lemma_single_call(SinkCall::PageRef(0));
    if ts.len() == 0 {
        assert(ts + seq![end] =~= seq![end]);
        assert(seq![end].drop_first() =~= Seq::<Token>::empty());
        assert(chunk_calls_text(e) =~= Seq::<char>::empty());
        assert(other_calls(e) =~= e);
        assert(content + Seq::<char>::empty() =~= content);
        assert(run(capturing(st, content, url), seq![end]).1 =~= seq![
            SinkCall::Link { url, content },
        ] + e);
        assert(e + seq![SinkCall::Link { url, content }] =~= seq![SinkCall::Link { url, content }]);
    } else {
        let t = ts[0];
        assert(inside_link(t));
        lemma_step_capture(st, t, content, url);
        let (s1, c1) = step(st, t);
        let content1 = content + chunk_calls_text(c1);
        lemma_run_capture(s1, ts.drop_first(), end, content1, url);
        assert((ts + seq![end])[0] == t);
        assert((ts + seq![end]).drop_first() =~= ts.drop_first() + seq![end]);
        let rest = run(s1, ts.drop_first()).1;
        assert(run(st, ts).1 == c1 + rest);
        lemma_calls_concat(c1, rest);
        assert(content1 + chunk_calls_text(rest) =~= content + chunk_calls_text(c1 + rest));
        assert(other_calls(c1) + (other_calls(rest) + seq![
            SinkCall::Link { url, content: content1 + chunk_calls_text(rest) },
        ]) =~= other_calls(c1 + rest) + seq![
            SinkCall::Link { url, content: content + chunk_calls_text(c1 + rest) },
        ]);
    }
}

/// A `WordIncomplete` followed by a `Word`: the first one's text is the only
/// text of the pair; the word adds at most the space that follows it.
pub proof fn lemma_incomplete_word(st: TypesetState, a: Token, b: Token)
    requires
        a is WordIncomplete,
        b is Word,
    ensures
        ({
            let (s1, c1) = emit(st, a->WordIncomplete_0.data@);
            let mid = TypesetState { word_incomplete: true, ..s1 };
            let s2 = clear_hyphens(TypesetState { word_incomplete: false, ..s1 });
            let spaced = word_spaced(b->Word_space_at_end, word_text(mid, b->Word_data@));
            run(st, seq![a, b]) == if spaced {
                (emit(s2, seq![' ']).0, c1 + emit(s2, seq![' ']).1)
            } else {
                (s2, c1 + Seq::<SinkCall>::empty())
            }
        }),
{
    let ts = seq![a, b];
    reveal_with_fuel(run, 3);
    assert(ts.drop_first() =~= seq![b]);
    assert(seq![b].drop_first() =~= Seq::<Token>::empty());
    let (s1, c1) = emit(st, a->WordIncomplete_0.data@);
    let mid = TypesetState { word_incomplete: true, ..s1 };
    let spaced = word_spaced(b->Word_space_at_end, word_text(mid, b->Word_data@));
    let s2 = clear_hyphens(TypesetState { word_incomplete: false, ..s1 });
    let e = Seq::<SinkCall>::empty();
    assert(c1 + e =~= c1);
    if spaced {
        let c3 = emit(s2, seq![' ']).1;
        assert(run(st, ts).1 =~= c1 + ((e + c3) + e));
        assert(c1 + ((e + c3) + e) =~= c1 + c3);
    } else {
        assert(run(st, ts).1 =~= c1 + (e + e));
    }
}

proof fn lemma_trim_dash_end(s: Seq<char>)
    ensures
        trim_dash_end(s).len() == 0 || trim_dash_end(s).last() != '-',
        trim_dash_end(s).len() <= s.len(),
        trim_dash_end(s) == s.subrange(0, trim_dash_end(s).len() as int),
        forall|i: int| trim_dash_end(s).len() <= i < s.len() ==> s[i] == '-',
    decreases s.len(),
{
    if s.len() > 0 && s.last() == '-' {
        assert(trim_dash_end(s) == trim_dash_end(s.drop_last()));
        lemma_trim_dash_end(s.drop_last());
        let w = trim_dash_end(s);
        assert(w.len() <= s.drop_last().len());
        assert(s.drop_last().subrange(0, w.len() as int) =~= s.subrange(0, w.len() as int));
        assert forall|i: int| w.len() <= i < s.len() implies s[i] == '-' by {
            if i < s.len() - 1 {
                assert(s[i] == s.drop_last()[i]);
            }
        }
    } else {
        assert(s.subrange(0, s.len() as int) =~= s);
    }
}

/// Hyphen trimming: the text of a word keeps its trailing dashes when a
/// hyphen flag is set and loses them all when none is; after the word the
/// three flags are clear.
pub proof fn lemma_hyphen_trimming(st: TypesetState, space_at_end: bool, data: Seq<u8>)
    ensures
        ({
            let s = trim_white_end(decode_word(data, st.font_idx));
            let w = word_text(st, data);
            let after = word_step(st, space_at_end, data).0;
            &&& hyphenated(st) ==> w == s
            &&& !hyphenated(st) ==> {
                &&& w.len() == 0 || w.last() != '-'
                &&& w == s.subrange(0, w.len() as int)
                &&& forall|i: int| w.len() <= i < s.len() ==> s[i] == '-'
            }
            &&& !after.hyphen_at_eol && !after.hyphen_ck && !after.invisible_hyphen
        }),
{
    lemma_trim_dash_end(trim_white_end(decode_word(data, st.font_idx)));
}

/// No token ends the page.
pub open spec fn no_page_end(ts: Seq<Token>) -> bool {
    forall|i: int| 0 <= i < ts.len() ==> !(#[trigger] ts[i] is EndOfPage)
}

/// Running over `a` then `b`, where `a` does not end the page, is running
/// over `a` and then, from where it left off, over `b`.
pub proof fn lemma_run_split(st: TypesetState, a: Seq<Token>, b: Seq<Token>)
    requires
        no_page_end(a),
    ensures
        run(st, a + b) == (run(run(st, a).0, b).0, run(st, a).1 + run(run(st, a).0, b).1),
    decreases a.len(),
{
    if a.len() == 0 {
        assert(a + b =~= b);
        assert(Seq::<SinkCall>::empty() + run(st, b).1 =~= run(st, b).1);
    } else {
        assert((a + b)[0] == a[0]);
        assert((a + b).drop_first() =~= a.drop_first() + b);
        assert(!(a[0] is EndOfPage));
        let s1 = step(st, a[0]).0;
        assert(no_page_end(a.drop_first())) by {
            assert forall|i: int| 0 <= i < a.drop_first().len() implies !(
            #[trigger] a.drop_first()[i] is EndOfPage) by {
                assert(a.drop_first()[i] == a[i + 1]);
            }
        }
        lemma_run_split(s1, a.drop_first(), b);
        let c1 = step(st, a[0]).1;
        let m = run(s1, a.drop_first());
        assert(c1 + (m.1 + run(m.0, b).1) =~= (c1 + m.1) + run(m.0, b).1);
    }
}

/// Link capture within a page: a link span `begin, m, end` after tokens `a`
/// that leave no link open makes, in place of the chunks that `m` alone
/// would make, one link whose content is their texts; every other call is
/// the same, before, inside and after the span.
pub proof fn lemma_typeset_link(
    a: Seq<Token>,
    begin: Token,
    m: Seq<Token>,
    end: Token,
    b: Seq<Token>,
)
    requires
        no_page_end(a),
        run(initial_state(), a).0.link is None,
        begin is UrlBegin,
        end is UrlEnd,
        forall|i: int| 0 <= i < m.len() ==> inside_link(#[trigger] m[i]),
    ensures
        ({
            let (s, pre) = run(initial_state(), a);
            let (after, would) = run(s, m);
            let post = run(after, b).1;
            &&& typeset(a + m + b) == pre + would + post
            &&& typeset(a + seq![begin] + m + seq![end] + b) == pre + other_calls(would) + seq![
                SinkCall::Link { url: begin->UrlBegin_0.data@, content: chunk_calls_text(would) },
            ] + post
        }),
{
    let (s, pre) = run(initial_state(), a);
    let (after, would) = run(s, m);
    let post = run(after, b).1;
    assert(no_page_end(m)) by {
        assert forall|i: int| 0 <= i < m.len() implies !(#[trigger] m[i] is EndOfPage) by {
            assert(inside_link(m[i]));
        }
    }
    lemma_run_split(initial_state(), a, m + b);
    lemma_run_split(s, m, b);
    assert(a + m + b =~= a + (m + b));
    let span = seq![begin] + m + seq![end];
    assert(no_page_end(span)) by {
        assert forall|i: int| 0 <= i < span.len() implies !(#[trigger] span[i] is EndOfPage) by {
            if 0 < i < span.len() - 1 {
                assert(span[i] == m[i - 1]);
                assert(inside_link(m[i - 1]));
            }
        }
    }
    lemma_run_split(initial_state(), a, span + b);
    lemma_run_split(s, span, b);
    assert(a + seq![begin] + m + seq![end] + b =~= a + (span + b));
    assert(TypesetState { link: None, ..s } == s);
    lemma_link_capture(s, begin, m, end);
}

/// A `WordIncomplete` at position `k` followed by a `Word`, with no page end
/// before it: the page's calls are those before the pair, then the pair's,
/// in which the word's own text never appears, then those after it.
pub proof fn lemma_typeset_incomplete_word(ts: Seq<Token>, k: int)
    requires
        0 <= k,
        k + 1 < ts.len(),
        no_page_end(ts.subrange(0, k)),
        ts[k] is WordIncomplete,
        ts[k + 1] is Word,
    ensures
        ({
            let (st, pre) = run(initial_state(), ts.subrange(0, k));
            let a = ts[k];
            let b = ts[k + 1];
            let (s1, c1) = emit(st, a->WordIncomplete_0.data@);
            let mid = TypesetState { word_incomplete: true, ..s1 };
            let s2 = clear_hyphens(TypesetState { word_incomplete: false, ..s1 });
            let spaced = word_spaced(b->Word_space_at_end, word_text(mid, b->Word_data@));
            let (s3, c3) = if spaced {
                emit(s2, seq![' '])
            } else {
                (s2, Seq::<SinkCall>::empty())
            };
            typeset(ts) == pre + (c1 + c3) + run(s3, ts.subrange(k + 2, ts.len() as int)).1
        }),
{
    let head = ts.subrange(0, k);
    let pair = seq![ts[k], ts[k + 1]];
    let tail = ts.subrange(k + 2, ts.len() as int);
    assert(ts =~= head + (pair + tail));
    assert(no_page_end(pair));
    lemma_run_split(initial_state(), head, pair + tail);
    let st = run(initial_state(), head).0;
    lemma_run_split(st, pair, tail);
    lemma_incomplete_word(st, ts[k], ts[k + 1]);
    let c1 = emit(st, ts[k]->WordIncomplete_0.data@).1;
    assert(c1 + Seq::<SinkCall>::empty() =~= c1);
}

/// A `Word` at position `j`, with no page end before it: the page's calls
/// are those before it, then the word's from the state in force there (whose
/// text keeps its trailing dashes exactly when a hyphen flag is set, and
/// after which the flags are clear), then those after it.
pub proof fn lemma_typeset_word(ts: Seq<Token>, j: int)
    requires
        0 <= j < ts.len(),
        no_page_end(ts.subrange(0, j)),
        ts[j] is Word,
    ensures
        ({
            let (st, pre) = run(initial_state(), ts.subrange(0, j));
            let sae = ts[j]->Word_space_at_end;
            let data = ts[j]->Word_data@;
            let (after, calls) = word_step(st, sae, data);
            let s = trim_white_end(decode_word(data, st.font_idx));
            let w = word_text(st, data);
            &&& typeset(ts) == pre + calls + run(after, ts.subrange(j + 1, ts.len() as int)).1
            &&& hyphenated(st) ==> w == s
            &&& !hyphenated(st) ==> (w.len() == 0 || w.last() != '-') && w == s.subrange(
                0,
                w.len() as int,
            ) && forall|i: int| w.len() <= i < s.len() ==> s[i] == '-'
            &&& !after.hyphen_at_eol && !after.hyphen_ck && !after.invisible_hyphen
        }),
{
    let head = ts.subrange(0, j);
    let one = seq![ts[j]];
    let tail = ts.subrange(j + 1, ts.len() as int);
    assert(ts =~= head + (one + tail));
    assert(no_page_end(one));
    lemma_run_split(initial_state(), head, one + tail);
    let st = run(initial_state(), head).0;
    lemma_run_split(st, one, tail);
    reveal_with_fuel(run, 2);
    assert(one[0] == ts[j]);
    assert(one.drop_first() =~= Seq::<Token>::empty());
    let c = step(st, ts[j]).1;
    assert(run(st, one).1 =~= c + Seq::<SinkCall>::empty());
    assert(c + Seq::<SinkCall>::empty() =~= c);
    lemma_hyphen_trimming(st, ts[j]->Word_space_at_end, ts[j]->Word_data@);
}

} // verus!
