//! The markup writer: renders a page's tokens as typesetting markup, with
//! each style change opening or closing a named wrapper.
use vstd::prelude::*;
use vstd::string::{StrSliceExecFns, StringExecFns};
use crate::decoding::{alphanumeric, decode_string, decode_word, is_alphanumeric, push_char};
use crate::encoder::{trim_dash_end, trim_end, trim_end_dashes, trim_white_end, word_spaced};
use crate::toc::TocItem;
use crate::token::Token;

verus! {

/// The characters that markup treats specially, as a regular expression.
pub const ESCAPED_CHARS: &'static str = "[#()\\[\\]*=_`<>/$]";

/// Each special character preceded by a backslash, as a replacement.
pub const ESCAPE_WITH: &'static str = "\\$0";

/// A character that markup treats specially.
pub open spec fn markup_special(c: char) -> bool {
    c == '#' || c == '(' || c == ')' || c == '[' || c == ']' || c == '*' || c == '='
        || c == '_' || c == '`' || c == '<' || c == '>' || c == '/' || c == '$'
}

/// Text with a backslash before each special character.
pub open spec fn escaped(s: Seq<char>) -> Seq<char>
    decreases s.len(),
{
    if s.len() == 0 {
        Seq::empty()
    } else if markup_special(s.last()) {
        escaped(s.drop_last()) + seq!['\\', s.last()]
    } else {
        escaped(s.drop_last()) + seq![s.last()]
    }
}

/// Relies on regex::Regex::new and Regex::replace_all. The pattern is one
/// class of single characters, which compiles, and in the replacement `$0`
/// is the match and `\` is itself: each character of the class gets a
/// backslash before it, every other character is kept.
#[verifier::external_body]
fn regex_replace_all(pattern: &str, text: &str, replacement: &str) -> (r: String)
    requires
        pattern@ == ESCAPED_CHARS@,
        replacement@ == ESCAPE_WITH@,
    ensures
        r@ == escaped(text@),
{
    regex::Regex::new(pattern).unwrap().replace_all(text, replacement).into_owned()
}

fn escape(s: &str) -> (r: String)
    ensures
        r@ == escaped(s@),
{
    regex_replace_all(ESCAPED_CHARS, s, ESCAPE_WITH)
}

/// The key under which a wrapper is opened, so that it can be closed.
#[derive(Clone, Copy, Debug, PartialEq, Eq, Structural)]
pub enum Wrapper {
    Emph,
    Strong,
    Size,
    Super,
    Underline,
    Sub,
    Colour,
    Tracking,
    Padding,
    AlignCenter,
    AlignRight,
    Link,
    NoJustify,
    Strike,
}

/// The markup writer's state, as values.
pub struct MarkupState {
    pub out: Seq<char>,
    /// The open wrappers, innermost last.
    pub stack: Seq<(Wrapper, Seq<char>)>,
    pub font_idx: u8,
    pub word_incomplete: bool,
    pub hyphen_at_eol: bool,
    pub hyphen_ck: bool,
    pub invisible_hyphen: bool,
}

/// `n` closing brackets.
pub open spec fn closers(n: nat) -> Seq<char> {
    Seq::new(n, |i: int| ']')
}

/// The opening of a wrapper.
pub open spec fn opener(val: Seq<char>) -> Seq<char> {
    seq!['#'] + val + seq!['[']
}

/// The openings of wrappers, outermost first.
pub open spec fn reopen(frames: Seq<(Wrapper, Seq<char>)>) -> Seq<char>
    decreases frames.len(),
{
    if frames.len() == 0 {
        Seq::empty()
    } else {
        reopen(frames.drop_last()) + opener(frames.last().1)
    }
}

/// The first index at or after `j` of a wrapper with `key`, or the length.
pub open spec fn key_from(stack: Seq<(Wrapper, Seq<char>)>, key: Wrapper, j: int) -> int
    decreases stack.len() - j,
{
    if j < 0 || j >= stack.len() {
        stack.len() as int
    } else if stack[j].0 == key {
        j
    } else {
        key_from(stack, key, j + 1)
    }
}

/// Closing the wrapper with `key`: the wrappers inside it are closed with it
/// and opened again, and it leaves the stack. Nothing happens if it is not open.
pub open spec fn pop_model(st: MarkupState, key: Wrapper) -> MarkupState {
    let n = st.stack.len();
    let i = key_from(st.stack, key, 0);
    if i >= n {
        st
    } else {
        MarkupState {
            out: st.out + closers((n - i) as nat) + reopen(st.stack.subrange(i + 1, n as int)),
            stack: st.stack.remove(i),
            ..st
        }
    }
}

/// Opening a wrapper, after closing any open one with the same key.
pub open spec fn push_model(st: MarkupState, key: Wrapper, val: Seq<char>) -> MarkupState {
    let s1 = pop_model(st, key);
    MarkupState { out: s1.out + opener(val), stack: s1.stack.push((key, val)), ..s1 }
}

/// Closing every open wrapper.
pub open spec fn pop_all_model(st: MarkupState) -> MarkupState {
    MarkupState { out: st.out + closers(st.stack.len()), stack: Seq::empty(), ..st }
}

/// The character of a decimal digit.
pub open spec fn digit(d: nat) -> char {
    ((48 + d) as u8) as char
}

/// The decimal digits of `n`.
pub open spec fn decimal(n: nat) -> Seq<char>
    decreases n,
{
    if n < 10 {
        seq![digit(n)]
    } else {
        decimal(n / 10).push(digit(n % 10))
    }
}

/// `n` hundredths written as the shortest decimal: `133` is `1.33`, `150` is
/// `1.5`, `200` is `2`.
pub open spec fn hundredths(n: nat) -> Seq<char> {
    let whole = decimal(n / 100);
    let f = n % 100;
    if f == 0 {
        whole
    } else if f % 10 == 0 {
        whole + seq!['.', digit(f / 10)]
    } else {
        whole + seq!['.', digit(f / 10), digit(f % 10)]
    }
}

/// Left-padded with zeros to two characters.
pub open spec fn pad2(s: Seq<char>) -> Seq<char> {
    if s.len() < 2 {
        seq!['0'] + s
    } else {
        s
    }
}

/// Text written onto the output.
pub open spec fn write_out(st: MarkupState, s: Seq<char>) -> MarkupState {
    MarkupState { out: st.out + s, ..st }
}

/// Some hyphen flag is set.
pub open spec fn markup_hyphenated(st: MarkupState) -> bool {
    st.hyphen_at_eol || st.hyphen_ck || st.invisible_hyphen
}

/// The wrapper value that sets a text size.
pub open spec fn size_value(em: Seq<char>) -> Seq<char> {
    "text(size: "@ + em + "em)"@
}

/// The effect of a `Word` token on the markup.
pub open spec fn markup_word(st: MarkupState, space_at_end: bool, data: Seq<u8>) -> MarkupState {
    let s = decode_word(data, st.font_idx);
    let st1 = if st.word_incomplete {
        MarkupState { word_incomplete: false, ..st }
    } else if s.len() > 0 {
        let t = if markup_hyphenated(st) {
            s
        } else {
            trim_dash_end(trim_white_end(s))
        };
        write_out(st, escaped(t))
    } else {
        st
    };
    let st2 = MarkupState { hyphen_at_eol: false, hyphen_ck: false, invisible_hyphen: false, ..st1 };
    if word_spaced(space_at_end, s) {
        write_out(st2, seq![' '])
    } else {
        st2
    }
}

/// The effect of a `FontPreset` token on the markup.
pub open spec fn preset_markup(st: MarkupState, n: u8) -> MarkupState {
    if n == 0 {
        pop_model(pop_model(pop_model(st, Wrapper::Colour), Wrapper::Strong), Wrapper::Emph)
    } else if n == 1 {
        push_model(st, Wrapper::Size, size_value("1.33"@))
    } else if n == 2 {
        push_model(st, Wrapper::Size, size_value("1.22"@))
    } else if n == 3 {
        push_model(st, Wrapper::Size, size_value("1.11"@))
    } else if n == 4 {
        push_model(push_model(st, Wrapper::Size, size_value("1"@)), Wrapper::Strong, "strong"@)
    } else if n == 5 {
        push_model(st, Wrapper::Size, size_value("1"@))
    } else if n == 6 {
        push_model(push_model(st, Wrapper::Size, size_value("1"@)), Wrapper::Emph, "emph"@)
    } else {
        st
    }
}

/// The effect of one token on the markup.
pub open spec fn markup_step(st: MarkupState, t: Token) -> MarkupState {
    match t {
        Token::Blanks(n) => write_out(st, crate::encoder::spaces(n as nat)),
        Token::Word { space_at_end, data } => markup_word(st, space_at_end, data@),
        Token::HardCarriageReturn => write_out(st, "\\\n"@),
        Token::ItalicsOn => push_model(st, Wrapper::Emph, "emph"@),
        Token::ItalicsOff => pop_model(st, Wrapper::Emph),
        Token::BoldOn => push_model(st, Wrapper::Strong, "strong"@),
        Token::BoldOff => pop_model(st, Wrapper::Strong),
        Token::FontPreset(n) => preset_markup(st, n),
        Token::Font(n) => MarkupState { font_idx: n, ..st },
        Token::SuperScriptOn => push_model(st, Wrapper::Super, "super"@),
        Token::SuperScriptOff => pop_model(st, Wrapper::Super),
        Token::HyphenAtEol => MarkupState { invisible_hyphen: true, ..st },
        Token::UnderlineOn => push_model(st, Wrapper::Underline, "underline"@),
        Token::UnderlineOff => pop_model(st, Wrapper::Underline),
        Token::OneBlank => write_out(st, seq![' ']),
        Token::PageLink { page_number, name } => if page_number != 0 {
            write_out(st, " @page"@ + decimal(page_number as nat) + seq![' '])
        } else {
            st
        },
        Token::SubscriptOn => push_model(st, Wrapper::Sub, "sub"@),
        Token::SubscriptOff => pop_model(st, Wrapper::Sub),
        Token::Color(c) => if c == 1 {
            push_model(st, Wrapper::Colour, "text(fill: gray)"@)
        } else {
            pop_model(st, Wrapper::Colour)
        },
        Token::FontSize(n) => push_model(st, Wrapper::Size, size_value(pad2(hundredths(n as nat)))),
        Token::AutoLink(page) => write_out(st, "@page"@ + decimal(page as nat)),
        Token::SoftCarriageReturn => if !markup_hyphenated(st) {
            write_out(st, seq![' '])
        } else {
            st
        },
        Token::InvisibleHyphen => MarkupState { invisible_hyphen: true, ..st },
        Token::LetterSpacingOn => push_model(st, Wrapper::Tracking, "text(tracking: 1.5pt)"@),
        Token::LetterSpacingOff => pop_model(st, Wrapper::Tracking),
        Token::HalfLineSpacing => write_out(st, seq!['\n']),
        Token::ListItemStart => write_out(st, seq!['[']),
        Token::ListItemEnd => write_out(st, seq![']']),
        Token::UnorderedListStart => write_out(st, "#list["@),
        Token::UnorderedListEnd => write_out(st, seq![']']),
        Token::SetX(n) => push_model(st, Wrapper::Padding, "pad(x: "@ + hundredths(n as nat) + "pt)"@),
        Token::CenteredOn => push_model(st, Wrapper::AlignCenter, "align(center)"@),
        Token::CenteredOff => pop_model(st, Wrapper::AlignCenter),
        Token::AlignRightOn => push_model(st, Wrapper::AlignRight, "align(right)"@),
        Token::AlignRightOff => pop_model(st, Wrapper::AlignRight),
        Token::UrlBegin(url) => push_model(st, Wrapper::Link, "link(\""@ + url.data@ + "\")"@),
        Token::UrlEnd => pop_model(st, Wrapper::Link),
        Token::NoJustifyOn => push_model(st, Wrapper::NoJustify, "par(justify: false)"@),
        Token::NoJustifyOff => pop_model(st, Wrapper::NoJustify),
        Token::WordRest { space_at_end, data } => if space_at_end {
            write_out(st, data@ + seq![' '])
        } else {
            write_out(st, data@)
        },
        Token::WordIncomplete(name) => MarkupState {
            word_incomplete: true,
            ..write_out(st, name.data@)
        },
        Token::HyphenCK => MarkupState { hyphen_ck: true, ..st },
        Token::StrikeThroughOn => push_model(st, Wrapper::Strike, "strikethrough"@),
        Token::StrikeThroughOff => pop_model(st, Wrapper::Strike),
        _ => st,
    }
}

/// Running the markup writer over tokens, up to the first `EndOfPage`.
pub open spec fn run_markup(st: MarkupState, ts: Seq<Token>) -> MarkupState
    decreases ts.len(),
{
    if ts.len() == 0 || ts[0] is EndOfPage {
        st
    } else {
        run_markup(markup_step(st, ts[0]), ts.drop_first())
    }
}

/// The heading line of a page.
pub open spec fn heading(level: u8, title: Seq<char>, page_number: nat) -> Seq<char> {
    "#align(center)[#heading(level: "@ + decimal(level as nat) + ", numbering: \"1.a.\")["@
        + escaped(title) + "] <page"@ + decimal(page_number) + ">]\n"@
}

/// The writer's state before the first token, with `out` written.
pub open spec fn markup_start(out: Seq<char>) -> MarkupState {
    MarkupState {
        out,
        stack: Seq::empty(),
        font_idx: 0,
        word_incomplete: false,
        hyphen_at_eol: false,
        hyphen_ck: false,
        invisible_hyphen: false,
    }
}

/// The markup of a page: its heading, its tokens, every wrapper closed, and a
/// page break.
pub open spec fn markup_page(level: u8, title: Seq<char>, page_number: nat, ts: Seq<Token>) -> Seq<char> {
    let st = run_markup(markup_start(heading(level, title, page_number)), ts);
    pop_all_model(st).out + "\n#pagebreak(weak: true)\n"@
}

fn digit_char(d: u64) -> (c: char)
    requires
        d < 10,
    ensures
        c == digit(d as nat),
{
    ((48 + d) as u8) as char
}

/// Appends the decimal digits of `n`.
pub fn push_decimal(s: &mut String, n: u64)
    ensures
        final(s)@ == old(s)@ + decimal(n as nat),
    decreases n,
{
    if n >= 10 {
        push_decimal(s, n / 10);
        push_char(s, digit_char(n % 10));
        assert(final(s)@ =~= old(s)@ + decimal(n as nat));
    } else {
        push_char(s, digit_char(n));
        assert(final(s)@ =~= old(s)@ + decimal(n as nat));
    }
}

/// Appends `n` hundredths as the shortest decimal.
pub fn push_hundredths(s: &mut String, n: u64)
    ensures
        final(s)@ == old(s)@ + hundredths(n as nat),
{
    push_decimal(s, n / 100);
    let f = n % 100;
    if f != 0 {
        push_char(s, '.');
        push_char(s, digit_char(f / 10));
        if f % 10 != 0 {
            push_char(s, digit_char(f % 10));
        }
    }
    assert(final(s)@ =~= old(s)@ + hundredths(n as nat));
}

/// The markup writer's state during one page.
pub struct State {
    writer: String,
    font_idx: u8,
    word_incomplete: bool,
    add_hyphen_at_eol: bool,
    add_hyphen_at_eol_separating_ck: bool,
    add_invisible_hyphen: bool,
    current_functions: Vec<(Wrapper, String)>,
}

impl View for State {
    type V = MarkupState;

    closed spec fn view(&self) -> MarkupState {
        MarkupState {
            out: self.writer@,
            stack: self.current_functions@.map_values(|f: (Wrapper, String)| (f.0, f.1@)),
            font_idx: self.font_idx,
            word_incomplete: self.word_incomplete,
            hyphen_at_eol: self.add_hyphen_at_eol,
            hyphen_ck: self.add_hyphen_at_eol_separating_ck,
            invisible_hyphen: self.add_invisible_hyphen,
        }
    }
}

impl State {
    /// A writer whose output starts with `writer`.
    pub fn new(writer: String) -> (r: State)
        ensures
            r@ == markup_start(writer@),
    {
        let r = State {
            writer,
            font_idx: 0,
            word_incomplete: false,
            add_hyphen_at_eol: false,
            add_hyphen_at_eol_separating_ck: false,
            add_invisible_hyphen: false,
            current_functions: Vec::new(),
        };
        assert(r@.stack =~= Seq::<(Wrapper, Seq<char>)>::empty());
        r
    }

    pub fn reset_hyphens(&mut self)
        ensures
            final(self)@ == (MarkupState {
                hyphen_at_eol: false,
                hyphen_ck: false,
                invisible_hyphen: false,
                ..old(self)@
            }),
    {
        self.add_hyphen_at_eol = false;
        self.add_hyphen_at_eol_separating_ck = false;
        self.add_invisible_hyphen = false;
    }

    pub fn hyphen(&self) -> (r: bool)
        ensures
            r == markup_hyphenated(self@),
    {
        self.add_hyphen_at_eol || self.add_hyphen_at_eol_separating_ck || self.add_invisible_hyphen
    }

    pub fn write_str(&mut self, s: &str)
        ensures
            final(self)@ == write_out(old(self)@, s@),
    {
        self.writer.append(s);
    }

    fn write_closers(&mut self, n: usize)
        ensures
            final(self)@ == write_out(old(self)@, closers(n as nat)),
    {
        let ghost st0 = self@;
        let mut i: usize = 0;
        while i < n
            invariant
                i <= n,
                self@ == write_out(st0, closers(i as nat)),
            decreases n - i,
        {
            proof {
                reveal_strlit("]");
            }
            self.writer.append("]");
            assert(self@.out =~= st0.out + closers((i + 1) as nat));
            i += 1;
        }
    }

    /// Closes the wrapper with `key`, closing and opening again those inside it.
    pub fn pop_state(&mut self, key: Wrapper)
        ensures
            final(self)@ == pop_model(old(self)@, key),
    {
        let ghost st0 = self@;
        let n = self.current_functions.len();
        let mut j: usize = 0;
        let mut found = false;
        while !found && j < n
            invariant
                n == self.current_functions@.len(),
                self@ == st0,
                j <= n,
                key_from(st0.stack, key, 0) == key_from(st0.stack, key, j as int),
                found ==> j < n && st0.stack[j as int].0 == key,
            decreases n - j + (if found { 0int } else { 1 }),
        {
            if self.current_functions[j].0 == key {
                found = true;
            } else {
                j += 1;
            }
        }
        if found {
            self.write_closers(n - j);
            let mut k: usize = j + 1;
            assert(st0.stack.subrange(j + 1, k as int) =~= Seq::<(Wrapper, Seq<char>)>::empty());
            while k < n
                invariant
                    n == self.current_functions@.len(),
                    j < k <= n,
                    self@ == write_out(
                        st0,
                        closers((n - j) as nat) + reopen(st0.stack.subrange(j + 1, k as int)),
                    ),
                decreases n - k,
            {
                proof {
                    reveal_strlit("#");
                    reveal_strlit("[");
                }
                self.writer.append("#");
                self.writer.append(self.current_functions[k].1.as_str());
                self.writer.append("[");
                assert(st0.stack.subrange(j + 1, k + 1).drop_last() =~= st0.stack.subrange(j + 1, k as int));
                assert(self@.out =~= st0.out + (closers((n - j) as nat) + reopen(
                    st0.stack.subrange(j + 1, k + 1),
                )));
                k += 1;
            }
            self.current_functions.remove(j);
            assert(self@.stack =~= st0.stack.remove(j as int));
            assert(self@.out =~= pop_model(st0, key).out);
        }
    }

    /// Opens a wrapper with `key` and `val`, after closing any open one with
    /// that key.
    pub fn push_state(&mut self, key: Wrapper, val: &str)
        ensures
            final(self)@ == push_model(old(self)@, key, val@),
    {
        proof {
            reveal_strlit("#");
            reveal_strlit("[");
        }
        self.pop_state(key);
        let ghost s1 = self@;
        self.current_functions.push((key, String::from_str(val)));
        self.writer.append("#");
        self.writer.append(val);
        self.writer.append("[");
        assert(self@.stack =~= s1.stack.push((key, val@)));
        assert(self@.out =~= s1.out + opener(val@));
    }

    /// Closes every open wrapper.
    pub fn pop_all_states(&mut self)
        ensures
            final(self)@ == pop_all_model(old(self)@),
    {
        let n = self.current_functions.len();
        self.write_closers(n);
        self.current_functions.clear();
        assert(self@.stack =~= Seq::<(Wrapper, Seq<char>)>::empty());
    }
}

impl State {
    fn word(&mut self, space_at_end: bool, data: &Vec<u8>)
        ensures
            final(self)@ == markup_word(old(self)@, space_at_end, data@),
    {
        let s = decode_string(data.as_slice(), self.font_idx);
        let n = s.as_str().unicode_len();
        if self.word_incomplete {
            self.word_incomplete = false;
        } else if n > 0 {
            let t = if !self.hyphen() {
                let a = trim_end(s.as_str());
                trim_end_dashes(a.as_str())
            } else {
                s.clone()
            };
            let e = escape(t.as_str());
            self.write_str(e.as_str());
        }
        self.reset_hyphens();
        if space_at_end || (n > 0 && !is_alphanumeric(s.as_str().get_char(n - 1))) {
            proof {
                reveal_strlit(" ");
            }
            assert(" "@ =~= seq![' ']);
            self.write_str(" ");
        }
    }

    fn size_wrapper(em: &str) -> (r: String)
        ensures
            r@ == size_value(em@),
    {
        let mut v = String::from_str("text(size: ");
        v.append(em);
        v.append("em)");
        assert(v@ =~= "text(size: "@ + em@ + "em)"@);
        v
    }

    /// Applies a token that opens or closes wrappers or sets flags; other
    /// tokens leave the state as it is.
    fn apply_wrapper(&mut self, t: &Token)
        requires
            !(t is Blanks || t is Word || t is HardCarriageReturn || t is OneBlank || t is PageLink
                || t is AutoLink || t is SoftCarriageReturn || t is HalfLineSpacing
                || t is ListItemStart || t is ListItemEnd || t is UnorderedListStart
                || t is UnorderedListEnd || t is WordRest || t is WordIncomplete),
        ensures
            final(self)@ == markup_step(old(self)@, *t),
    {
        match t {
            Token::ItalicsOn => self.push_state(Wrapper::Emph, "emph"),
            Token::ItalicsOff => self.pop_state(Wrapper::Emph),
            Token::BoldOn => self.push_state(Wrapper::Strong, "strong"),
            Token::BoldOff => self.pop_state(Wrapper::Strong),
            Token::FontPreset(n) => {
                if *n == 0 {
                    self.pop_state(Wrapper::Colour);
                    self.pop_state(Wrapper::Strong);
                    self.pop_state(Wrapper::Emph);
                } else if *n == 1 {
                    self.push_state(Wrapper::Size, State::size_wrapper("1.33").as_str());
                } else if *n == 2 {
                    self.push_state(Wrapper::Size, State::size_wrapper("1.22").as_str());
                } else if *n == 3 {
                    self.push_state(Wrapper::Size, State::size_wrapper("1.11").as_str());
                } else if *n == 4 {
                    self.push_state(Wrapper::Size, State::size_wrapper("1").as_str());
                    self.push_state(Wrapper::Strong, "strong");
                } else if *n == 5 {
                    self.push_state(Wrapper::Size, State::size_wrapper("1").as_str());
                } else if *n == 6 {
                    self.push_state(Wrapper::Size, State::size_wrapper("1").as_str());
                    self.push_state(Wrapper::Emph, "emph");
                }
            },
            Token::Font(n) => self.font_idx = *n,
            Token::SuperScriptOn => self.push_state(Wrapper::Super, "super"),
            Token::SuperScriptOff => self.pop_state(Wrapper::Super),
            Token::HyphenAtEol => self.add_invisible_hyphen = true,
            Token::UnderlineOn => self.push_state(Wrapper::Underline, "underline"),
            Token::UnderlineOff => self.pop_state(Wrapper::Underline),
            Token::SubscriptOn => self.push_state(Wrapper::Sub, "sub"),
            Token::SubscriptOff => self.pop_state(Wrapper::Sub),
            Token::Color(c) => {
                if *c == 1 {
                    self.push_state(Wrapper::Colour, "text(fill: gray)");
                } else {
                    self.pop_state(Wrapper::Colour);
                }
            },
            Token::FontSize(n) => {
                let mut h = String::new();
                push_hundredths(&mut h, *n as u64);
                let mut em = String::new();
                if h.as_str().unicode_len() < 2 {
                    proof {
                        reveal_strlit("0");
                    }
                    em.append("0");
                }
                em.append(h.as_str());
                assert(em@ =~= pad2(hundredths(*n as nat)));
                self.push_state(Wrapper::Size, State::size_wrapper(em.as_str()).as_str());
            },
            Token::InvisibleHyphen => self.add_invisible_hyphen = true,
            Token::LetterSpacingOn => self.push_state(Wrapper::Tracking, "text(tracking: 1.5pt)"),
            Token::LetterSpacingOff => self.pop_state(Wrapper::Tracking),
            Token::SetX(n) => {
                let mut v = String::from_str("pad(x: ");
                push_hundredths(&mut v, *n as u64);
                v.append("pt)");
                assert(v@ =~= "pad(x: "@ + hundredths(*n as nat) + "pt)"@);
                self.push_state(Wrapper::Padding, v.as_str());
            },
            Token::CenteredOn => self.push_state(Wrapper::AlignCenter, "align(center)"),
            Token::CenteredOff => self.pop_state(Wrapper::AlignCenter),
            Token::AlignRightOn => self.push_state(Wrapper::AlignRight, "align(right)"),
            Token::AlignRightOff => self.pop_state(Wrapper::AlignRight),
            Token::UrlBegin(url) => {
                let mut v = String::from_str("link(\"");
                v.append(url.data.as_str());
                v.append("\")");
                assert(v@ =~= "link(\""@ + url.data@ + "\")"@);
                self.push_state(Wrapper::Link, v.as_str());
            },
            Token::UrlEnd => self.pop_state(Wrapper::Link),
            Token::NoJustifyOn => self.push_state(Wrapper::NoJustify, "par(justify: false)"),
            Token::NoJustifyOff => self.pop_state(Wrapper::NoJustify),
            Token::HyphenCK => self.add_hyphen_at_eol_separating_ck = true,
            Token::StrikeThroughOn => self.push_state(Wrapper::Strike, "strikethrough"),
            Token::StrikeThroughOff => self.pop_state(Wrapper::Strike),
            _ => {},
        }
    }

    /// Applies one token to the markup.
    pub fn apply(&mut self, t: &Token)
        ensures
            final(self)@ == markup_step(old(self)@, *t),
    {
        proof {
            reveal_strlit(" ");
            reveal_strlit("\n");
            reveal_strlit("[");
            reveal_strlit("]");
        }
        assert(" "@ =~= seq![' ']);
        assert("\n"@ =~= seq!['\n']);
        assert("["@ =~= seq!['[']);
        assert("]"@ =~= seq![']']);
        let ghost st0 = self@;
        match t {
            Token::Blanks(n) => {
                let s = crate::encoder::blank_string(*n);
                self.write_str(s.as_str());
            },
            Token::Word { space_at_end, data } => self.word(*space_at_end, data),
            Token::HardCarriageReturn => self.write_str("\\\n"),
            Token::OneBlank => self.write_str(" "),
            Token::PageLink { page_number, name: _ } => {
                if *page_number != 0 {
                    let mut v = String::from_str(" @page");
                    push_decimal(&mut v, *page_number as u64);
                    v.append(" ");
                    assert(v@ =~= " @page"@ + decimal(*page_number as nat) + seq![' ']);
                    self.write_str(v.as_str());
                }
            },
            Token::AutoLink(page) => {
                let mut v = String::from_str("@page");
                push_decimal(&mut v, *page as u64);
                self.write_str(v.as_str());
            },
            Token::SoftCarriageReturn => {
                if !self.hyphen() {
                    self.write_str(" ");
                }
            },
            Token::HalfLineSpacing => self.write_str("\n"),
            Token::ListItemStart => self.write_str("["),
            Token::ListItemEnd => self.write_str("]"),
            Token::UnorderedListStart => self.write_str("#list["),
            Token::UnorderedListEnd => self.write_str("]"),
            Token::WordRest { space_at_end, data } => {
                self.write_str(data.as_str());
                if *space_at_end {
                    self.write_str(" ");
                    assert(self@.out =~= st0.out + (data@ + seq![' ']));
                }
            },
            Token::WordIncomplete(word) => {
                self.write_str(word.data.as_str());
                self.word_incomplete = true;
            },
            _ => self.apply_wrapper(t),
        }
    }
}

/// Writes the markup of one page: its heading, its tokens up to the first
/// `EndOfPage`, every wrapper closed, and a page break.
pub fn write_page(tocitem: &TocItem, page_number: usize, lexed: &[Token]) -> (r: String)
    ensures
        r@ == markup_page(tocitem.level, tocitem.title@, page_number as nat, lexed@),
{
    let title = escape(tocitem.title.as_str());
    let mut head = String::from_str("#align(center)[#heading(level: ");
    push_decimal(&mut head, tocitem.level as u64);
    head.append(", numbering: \"1.a.\")[");
    head.append(title.as_str());
    head.append("] <page");
    push_decimal(&mut head, page_number as u64);
    head.append(">]\n");
    assert(head@ =~= heading(tocitem.level, tocitem.title@, page_number as nat));
    let mut state = State::new(head);
    let n = lexed.len();
    let mut i: usize = 0;
    let mut finished = false;
    let ghost start = state@;
    assert(lexed@.subrange(0, n as int) =~= lexed@);
    while !finished && i < n
        invariant
            n == lexed@.len(),
            i <= n,
            start == markup_start(heading(tocitem.level, tocitem.title@, page_number as nat)),
            !finished ==> run_markup(state@, lexed@.subrange(i as int, n as int)) == run_markup(
                start,
                lexed@,
            ),
            finished ==> state@ == run_markup(start, lexed@),
        decreases n - i + (if finished { 0int } else { 1 }),
    {
        let t = &lexed[i];
        let ghost rest = lexed@.subrange(i as int, n as int);
        assert(rest[0] == *t);
        assert(rest.drop_first() =~= lexed@.subrange(i + 1, n as int));
        if let Token::EndOfPage = t {
            finished = true;
        } else {
            state.apply(t);
            i += 1;
        }
    }
    if !finished {
        assert(lexed@.subrange(i as int, n as int) =~= Seq::<Token>::empty());
    }
    state.pop_all_states();
    state.write_str("\n#pagebreak(weak: true)\n");
    state.writer
}

/// The index of the first alphanumeric character of `s` at or after `j`, or
/// the length.
pub open spec fn first_alnum_from(s: Seq<char>, j: int) -> int
    decreases s.len() - j,
{
    if j < 0 || j >= s.len() {
        s.len() as int
    } else if alphanumeric(s[j]) {
        j
    } else {
        first_alnum_from(s, j + 1)
    }
}

/// The index of the last alphanumeric character of `s` before `j`, or -1.
pub open spec fn last_alnum_before(s: Seq<char>, j: int) -> int
    decreases j,
{
    if j <= 0 || j > s.len() {
        -1
    } else if alphanumeric(s[j - 1]) {
        j - 1
    } else {
        last_alnum_before(s, j - 1)
    }
}

/// The number of characters of `s` that are not alphanumeric.
pub open spec fn non_alnum_count(s: Seq<char>) -> nat
    decreases s.len(),
{
    if s.len() == 0 {
        0
    } else {
        non_alnum_count(s.drop_last()) + if alphanumeric(s.last()) {
            0nat
        } else {
            1nat
        }
    }
}

/// The delimiters of a word: the non-alphanumeric characters strictly
/// between its first and its last alphanumeric character, plus one for the
/// word's end when it has an alphanumeric character and no hyphen follows.
pub open spec fn delimiter_count(s: Seq<char>, hyphen: bool) -> nat {
    let f = first_alnum_from(s, 0);
    let l = last_alnum_before(s, s.len() as int);
    let v: nat = if !hyphen && f < s.len() {
        1
    } else {
        0
    };
    v + if f < l {
        non_alnum_count(s.subrange(f + 1, l))
    } else {
        0
    }
}

/// Counts the delimiters of a word.
pub fn count_delimeters(s: &str, hyphen: bool) -> (r: usize)
    ensures
        r == delimiter_count(s@, hyphen),
{
    let n = s.unicode_len();
    let mut f: usize = 0;
    let mut found = false;
    while !found && f < n
        invariant
            n == s@.len(),
            f <= n,
            first_alnum_from(s@, 0) == first_alnum_from(s@, f as int),
            found ==> f < n && alphanumeric(s@[f as int]),
        decreases n - f + (if found { 0int } else { 1 }),
    {
        if is_alphanumeric(s.get_char(f)) {
            found = true;
        } else {
            f += 1;
        }
    }
    let mut l: usize = n;
    let mut found_last = false;
    while !found_last && l > 0
        invariant
            n == s@.len(),
            l <= n,
            last_alnum_before(s@, n as int) == last_alnum_before(s@, l as int),
            found_last ==> l > 0 && alphanumeric(s@[l - 1]),
        decreases l + (if found_last { 0int } else { 1 }),
    {
        if is_alphanumeric(s.get_char(l - 1)) {
            found_last = true;
        } else {
            l -= 1;
        }
    }
    let v: usize = if !hyphen && f < n {
        1
    } else {
        0
    };
    let mut count: usize = 0;
    if found_last && f < l && l - f > 1 {
        let lo = f + 1;
        let hi = l - 1;
        let mut k: usize = lo;
        assert(s@.subrange(lo as int, lo as int) =~= Seq::<char>::empty());
        while k < hi
            invariant
                n == s@.len(),
                lo <= k <= hi < n,
                count == non_alnum_count(s@.subrange(lo as int, k as int)),
                count <= k - lo,
            decreases hi - k,
        {
            assert(s@.subrange(lo as int, k + 1).drop_last() =~= s@.subrange(lo as int, k as int));
            if !is_alphanumeric(s.get_char(k)) {
                count += 1;
            }
            k += 1;
        }
    }
    v + count
}

} // verus!
