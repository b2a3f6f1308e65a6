//! The tokens of a page payload and their byte encoding.
use vstd::prelude::*;
use crate::decoding::{cp1252_decode, decode_cp1252};
use vstd::slice::{slice_subrange, slice_to_vec};

verus! {

/// A length-prefixed string in the legacy code page.
#[derive(Debug, Clone, PartialEq, Eq)]
pub struct Name {
    pub data: String,
}

/// One opcode record of a page payload.
#[derive(Debug, Clone, PartialEq, Eq)]
pub enum Token {
    Blanks(u8),
    Word { space_at_end: bool, data: Vec<u8> },
    HardCarriageReturn,
    EndOfPage,
    ItalicsOn,
    ItalicsOff,
    BoldOn,
    BoldOff,
    FontPreset(u8),
    Ly,
    Image { width: u32, name: Name },
    ImageLink(Name),
    EndLink,
    Font(u8),
    FileName(Name),
    Concordance(u16),
    NodeNumber(u16),
    SuperScriptOn,
    SuperScriptOff,
    Sigil(Name),
    Header,
    HyphenAtEol,
    UnderlineOn,
    UnderlineOff,
    GreekOn,
    GreekOff,
    OneBlank,
    VerticalLineOn,
    VerticalLineOff,
    TD,
    Null,
    PageLink { page_number: u32, name: Name },
    IDStart(u8),
    IDEnd(u8),
    SubscriptOn,
    SubscriptOff,
    Color(u8),
    InlineImage { width: u16, height: u16, name: Name },
    SearchWord(Name),
    FontSize(u8),
    Copyright(u8),
    AutoLink(u32),
    SoftCarriageReturn,
    InvisibleHyphen,
    LetterSpacingOn,
    LetterSpacingOff,
    HalfLineSpacing,
    ListItemStart,
    ListItemEnd,
    UnorderedListStart,
    UnorderedListEnd,
    SetX(u16),
    SV(u64),
    SVLemmaBegin(Name),
    SVLemmaStop,
    CenteredOn,
    CenteredOff,
    AlignRightOn,
    AlignRightOff,
    EOn,
    EOff,
    BibIndex(u32),
    NotFirstLine,
    Thumb,
    EndNew([u8; 3]),
    UrlBegin(Name),
    UrlEnd,
    WordAnchor,
    ThumbWWW,
    S,
    NoJustifyOn,
    NoJustifyOff,
    NextBlankFixed,
    WordRest { space_at_end: bool, data: String },
    WordIncomplete(Name),
    HyphenCK,
    HebrewOn,
    HebrewOff,
    NodeNumber2(u32),
    StrikeThroughOn,
    StrikeThroughOff,
    SetY(u16),
    Cor(u32),
    EndCor,
    DashedLine,
    Unknown { raw: Vec<u8>, decoded: String },
}

/// Little-endian unsigned integer of `n` bytes at `p`.
pub open spec fn le_uint(d: Seq<u8>, p: int, n: nat) -> int
    decreases n,
{
    if n == 0 {
        0
    } else {
        d[p] as int + 256 * le_uint(d, p + 1, (n - 1) as nat)
    }
}

/// The number of bytes that a `Name` at `p` takes, its length byte included.
pub open spec fn name_len(d: Seq<u8>, p: int) -> int {
    if 0 <= p < d.len() {
        1 + d[p] as int
    } else {
        1
    }
}

/// `n` is the `Name` encoded at `p`.
pub open spec fn name_at(d: Seq<u8>, p: int, n: Name) -> bool {
    n.data@ == cp1252_decode(d.subrange(p + 1, p + 1 + d[p] as int))
}

/// Number of operand bytes of a fixed-size operand list, by opcode; `None`
/// for opcodes whose operands end in a `Name`, or that are not known.
pub open spec fn fixed_operands(op: u8) -> Option<int> {
    if op == 0x00 || op == 0x08 || op == 0x0D || op == 0x81 || op == 0x82 || op == 0x85
        || op == 0x88 || op == 0x89 {
        Some(1)
    } else if op == 0x0F || op == 0x10 || op == 0x94 || op == 0xB2 {
        Some(2)
    } else if op == 0xA1 {
        Some(3)
    } else if op == 0x8A || op == 0x9E || op == 0xAF || op == 0xB3 {
        Some(4)
    } else if op == 0x95 {
        Some(8)
    } else if (0x02 <= op <= 0x07) || op == 0x09 || op == 0x0C || op == 0x11 || op == 0x12
        || op == 0x14 || (0x15 <= op <= 0x19) || (0x1B <= op <= 0x1F) || op == 0x83
        || op == 0x84 || (0x8B <= op <= 0x93) || (0x97 <= op <= 0x9D) || op == 0x9F
        || op == 0xA0 || (0xA3 <= op <= 0xA9) || (0xAC <= op <= 0xAE) || op == 0xB0
        || op == 0xB1 || op == 0xB4 || op == 0xEC {
        Some(0)
    } else {
        None
    }
}

/// Number of fixed operand bytes that precede the `Name` of an opcode whose
/// operands end in one.
pub open spec fn name_operand_offset(op: u8) -> Option<int> {
    if op == 0x0B || op == 0x0E || op == 0x13 || op == 0x87 || op == 0x96 || op == 0xA2
        || op == 0xAB {
        Some(0)
    } else if op == 0x0A || op == 0x80 {
        Some(4)
    } else if op == 0x86 {
        Some(4)
    } else {
        None
    }
}

/// The opcode is in the table.
pub open spec fn known_opcode(op: u8) -> bool {
    fixed_operands(op) is Some || name_operand_offset(op) is Some || op == 0x01 || op == 0xAA
}

/// The number of bytes that the token whose opcode stands at `p` takes, the
/// opcode included. It may reach beyond the end of `d`.
pub open spec fn token_len(d: Seq<u8>, p: int) -> int
    recommends
        0 <= p < d.len(),
        known_opcode(d[p]),
{
    let op = d[p];
    if op == 0x01 {
        if p + 1 < d.len() {
            2 + (d[p + 1] % 128) as int
        } else {
            2
        }
    } else if op == 0xAA {
        if p + 1 < d.len() {
            2 + d[p + 1] as int
        } else {
            2
        }
    } else if fixed_operands(op) is Some {
        1 + fixed_operands(op)->0
    } else {
        let k = name_operand_offset(op)->0;
        1 + k + name_len(d, p + 1 + k)
    }
}

/// `t` is the token encoded at `p`, whose opcode is known and whose bytes
/// lie within `d`.
pub open spec fn token_at(d: Seq<u8>, p: int, t: Token) -> bool {
    let op = d[p];
    let a = p + 1;
    if op == 0x00 { t == Token::Blanks(d[a]) }
    else if op == 0x01 {
        &&& t is Word
        &&& t->Word_space_at_end == (d[a] >= 128)
        &&& t->Word_data@ == d.subrange(a + 1, a + 1 + (d[a] % 128) as int)
    }
    else if op == 0x02 { t == Token::HardCarriageReturn }
    else if op == 0x03 { t == Token::EndOfPage }
    else if op == 0x04 { t == Token::ItalicsOn }
    else if op == 0x05 { t == Token::ItalicsOff }
    else if op == 0x06 { t == Token::BoldOn }
    else if op == 0x07 { t == Token::BoldOff }
    else if op == 0x08 { t == Token::FontPreset(d[a]) }
    else if op == 0x09 { t == Token::Ly }
    else if op == 0x0A {
        &&& t is Image
        &&& t->Image_width as int == le_uint(d, a, 4)
        &&& name_at(d, a + 4, t->Image_name)
    }
    else if op == 0x0B { t is ImageLink && name_at(d, a, t->ImageLink_0) }
    else if op == 0x0C { t == Token::EndLink }
    else if op == 0x0D { t == Token::Font(d[a]) }
    else if op == 0x0E { t is FileName && name_at(d, a, t->FileName_0) }
    else if op == 0x0F { t is Concordance && t->Concordance_0 as int == le_uint(d, a, 2) }
    else if op == 0x10 { t is NodeNumber && t->NodeNumber_0 as int == le_uint(d, a, 2) }
    else if op == 0x11 { t == Token::SuperScriptOn }
    else if op == 0x12 { t == Token::SuperScriptOff }
    else if op == 0x13 { t is Sigil && name_at(d, a, t->Sigil_0) }
    else if op == 0x14 { t == Token::Header }
    else if op == 0x15 { t == Token::HyphenAtEol }
    else if op == 0x16 { t == Token::UnderlineOn }
    else if op == 0x17 { t == Token::UnderlineOff }
    else if op == 0x18 { t == Token::GreekOn }
    else if op == 0x19 { t == Token::GreekOff }
    else if op == 0x1B { t == Token::OneBlank }
    else if op == 0x1C { t == Token::VerticalLineOn }
    else if op == 0x1D { t == Token::VerticalLineOff }
    else if op == 0x1E { t == Token::TD }
    else if op == 0x1F { t == Token::Null }
    else if op == 0x80 {
        &&& t is PageLink
        &&& t->PageLink_page_number as int == le_uint(d, a, 4)
        &&& name_at(d, a + 4, t->PageLink_name)
    }
    else if op == 0x81 { t == Token::IDStart(d[a]) }
    else if op == 0x82 { t == Token::IDEnd(d[a]) }
    else if op == 0x83 { t == Token::SubscriptOn }
    else if op == 0x84 { t == Token::SubscriptOff }
    else if op == 0x85 { t == Token::Color(d[a]) }
    else if op == 0x86 {
        &&& t is InlineImage
        &&& t->InlineImage_width as int == le_uint(d, a, 2)
        &&& t->InlineImage_height as int == le_uint(d, a + 2, 2)
        &&& name_at(d, a + 4, t->InlineImage_name)
    }
    else if op == 0x87 { t is SearchWord && name_at(d, a, t->SearchWord_0) }
    else if op == 0x88 { t == Token::FontSize(d[a]) }
    else if op == 0x89 { t == Token::Copyright(d[a]) }
    else if op == 0x8A { t is AutoLink && t->AutoLink_0 as int == le_uint(d, a, 4) }
    else if op == 0x8B { t == Token::SoftCarriageReturn }
    else if op == 0x8C { t == Token::InvisibleHyphen }
    else if op == 0x8D { t == Token::LetterSpacingOn }
    else if op == 0x8E { t == Token::LetterSpacingOff }
    else if op == 0x8F { t == Token::HalfLineSpacing }
    else if op == 0x90 { t == Token::ListItemStart }
    else if op == 0x91 { t == Token::ListItemEnd }
    else if op == 0x92 { t == Token::UnorderedListStart }
    else if op == 0x93 { t == Token::UnorderedListEnd }
    else if op == 0x94 { t is SetX && t->SetX_0 as int == le_uint(d, a, 2) }
    else if op == 0x95 { t is SV && t->SV_0 as int == le_uint(d, a, 8) }
    else if op == 0x96 { t is SVLemmaBegin && name_at(d, a, t->SVLemmaBegin_0) }
    else if op == 0x97 { t == Token::SVLemmaStop }
    else if op == 0x98 { t == Token::CenteredOn }
    else if op == 0x99 { t == Token::CenteredOff }
    else if op == 0x9A { t == Token::AlignRightOn }
    else if op == 0x9B { t == Token::AlignRightOff }
    else if op == 0x9C { t == Token::EOn }
    else if op == 0x9D { t == Token::EOff }
    else if op == 0x9E { t is BibIndex && t->BibIndex_0 as int == le_uint(d, a, 4) }
    else if op == 0x9F { t == Token::NotFirstLine }
    else if op == 0xA0 { t == Token::Thumb }
    else if op == 0xA1 {
        &&& t is EndNew
        &&& t->EndNew_0@ == d.subrange(a, a + 3)
    }
    else if op == 0xA2 { t is UrlBegin && name_at(d, a, t->UrlBegin_0) }
    else if op == 0xA3 { t == Token::UrlEnd }
    else if op == 0xA4 { t == Token::WordAnchor }
    else if op == 0xA5 { t == Token::ThumbWWW }
    else if op == 0xA6 { t == Token::S }
    else if op == 0xA7 { t == Token::NoJustifyOn }
    else if op == 0xA8 { t == Token::NoJustifyOff }
    else if op == 0xA9 { t == Token::NextBlankFixed }
    else if op == 0xAA {
        &&& t is WordRest
        &&& t->WordRest_space_at_end == (d[a] >= 128)
        &&& t->WordRest_data@ == cp1252_decode(d.subrange(a + 1, a + 1 + d[a] as int))
    }
    else if op == 0xAB { t is WordIncomplete && name_at(d, a, t->WordIncomplete_0) }
    else if op == 0xAC { t == Token::HyphenCK }
    else if op == 0xAD { t == Token::HebrewOn }
    else if op == 0xAE { t == Token::HebrewOff }
    else if op == 0xAF { t is NodeNumber2 && t->NodeNumber2_0 as int == le_uint(d, a, 4) }
    else if op == 0xB0 { t == Token::StrikeThroughOn }
    else if op == 0xB1 { t == Token::StrikeThroughOff }
    else if op == 0xB2 { t is SetY && t->SetY_0 as int == le_uint(d, a, 2) }
    else if op == 0xB3 { t is Cor && t->Cor_0 as int == le_uint(d, a, 4) }
    else if op == 0xB4 { t == Token::EndCor }
    else if op == 0xEC { t == Token::DashedLine }
    else { false }
}

/// What reading a token at a position gives.
pub enum ReadOutcome {
    /// The token and the number of bytes it took.
    Token(Token, usize),
    /// The opcode is not in the table.
    UnknownOpcode,
    /// The opcode is known but its operands run past the end of the input.
    Truncated,
}

pub fn read_u16(d: &[u8], p: usize) -> (r: u16)
    requires
        p + 2 <= d@.len(),
    ensures
        r as int == le_uint(d@, p as int, 2),
{
    proof {
        reveal_with_fuel(le_uint, 3);
    }
    d[p] as u16 + 256 * (d[p + 1] as u16)
}

pub fn read_u32(d: &[u8], p: usize) -> (r: u32)
    requires
        p + 4 <= d@.len(),
    ensures
        r as int == le_uint(d@, p as int, 4),
{
    proof {
        reveal_with_fuel(le_uint, 5);
    }
    d[p] as u32 + 256 * (d[p + 1] as u32 + 256 * (d[p + 2] as u32 + 256 * (d[p + 3] as u32)))
}

fn read_u64(d: &[u8], p: usize) -> (r: u64)
    requires
        p + 8 <= d@.len(),
    ensures
        r as int == le_uint(d@, p as int, 8),
{
    assert(d@.len() == d.len());
    proof {
        reveal_with_fuel(pow256, 5);
    }
    let lo = read_u32(d, p) as u64;
    let hi = read_u32(d, p + 4) as u64;
    proof {
        lemma_le_uint_split(d@, p as int, 4, 4);
    }
    lo + 4294967296 * hi
}

proof fn lemma_le_uint_split(d: Seq<u8>, p: int, m: nat, n: nat)
    ensures
        le_uint(d, p, m + n) == le_uint(d, p, m) + pow256(m) * le_uint(d, p + m, n),
    decreases m,
{
    if m > 0 {
        lemma_le_uint_split(d, p + 1, (m - 1) as nat, n);
        assert(le_uint(d, p, m + n) == d[p] as int + 256 * le_uint(d, p + 1, (m + n - 1) as nat));
        assert((m - 1 + n) as nat == (m + n - 1) as nat);
        assert(256 * (pow256((m - 1) as nat) * le_uint(d, p + 1 + (m - 1), n)) == (256
            * pow256((m - 1) as nat)) * le_uint(d, p + m, n)) by (nonlinear_arith);
    }
}

/// `256` to the power `n`.
pub open spec fn pow256(n: nat) -> int
    decreases n,
{
    if n == 0 {
        1
    } else {
        256 * pow256((n - 1) as nat)
    }
}

fn read_name(d: &[u8], p: usize) -> (n: Name)
    requires
        p < d@.len(),
        p + 1 + d@[p as int] <= d@.len(),
    ensures
        name_at(d@, p as int, n),
{
    let ghost _len = d@.len();
    assert(d@.len() == d.len());
    let len = d[p] as usize;
    Name { data: decode_cp1252(slice_subrange(d, p + 1, p + 1 + len)) }
}

/// The number of bytes of the token whose opcode stands at `p`, or `None`
/// where the opcode is not in the table.
pub fn opcode_len(d: &[u8], p: usize) -> (r: Option<usize>)
    requires
        p < d@.len(),
    ensures
        r is None <==> !known_opcode(d@[p as int]),
        r is Some ==> r->0 == token_len(d@, p as int),
{
    let ghost _len = d@.len();
    assert(d@.len() == d.len());
    let op = d[p];
    if op == 0x01 {
        if p + 1 < d.len() {
            Some(2 + (d[p + 1] % 128) as usize)
        } else {
            Some(2)
        }
    } else if op == 0xAA {
        if p + 1 < d.len() {
            Some(2 + d[p + 1] as usize)
        } else {
            Some(2)
        }
    } else if op == 0x00 || op == 0x08 || op == 0x0D || op == 0x81 || op == 0x82 || op == 0x85
        || op == 0x88 || op == 0x89 {
        Some(2)
    } else if op == 0x0F || op == 0x10 || op == 0x94 || op == 0xB2 {
        Some(3)
    } else if op == 0xA1 {
        Some(4)
    } else if op == 0x8A || op == 0x9E || op == 0xAF || op == 0xB3 {
        Some(5)
    } else if op == 0x95 {
        Some(9)
    } else if (0x02 <= op && op <= 0x07) || op == 0x09 || op == 0x0C || op == 0x11 || op == 0x12
        || op == 0x14 || (0x15 <= op && op <= 0x19) || (0x1B <= op && op <= 0x1F) || op == 0x83
        || op == 0x84 || (0x8B <= op && op <= 0x93) || (0x97 <= op && op <= 0x9D) || op == 0x9F
        || op == 0xA0 || (0xA3 <= op && op <= 0xA9) || (0xAC <= op && op <= 0xAE) || op == 0xB0
        || op == 0xB1 || op == 0xB4 || op == 0xEC {
        Some(1)
    } else {
        let k: usize = if op == 0x0B || op == 0x0E || op == 0x13 || op == 0x87 || op == 0x96
            || op == 0xA2 || op == 0xAB {
            0
        } else if op == 0x0A || op == 0x80 || op == 0x86 {
            4
        } else {
            return None;
        };
        if k + 1 < d.len() - p {
            Some(2 + k + d[p + 1 + k] as usize)
        } else {
            Some(2 + k)
        }
    }
}

fn decode_low(d: &[u8], p: usize) -> (t: Token)
    requires
        p < d@.len(),
        d@[p as int] < 0x80,
        known_opcode(d@[p as int]),
        p + token_len(d@, p as int) <= d@.len(),
    ensures
        token_at(d@, p as int, t),
{
    let ghost _len = d@.len();
    assert(d@.len() == d.len());
    let a = p + 1;
    match d[p] {
        0x00 => Token::Blanks(d[a]),
        0x01 => {
            let n = (d[a] % 128) as usize;
            Token::Word {
                space_at_end: d[a] >= 128,
                data: slice_to_vec(slice_subrange(d, a + 1, a + 1 + n)),
            }
        },
        0x02 => Token::HardCarriageReturn,
        0x03 => Token::EndOfPage,
        0x04 => Token::ItalicsOn,
        0x05 => Token::ItalicsOff,
        0x06 => Token::BoldOn,
        0x07 => Token::BoldOff,
        0x08 => Token::FontPreset(d[a]),
        0x09 => Token::Ly,
        0x0A => Token::Image { width: read_u32(d, a), name: read_name(d, a + 4) },
        0x0B => Token::ImageLink(read_name(d, a)),
        0x0C => Token::EndLink,
        0x0D => Token::Font(d[a]),
        0x0E => Token::FileName(read_name(d, a)),
        0x0F => Token::Concordance(read_u16(d, a)),
        0x10 => Token::NodeNumber(read_u16(d, a)),
        0x11 => Token::SuperScriptOn,
        0x12 => Token::SuperScriptOff,
        0x13 => Token::Sigil(read_name(d, a)),
        0x14 => Token::Header,
        0x15 => Token::HyphenAtEol,
        0x16 => Token::UnderlineOn,
        0x17 => Token::UnderlineOff,
        0x18 => Token::GreekOn,
        0x19 => Token::GreekOff,
        0x1B => Token::OneBlank,
        0x1C => Token::VerticalLineOn,
        0x1D => Token::VerticalLineOff,
        0x1E => Token::TD,
        _ => Token::Null,
    }
}

fn decode_high(d: &[u8], p: usize) -> (t: Token)
    requires
        p < d@.len(),
        d@[p as int] >= 0x80,
        known_opcode(d@[p as int]),
        p + token_len(d@, p as int) <= d@.len(),
    ensures
        token_at(d@, p as int, t),
{
    let ghost _len = d@.len();
    assert(d@.len() == d.len());
    let a = p + 1;
    match d[p] {
        0x80 => Token::PageLink { page_number: read_u32(d, a), name: read_name(d, a + 4) },
        0x81 => Token::IDStart(d[a]),
        0x82 => Token::IDEnd(d[a]),
        0x83 => Token::SubscriptOn,
        0x84 => Token::SubscriptOff,
        0x85 => Token::Color(d[a]),
        0x86 => Token::InlineImage {
            width: read_u16(d, a),
            height: read_u16(d, a + 2),
            name: read_name(d, a + 4),
        },
        0x87 => Token::SearchWord(read_name(d, a)),
        0x88 => Token::FontSize(d[a]),
        0x89 => Token::Copyright(d[a]),
        0x8A => Token::AutoLink(read_u32(d, a)),
        0x8B => Token::SoftCarriageReturn,
        0x8C => Token::InvisibleHyphen,
        0x8D => Token::LetterSpacingOn,
        0x8E => Token::LetterSpacingOff,
        0x8F => Token::HalfLineSpacing,
        0x90 => Token::ListItemStart,
        0x91 => Token::ListItemEnd,
        0x92 => Token::UnorderedListStart,
        0x93 => Token::UnorderedListEnd,
        0x94 => Token::SetX(read_u16(d, a)),
        0x95 => Token::SV(read_u64(d, a)),
        0x96 => Token::SVLemmaBegin(read_name(d, a)),
        0x97 => Token::SVLemmaStop,
        0x98 => Token::CenteredOn,
        0x99 => Token::CenteredOff,
        0x9A => Token::AlignRightOn,
        0x9B => Token::AlignRightOff,
        0x9C => Token::EOn,
        0x9D => Token::EOff,
        0x9E => Token::BibIndex(read_u32(d, a)),
        0x9F => Token::NotFirstLine,
        0xA0 => Token::Thumb,
        0xA1 => {
            let b = [d[a], d[a + 1], d[a + 2]];
            assert(b@ =~= d@.subrange(a as int, a + 3));
            Token::EndNew(b)
        },
        0xA2 => Token::UrlBegin(read_name(d, a)),
        0xA3 => Token::UrlEnd,
        0xA4 => Token::WordAnchor,
        0xA5 => Token::ThumbWWW,
        0xA6 => Token::S,
        0xA7 => Token::NoJustifyOn,
        0xA8 => Token::NoJustifyOff,
        0xA9 => Token::NextBlankFixed,
        0xAA => {
            let n = d[a] as usize;
            Token::WordRest {
                space_at_end: d[a] >= 128,
                data: decode_cp1252(slice_subrange(d, a + 1, a + 1 + n)),
            }
        },
        0xAB => Token::WordIncomplete(read_name(d, a)),
        0xAC => Token::HyphenCK,
        0xAD => Token::HebrewOn,
        0xAE => Token::HebrewOff,
        0xAF => Token::NodeNumber2(read_u32(d, a)),
        0xB0 => Token::StrikeThroughOn,
        0xB1 => Token::StrikeThroughOff,
        0xB2 => Token::SetY(read_u16(d, a)),
        0xB3 => Token::Cor(read_u32(d, a)),
        0xB4 => Token::EndCor,
        _ => Token::DashedLine,
    }
}

/// Reads the token whose opcode stands at `p`.
pub fn read_token(d: &[u8], p: usize) -> (r: ReadOutcome)
    requires
        p < d@.len(),
    ensures
        r is UnknownOpcode <==> !known_opcode(d@[p as int]),
        r is Truncated <==> known_opcode(d@[p as int]) && p + token_len(d@, p as int) > d@.len(),
        r matches ReadOutcome::Token(t, n) ==> {
            &&& known_opcode(d@[p as int])
            &&& n == token_len(d@, p as int)
            &&& p + n <= d@.len()
            &&& token_at(d@, p as int, t)
        },
{
    match opcode_len(d, p) {
        None => ReadOutcome::UnknownOpcode,
        Some(n) => {
            if n > d.len() - p {
                ReadOutcome::Truncated
            } else if d[p] < 0x80 {
                ReadOutcome::Token(decode_low(d, p), n)
            } else {
                ReadOutcome::Token(decode_high(d, p), n)
            }
        },
    }
}

} // verus!
