//! Pages of the text file: the page table, page records and the lexer.
use vstd::prelude::*;
use crate::decoding::{decode_utf8_lossy, utf8_lossy};
use crate::token::{known_opcode, le_uint, read_token, read_u16, read_u32, token_at, token_len, ReadOutcome, Token};

verus! {

/// One entry of what the lexer yields, by where it comes from.
pub enum LexItem {
    /// The token whose opcode stands at this position.
    At(int),
    /// A run of bytes with unknown opcodes.
    Unrecognised(Seq<u8>),
}

/// The pending unknown bytes, as an entry if there are any.
pub open spec fn flush(pending: Seq<u8>) -> Seq<LexItem> {
    if pending.len() == 0 {
        Seq::empty()
    } else {
        seq![LexItem::Unrecognised(pending)]
    }
}

/// What the lexer yields from position `p` on, with `pending` unknown bytes
/// collected before it.
pub open spec fn lex_from(d: Seq<u8>, p: int, pending: Seq<u8>) -> Seq<LexItem>
    decreases d.len() - p,
{
    if p < 0 || p >= d.len() {
        flush(pending)
    } else if !known_opcode(d[p]) {
        lex_from(d, p + 1, pending.push(d[p]))
    } else if p + token_len(d, p) > d.len() {
        flush(pending)
    } else {
        flush(pending) + seq![LexItem::At(p)] + lex_from(d, p + token_len(d, p), Seq::empty())
    }
}

/// The entries that the lexer yields for a whole payload.
pub open spec fn lex_items(d: Seq<u8>) -> Seq<LexItem> {
    lex_from(d, 0, Seq::empty())
}

/// `t` is what the lexer makes of entry `item` of payload `d`.
pub open spec fn token_for(d: Seq<u8>, item: LexItem, t: Token) -> bool {
    match item {
        LexItem::At(p) => token_at(d, p, t),
        LexItem::Unrecognised(raw) => {
            &&& t is Unknown
            &&& t->Unknown_raw@ == raw
            &&& t->Unknown_decoded@ == utf8_lossy(raw)
        },
    }
}

/// `ts` is the token stream of payload `d`.
pub open spec fn lexes_to(d: Seq<u8>, ts: Seq<Token>) -> bool {
    let items = lex_items(d);
    &&& ts.len() == items.len()
    &&& forall|i: int| 0 <= i < ts.len() ==> token_for(d, #[trigger] items[i], ts[i])
}

/// A page record of the text file.
#[derive(Debug)]
pub struct Page {
    pub number: usize,
    pub atom_count: u16,
    pub word_count: u16,
    pub data: Vec<u8>,
}

fn unknown_token(raw: Vec<u8>) -> (t: Token)
    ensures
        token_for(Seq::empty(), LexItem::Unrecognised(raw@), t),
{
    let decoded = decode_utf8_lossy(raw.as_slice());
    Token::Unknown { raw, decoded }
}

impl Page {
    /// The token stream of the payload: each known opcode with its operands,
    /// and each run of unknown opcodes as one `Unknown` token.
    pub fn lex(&self) -> (tokens: Vec<Token>)
        ensures
            lexes_to(self.data@, tokens@),
    {
        let d = self.data.as_slice();
        let mut tokens: Vec<Token> = Vec::new();
        let mut pending: Vec<u8> = Vec::new();
        let mut p: usize = 0;
        let ghost done: Seq<LexItem> = Seq::empty();
        let ghost total = lex_items(d@);
        let mut finished = false;
        while !finished
            invariant
                d@ == self.data@,
                total == lex_items(d@),
                p <= d@.len(),
                !finished ==> done + lex_from(d@, p as int, pending@) == total,
                finished ==> done == total,
                tokens@.len() == done.len(),
                forall|i: int| 0 <= i < done.len() ==> token_for(d@, #[trigger] done[i], tokens@[i]),
            decreases d@.len() - p + (if finished { 0int } else { 1 }),
        {
            assert(d@.len() == d.len());
            if p == d.len() {
                if pending.len() > 0 {
                    let raw = pending;
                    pending = Vec::new();
                    proof { done = done.push(LexItem::Unrecognised(raw@)); }
                    tokens.push(unknown_token(raw));
                }
                finished = true;
            } else {
                match read_token(d, p) {
                    ReadOutcome::UnknownOpcode => {
                        pending.push(d[p]);
                        p += 1;
                    },
                    ReadOutcome::Truncated => {
                        if pending.len() > 0 {
                            let raw = pending;
                            pending = Vec::new();
                            proof { done = done.push(LexItem::Unrecognised(raw@)); }
                            tokens.push(unknown_token(raw));
                        }
                        finished = true;
                    },
                    ReadOutcome::Token(t, n) => {
                        let ghost done0 = done;
                        let ghost pending0 = pending@;
                        assert(lex_from(d@, p as int, pending0) == flush(pending0) + seq![LexItem::At(p as int)]
                            + lex_from(d@, p + n, Seq::empty()));
                        if pending.len() > 0 {
                            let raw = pending;
                            pending = Vec::new();
                            proof { done = done.push(LexItem::Unrecognised(raw@)); }
                            tokens.push(unknown_token(raw));
                        }
                        proof {
                            done = done.push(LexItem::At(p as int));
                        }
                        tokens.push(t);
                        p += n;
                        assert(done =~= done0 + flush(pending0) + seq![LexItem::At(p - n)]);
                        assert(pending@ =~= Seq::<u8>::empty());
                        assert(done0 + (flush(pending0) + seq![LexItem::At(p - n)] + lex_from(d@, p as int, Seq::empty()))
                            =~= done + lex_from(d@, p as int, pending@));
                    },
                }
            }
        }
        tokens
    }
}

/// Why the text file could not be read.
#[derive(Debug, Clone, Copy, PartialEq, Eq, Structural)]
pub enum InputError {
    /// Missing or truncated data, an offset or page out of range, or a
    /// negative size.
    InputCorrupt,
}

/// The marker that opens a text file with page headers.
pub const TEXT_MAGIC: u32 = 0x001924CC;

/// The little-endian signed 32-bit integer at `p`.
pub open spec fn le_i32(d: Seq<u8>, p: int) -> int {
    let u = le_uint(d, p, 4);
    if u >= 0x80000000 {
        u - 0x1_0000_0000
    } else {
        u
    }
}

/// A block of `u32` count-less-one, then that many plus one `i32`s, at `p`:
/// its entries and where it ends, if it lies within `d`.
pub open spec fn dka_block(d: Seq<u8>, p: int) -> Option<(Seq<int>, int)> {
    if p < 0 || p + 4 > d.len() {
        None
    } else {
        let count = le_uint(d, p, 4) + 1;
        if p + 4 + 4 * count > d.len() {
            None
        } else {
            Some((Seq::new(count as nat, |i: int| le_i32(d, p + 4 + 4 * i)), p + 4 + 4 * count))
        }
    }
}

/// The page offset table of a text file and whether the file has page
/// headers, if the file holds them.
pub open spec fn page_table_of(d: Seq<u8>) -> Option<(Seq<int>, bool)> {
    if d.len() < 4 {
        None
    } else if le_uint(d, 0, 4) == TEXT_MAGIC {
        if d.len() < 8 {
            None
        } else {
            match dka_block(d, 8) {
                Some((t, _)) => Some((t, true)),
                None => None,
            }
        }
    } else {
        match dka_block(d, 0) {
            Some((t, _)) => Some((t, false)),
            None => None,
        }
    }
}

pub fn read_i32(d: &[u8], p: usize) -> (r: i32)
    requires
        p + 4 <= d@.len(),
    ensures
        r as int == le_i32(d@, p as int),
{
    let u = read_u32(d, p);
    if u >= 0x80000000 {
        let m = (u - 0x80000000) as i32;
        m - 0x7fff_ffff - 1
    } else {
        u as i32
    }
}

/// Reads the block at `p`: its entries and the position after it.
pub fn read_dka_block(d: &[u8], p: usize) -> (r: Option<(Vec<i32>, usize)>)
    ensures
        r is None <==> dka_block(d@, p as int) is None,
        r matches Some((v, e)) ==> {
            &&& e as int == dka_block(d@, p as int)->Some_0.1
            &&& v@.len() == dka_block(d@, p as int)->Some_0.0.len()
            &&& forall|i: int| 0 <= i < v@.len() ==> v@[i] as int == #[trigger] dka_block(d@, p as int)->Some_0.0[i]
        },
{
    assert(d@.len() == d.len());
    if p > d.len() || d.len() - p < 4 {
        return None;
    }
    let wide = read_u32(d, p) as u64 + 1;
    let room = (d.len() - p - 4) / 4;
    if wide > room as u64 {
        return None;
    }
    let count = wide as usize;
    let mut v: Vec<i32> = Vec::new();
    let mut i: usize = 0;
    let ghost block = dka_block(d@, p as int)->Some_0.0;
    while i < count
        invariant
            d@.len() == d.len(),
            count <= room,
            room == (d@.len() - p - 4) / 4,
            p + 4 <= d@.len(),
            count == le_uint(d@, p as int, 4) + 1,
            block == Seq::new(count as nat, |k: int| le_i32(d@, p + 4 + 4 * k)),
            i <= count,
            v@.len() == i,
            forall|k: int| 0 <= k < i ==> v@[k] as int == #[trigger] block[k],
        decreases count - i,
    {
        v.push(read_i32(d, p + 4 + 4 * i));
        i += 1;
    }
    Some((v, p + 4 + 4 * count))
}

/// The page offset table of the text file.
pub struct PageTable {
    table: Vec<i32>,
    has_magic: bool,
}

impl View for PageTable {
    type V = (Seq<int>, bool);

    closed spec fn view(&self) -> (Seq<int>, bool) {
        (self.table@.map_values(|x: i32| x as int), self.has_magic)
    }
}

impl PageTable {
    /// Reads the page offset table at the start of the text file.
    pub fn load(text_dki: &[u8]) -> (r: Result<PageTable, InputError>)
        ensures
            r is Err <==> page_table_of(text_dki@) is None,
            r matches Ok(t) ==> t@ =~= page_table_of(text_dki@)->0,
    {
        let d = text_dki;
        assert(d@.len() == d.len());
        if d.len() < 4 {
            return Err(InputError::InputCorrupt);
        }
        let magic = read_u32(d, 0);
        let (start, has_magic) = if magic == TEXT_MAGIC {
            if d.len() < 8 {
                return Err(InputError::InputCorrupt);
            }
            (8usize, true)
        } else {
            (0usize, false)
        };
        match read_dka_block(d, start) {
            None => Err(InputError::InputCorrupt),
            Some((table, _)) => {
                let t = PageTable { table, has_magic };
                assert(t@.0 =~= page_table_of(d@)->Some_0.0);
                Ok(t)
            },
        }
    }
}

/// The atom count, word count and payload of page `n` (counted from 1), if
/// the text file holds it whole.
pub open spec fn page_record(d: Seq<u8>, table: Seq<int>, has_magic: bool, n: int) -> Option<(u16, u16, Seq<u8>)> {
    if n < 1 || n > table.len() {
        None
    } else {
        let a = table[n - 1];
        if a < 0 || a + 2 > d.len() {
            None
        } else {
            let size = le_uint(d, a, 2);
            if has_magic {
                if a + 6 + size > d.len() {
                    None
                } else {
                    Some(
                        (
                            le_uint(d, a + 2, 2) as u16,
                            le_uint(d, a + 4, 2) as u16,
                            d.subrange(a + 6, a + 6 + size),
                        ),
                    )
                }
            } else if size < 2 || a + size > d.len() {
                None
            } else {
                Some((0, 0, d.subrange(a + 2, a + size)))
            }
        }
    }
}

/// `page` is page `n` of the text file.
pub open spec fn page_is(page: Page, d: Seq<u8>, table: Seq<int>, has_magic: bool, n: int) -> bool {
    &&& page_record(d, table, has_magic, n) is Some
    &&& page.number == n
    &&& page.atom_count == page_record(d, table, has_magic, n)->Some_0.0
    &&& page.word_count == page_record(d, table, has_magic, n)->Some_0.1
    &&& page.data@ == page_record(d, table, has_magic, n)->Some_0.2
}

/// A run of consecutive pages.
pub struct Pages {
    pub start: usize,
    pub pages: Vec<Page>,
}

impl Pages {
    /// Reads `count` pages from page `page_number` (counted from 1) on.
    pub fn load(text_dki: &[u8], page_table: &PageTable, page_number: usize, count: usize) -> (r: Result<Pages, InputError>)
        ensures
            r is Ok <==> forall|n: int|
                page_number <= n < page_number + count ==> #[trigger] page_record(
                    text_dki@,
                    page_table@.0,
                    page_table@.1,
                    n,
                ) is Some,
            r matches Ok(p) ==> {
                &&& p.start == page_number
                &&& p.pages@.len() == count
                &&& forall|k: int|
                    0 <= k < count ==> page_is(
                        #[trigger] p.pages@[k],
                        text_dki@,
                        page_table@.0,
                        page_table@.1,
                        page_number + k,
                    )
            },
    {
        let mut pages: Vec<Page> = Vec::new();
        let mut k: usize = 0;
        let table_len = page_table.table.len();
        assert(page_table.table@.map_values(|x: i32| x as int) == page_table@.0);
        assert(page_table@.0.len() == table_len);
        while k < count
            invariant
                table_len == page_table@.0.len(),
                k <= count,
                pages@.len() == k,
                forall|j: int|
                    0 <= j < k ==> page_is(
                        #[trigger] pages@[j],
                        text_dki@,
                        page_table@.0,
                        page_table@.1,
                        page_number + j,
                    ),
            decreases count - k,
        {
            if page_number > usize::MAX - k {
                assert(page_table@.0.len() == table_len);
                assert(page_record(text_dki@, page_table@.0, page_table@.1, page_number + k) is None);
                return Err(InputError::InputCorrupt);
            }
            match Pages::load_page(text_dki, &page_table.table, page_number + k, page_table.has_magic) {
                Ok(p) => pages.push(p),
                Err(e) => {
                    assert(page_record(text_dki@, page_table@.0, page_table@.1, page_number + k) is None);
                    return Err(e);
                },
            }
            k += 1;
        }
        assert forall|n: int| page_number <= n < page_number + count implies #[trigger] page_record(
            text_dki@,
            page_table@.0,
            page_table@.1,
            n,
        ) is Some by {
            assert(page_is(pages@[n - page_number], text_dki@, page_table@.0, page_table@.1, n));
        }
        Ok(Pages { start: page_number, pages })
    }

    /// Reads page `page_number` (counted from 1).
    pub fn load_page(text_dki: &[u8], page_table: &Vec<i32>, page_number: usize, has_magic: bool) -> (r: Result<Page, InputError>)
        ensures
            r is Err <==> page_record(
                text_dki@,
                page_table@.map_values(|x: i32| x as int),
                has_magic,
                page_number as int,
            ) is None,
            r matches Ok(p) ==> page_is(
                p,
                text_dki@,
                page_table@.map_values(|x: i32| x as int),
                has_magic,
                page_number as int,
            ),
    {
        let d = text_dki;
        let ghost table = page_table@.map_values(|x: i32| x as int);
        assert(d@.len() == d.len());
        if page_number < 1 || page_number > page_table.len() {
            return Err(InputError::InputCorrupt);
        }
        let address = page_table[page_number - 1];
        assert(table[page_number - 1] == address as int);
        if address < 0 || address as usize > d.len() || d.len() - (address as usize) < 2 {
            return Err(InputError::InputCorrupt);
        }
        let a = address as usize;
        let size = read_u16(d, a) as usize;
        if has_magic {
            if d.len() - a - 2 < 4 || d.len() - a - 6 < size {
                return Err(InputError::InputCorrupt);
            }
            let atom_count = read_u16(d, a + 2);
            let word_count = read_u16(d, a + 4);
            let data = vstd::slice::slice_to_vec(vstd::slice::slice_subrange(d, a + 6, a + 6 + size));
            Ok(Page { number: page_number, atom_count, word_count, data })
        } else {
            if size < 2 || d.len() - a < size {
                return Err(InputError::InputCorrupt);
            }
            let data = vstd::slice::slice_to_vec(vstd::slice::slice_subrange(d, a + 2, a + size));
            Ok(Page { number: page_number, atom_count: 0, word_count: 0, data })
        }
    }
}

/// Every unrecognised run among `items` is non-empty and holds only bytes
/// whose opcode is not in the table.
pub open spec fn runs_unknown(items: Seq<LexItem>) -> bool {
    forall|k: int|
        0 <= k < items.len() && (#[trigger] items[k]) is Unrecognised ==> {
            let raw = items[k]->Unrecognised_0;
            &&& raw.len() > 0
            &&& forall|b: int| 0 <= b < raw.len() ==> !known_opcode(#[trigger] raw[b])
        }
}

proof fn lemma_runs_unknown_concat(a: Seq<LexItem>, b: Seq<LexItem>)
    requires
        runs_unknown(a),
        runs_unknown(b),
    ensures
        runs_unknown(a + b),
{
    assert forall|k: int| 0 <= k < (a + b).len() && (#[trigger] (a + b)[k]) is Unrecognised implies {
        let raw = (a + b)[k]->Unrecognised_0;
        &&& raw.len() > 0
        &&& forall|j: int| 0 <= j < raw.len() ==> !known_opcode(#[trigger] raw[j])
    } by {
        if k < a.len() {
            assert((a + b)[k] == a[k]);
        } else {
            assert((a + b)[k] == b[k - a.len()]);
        }
    }
}

proof fn lemma_lex_runs_unknown(d: Seq<u8>, p: int, pending: Seq<u8>)
    requires
        0 <= p,
        forall|b: int| 0 <= b < pending.len() ==> !known_opcode(#[trigger] pending[b]),
    ensures
        runs_unknown(lex_from(d, p, pending)),
    decreases d.len() - p,
{
    if p < d.len() {
        if !known_opcode(d[p]) {
            let next = pending.push(d[p]);
            assert forall|b: int| 0 <= b < next.len() implies !known_opcode(#[trigger] next[b]) by {
                if b < pending.len() {
                    assert(next[b] == pending[b]);
                }
            }
            lemma_lex_runs_unknown(d, p + 1, next);
        } else if p + token_len(d, p) <= d.len() {
            lemma_lex_runs_unknown(d, p + token_len(d, p), Seq::empty());
            let head = flush(pending) + seq![LexItem::At(p)];
            assert(runs_unknown(seq![LexItem::At(p)]));
            lemma_runs_unknown_concat(flush(pending), seq![LexItem::At(p)]);
            lemma_runs_unknown_concat(head, lex_from(d, p + token_len(d, p), Seq::empty()));
        }
    }
}

proof fn lemma_lex_all_unknown(s: Seq<u8>, j: int, pending: Seq<u8>)
    requires
        0 <= j <= s.len(),
        forall|b: int| j <= b < s.len() ==> !known_opcode(#[trigger] s[b]),
    ensures
        lex_from(s, j, pending) == flush(pending + s.subrange(j, s.len() as int)),
    decreases s.len() - j,
{
    if j < s.len() {
        lemma_lex_all_unknown(s, j + 1, pending.push(s[j]));
        assert(pending.push(s[j]) + s.subrange(j + 1, s.len() as int) =~= pending + s.subrange(
            j,
            s.len() as int,
        ));
    } else {
        assert(pending + s.subrange(j, s.len() as int) =~= pending);
    }
}

/// Re-lexing the bytes of an `Unknown` token gives that token back: the
/// unknown bytes are kept exactly.
pub proof fn lemma_unknown_relex(d: Seq<u8>, ts: Seq<Token>, i: int, again: Seq<Token>)
    requires
        lexes_to(d, ts),
        0 <= i < ts.len(),
        ts[i] is Unknown,
        lexes_to(ts[i]->Unknown_raw@, again),
    ensures
        again.len() == 1,
        again[0] is Unknown,
        again[0]->Unknown_raw@ == ts[i]->Unknown_raw@,
        again[0]->Unknown_decoded@ == ts[i]->Unknown_decoded@,
{
    let items = lex_items(d);
    assert(token_for(d, items[i], ts[i]));
    lemma_lex_runs_unknown(d, 0, Seq::empty());
    assert(items[i] is Unrecognised);
    let raw = items[i]->Unrecognised_0;
    assert(raw.len() > 0);
    lemma_lex_all_unknown(raw, 0, Seq::empty());
    assert(Seq::<u8>::empty() + raw.subrange(0, raw.len() as int) =~= raw);
    assert(lex_items(raw) == seq![LexItem::Unrecognised(raw)]);
    assert(token_for(raw, lex_items(raw)[0], again[0]));
}

} // verus!
