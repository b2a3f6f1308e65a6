//! The table of contents: one line per entry, indented by depth, with the
//! entries' page numbers in a separate block file.
use vstd::prelude::*;
use vstd::string::StrSliceExecFns;
use crate::decoding::{cp1252_decode, decode_cp1252};
use crate::text::{dka_block, read_dka_block, InputError};

verus! {

broadcast use vstd::std_specs::vec::axiom_vec_index_decreases;

/// One entry of the table of contents, with the entries nested under it.
#[derive(Debug)]
pub struct TocItem {
    pub id: usize,
    pub title: String,
    pub level: u8,
    pub page_number: usize,
    pub page_count: usize,
    pub children: Vec<TocItem>,
}

/// An entry without its children, as values.
pub struct TocEntry {
    pub id: int,
    pub title: Seq<char>,
    pub level: int,
    pub page_number: int,
    pub page_count: int,
}

/// An item's own fields.
pub open spec fn entry_of_item(t: TocItem) -> TocEntry {
    TocEntry {
        id: t.id as int,
        title: t.title@,
        level: t.level as int,
        page_number: t.page_number as int,
        page_count: t.page_count as int,
    }
}

/// An item and everything nested under it, in reading order.
pub open spec fn flatten(t: TocItem) -> Seq<TocEntry>
    decreases t, 0int,
{
    seq![entry_of_item(t)] + flatten_items(t.children, t.children.len() as int)
}

/// The first `n` items of `v` and everything nested under them, in reading
/// order.
pub open spec fn flatten_items(v: Vec<TocItem>, n: int) -> Seq<TocEntry>
    decreases v, n,
{
    if n <= 0 || n > v.len() {
        Seq::empty()
    } else {
        flatten_items(v, n - 1) + flatten(v[n - 1])
    }
}

/// The tree under `t` is built by depth: each child is deeper than its
/// parent, and no sibling is deeper than the sibling before it. With the
/// reading order (`flatten`) this fixes the tree: an item's children are the
/// entries after it up to the next entry that is not deeper than it.
pub open spec fn nested(t: TocItem) -> bool
    decreases t, 0int,
{
    nested_items(t.children, t.level, t.children.len() as int)
}

/// The first `n` items of `v` are deeper than `level`, none is deeper than
/// the one before it, and each is built by depth.
pub open spec fn nested_items(v: Vec<TocItem>, level: u8, n: int) -> bool
    decreases v, n,
{
    if n <= 0 || n > v.len() {
        true
    } else {
        &&& nested_items(v, level, n - 1)
        &&& v[n - 1].level > level
        &&& n >= 2 ==> v[n - 1].level <= v[n - 2].level
        &&& nested(v[n - 1])
    }
}

proof fn lemma_nested_prefix(v1: Vec<TocItem>, v2: Vec<TocItem>, level: u8, n: int)
    requires
        0 <= n <= v1.len(),
        n <= v2.len(),
        forall|i: int| 0 <= i < n ==> v1[i] == v2[i],
    ensures
        nested_items(v1, level, n) == nested_items(v2, level, n),
    decreases n,
{
    if n > 0 {
        lemma_nested_prefix(v1, v2, level, n - 1);
    }
}

/// The table of contents.
#[derive(Debug)]
pub struct Toc {
    pub entries: Vec<TocItem>,
}

/// The first newline at or after `j`, or the length.
pub open spec fn newline_from(d: Seq<u8>, j: int) -> int
    decreases d.len() - j,
{
    if j < 0 || j >= d.len() {
        d.len() as int
    } else if d[j] == 10 {
        j
    } else {
        newline_from(d, j + 1)
    }
}

/// The lines of `d` from `start` on: split at each newline, a carriage
/// return before a newline dropped, no line after a final newline.
pub open spec fn lines_from(d: Seq<u8>, start: int) -> Seq<Seq<u8>>
    decreases d.len() - start,
    via lines_from_decreases
{
    if start < 0 || start >= d.len() {
        Seq::empty()
    } else {
        let e = newline_from(d, start);
        let raw = d.subrange(start, e);
        if e < d.len() {
            let line = if raw.len() > 0 && raw.last() == 13 {
                raw.drop_last()
            } else {
                raw
            };
            seq![line] + lines_from(d, e + 1)
        } else {
            seq![raw]
        }
    }
}

proof fn lemma_newline_from(d: Seq<u8>, j: int)
    requires
        0 <= j <= d.len(),
    ensures
        j <= newline_from(d, j) <= d.len(),
        newline_from(d, j) < d.len() ==> d[newline_from(d, j)] == 10,
    decreases d.len() - j,
{
    if j < d.len() && d[j] != 10 {
        lemma_newline_from(d, j + 1);
    }
}

#[via_fn]
proof fn lines_from_decreases(d: Seq<u8>, start: int) {
    if 0 <= start < d.len() {
        lemma_newline_from(d, start);
    }
}

/// The number of spaces that start `s`.
pub open spec fn leading_spaces(s: Seq<char>) -> nat
    decreases s.len(),
{
    if s.len() > 0 && s[0] == ' ' {
        1 + leading_spaces(s.drop_first())
    } else {
        0
    }
}

/// The page on which entry `i` starts: the first page for the first entry,
/// else the page at which the entry before it ends.
pub open spec fn entry_start(nums: Seq<int>, i: int) -> int {
    if i == 0 {
        1
    } else {
        nums[i - 1]
    }
}

/// Page numbers that start at 1 or later and never go back.
pub open spec fn page_numbers_valid(nums: Seq<int>) -> bool {
    forall|i: int| 0 <= i < nums.len() ==> entry_start(nums, i) <= #[trigger] nums[i]
}

/// Every line's level fits in a byte.
pub open spec fn levels_valid(lines: Seq<Seq<char>>) -> bool {
    forall|i: int| 0 <= i < lines.len() ==> leading_spaces(#[trigger] lines[i]) < 255
}

/// Entry `i` of a table of contents with these lines and page numbers.
pub open spec fn toc_entry(lines: Seq<Seq<char>>, nums: Seq<int>, i: int) -> TocEntry {
    let k = leading_spaces(lines[i]);
    TocEntry {
        id: i,
        title: lines[i].subrange(k as int, lines[i].len() as int),
        level: k + 1int,
        page_number: entry_start(nums, i),
        page_count: nums[i] - entry_start(nums, i),
    }
}

/// All entries, in reading order.
pub open spec fn toc_entries(lines: Seq<Seq<char>>, nums: Seq<int>) -> Seq<TocEntry> {
    Seq::new(lines.len(), |i: int| toc_entry(lines, nums, i))
}

/// The page numbers in a block file: the fourth of its blocks.
pub open spec fn toc_page_numbers(dka: Seq<u8>) -> Option<Seq<int>> {
    match dka_block(dka, 0) {
        None => None,
        Some((_, e1)) => match dka_block(dka, e1) {
            None => None,
            Some((_, e2)) => match dka_block(dka, e2) {
                None => None,
                Some((_, e3)) => match dka_block(dka, e3) {
                    None => None,
                    Some((nums, _)) => Some(nums),
                },
            },
        },
    }
}

/// The lines of the entry file, decoded.
pub open spec fn toc_lines(dki: Seq<u8>) -> Seq<Seq<char>> {
    lines_from(dki, 0).map_values(|l: Seq<u8>| cp1252_decode(l))
}

/// The entry file and block file make a table of contents.
pub open spec fn toc_loads(dki: Seq<u8>, dka: Seq<u8>) -> bool {
    &&& toc_page_numbers(dka) is Some
    &&& toc_lines(dki).len() == toc_page_numbers(dka)->Some_0.len()
    &&& page_numbers_valid(toc_page_numbers(dka)->Some_0)
    &&& levels_valid(toc_lines(dki))
}

/// The entries of the items popped off the end of `old` until `new_len`
/// remain, in the order popped.
pub open spec fn popped(old: Seq<TocItem>, new_len: int) -> Seq<TocEntry> {
    Seq::new((old.len() - new_len) as nat, |k: int| entry_of_item(old[old.len() - 1 - k]))
}

proof fn lemma_flatten_prefix(v1: Vec<TocItem>, v2: Vec<TocItem>, n: int)
    requires
        0 <= n <= v1.len(),
        n <= v2.len(),
        forall|i: int| 0 <= i < n ==> v1[i] == v2[i],
    ensures
        flatten_items(v1, n) == flatten_items(v2, n),
    decreases n,
{
    if n > 0 {
        lemma_flatten_prefix(v1, v2, n - 1);
    }
}

/// The number of spaces that start `s`.
pub fn leading_space_count(s: &str) -> (r: usize)
    ensures
        r == leading_spaces(s@),
{
    let n = s.unicode_len();
    let mut j: usize = 0;
    let mut done = false;
    assert(s@.subrange(0, n as int) =~= s@);
    while !done && j < n
        invariant
            n == s@.len(),
            j <= n,
            leading_spaces(s@) == j + leading_spaces(s@.subrange(j as int, n as int)),
            done ==> j < n && s@[j as int] != ' ',
        decreases n - j + (if done { 0int } else { 1 }),
    {
        if s.get_char(j) == ' ' {
            assert(s@.subrange(j as int, n as int).drop_first() =~= s@.subrange(j + 1, n as int));
            j += 1;
        } else {
            done = true;
        }
    }
    if !done {
        assert(s@.subrange(j as int, n as int) =~= Seq::<char>::empty());
    }
    j
}

/// The lines of a file in the legacy code page, decoded.
pub fn split_lines(d: &[u8]) -> (r: Vec<String>)
    ensures
        r@.len() == toc_lines(d@).len(),
        forall|i: int| 0 <= i < r@.len() ==> (#[trigger] r@[i])@ == toc_lines(d@)[i],
{
    let n = d.len();
    let mut lines: Vec<String> = Vec::new();
    let mut start: usize = 0;
    let ghost all = lines_from(d@, 0);
    let ghost done: Seq<Seq<u8>> = Seq::empty();
    while start < n
        invariant
            n == d@.len(),
            start <= n,
            all == lines_from(d@, 0),
            done + lines_from(d@, start as int) == all,
            lines@.len() == done.len(),
            forall|i: int| 0 <= i < lines@.len() ==> (#[trigger] lines@[i])@ == cp1252_decode(done[i]),
        decreases n - start,
    {
        let mut e: usize = start;
        while e < n && d[e] != 10
            invariant
                n == d@.len(),
                start <= e <= n,
                newline_from(d@, start as int) == newline_from(d@, e as int),
            decreases n - e,
        {
            e += 1;
        }
        proof {
            lemma_newline_from(d@, start as int);
        }
        let mut stop = e;
        if e < n && e > start && d[e - 1] == 13 {
            stop = e - 1;
        }
        let line = decode_cp1252(vstd::slice::slice_subrange(d, start, stop));
        let ghost raw = d@.subrange(start as int, e as int);
        let ghost l = if e < n && raw.len() > 0 && raw.last() == 13 { raw.drop_last() } else { raw };
        assert(d@.subrange(start as int, stop as int) =~= l);
        let ghost lines0 = lines@;
        let ghost done0 = done;
        assert(line@ == cp1252_decode(l));
        proof {
            done = done.push(l);
        }
        lines.push(line);
        assert(lines@ == lines0.push(line));
        assert forall|i: int| 0 <= i < lines@.len() implies (#[trigger] lines@[i])@ == cp1252_decode(done[i]) by {
            if i < lines0.len() {
                assert(lines0[i] == lines@[i]);
                assert(done0[i] == done[i]);
            }
        }
        if e < n {
            start = e + 1;
        } else {
            start = n;
            assert(lines_from(d@, n as int) =~= Seq::<Seq<u8>>::empty());
        }
        assert(done + lines_from(d@, start as int) =~= all);
    }
    assert(lines_from(d@, start as int) =~= Seq::<Seq<u8>>::empty());
    assert(done + Seq::<Seq<u8>>::empty() =~= done);
    assert(done == all);
    lines
}

/// The first position at or after `q` whose entry is not deeper than
/// `level`, or the length.
pub open spec fn run_end(e: Seq<TocEntry>, level: int, q: int) -> int
    decreases e.len() - q,
{
    if q < 0 || q >= e.len() || e[q].level <= level {
        if q < 0 { 0 } else if q >= e.len() { e.len() as int } else { q }
    } else {
        run_end(e, level, q + 1)
    }
}

/// `t` stands at position `p` of the reading order `e`: it and everything
/// under it are the entries from `p` up to the next entry that is not deeper
/// than `t`, and so for each item under it.
pub open spec fn placed(t: TocItem, e: Seq<TocEntry>, p: int) -> bool
    decreases t, 0int,
{
    &&& flatten(t) == e.subrange(p, run_end(e, t.level as int, p + 1))
    &&& placed_items(t.children, e, p + 1, t.children.len() as int)
}

/// The first `n` items of `v`, one after the other from position `p`, are
/// each placed.
pub open spec fn placed_items(v: Vec<TocItem>, e: Seq<TocEntry>, p: int, n: int) -> bool
    decreases v, n,
{
    if n <= 0 || n > v.len() {
        true
    } else {
        placed_items(v, e, p, n - 1) && placed(v[n - 1], e, p + flatten_items(v, n - 1).len())
    }
}

proof fn lemma_deeper(t: TocItem)
    requires
        nested(t),
    ensures
        flatten(t).len() >= 1,
        flatten(t)[0] == entry_of_item(t),
        forall|k: int| 1 <= k < flatten(t).len() ==> #[trigger] flatten(t)[k].level > t.level,
    decreases t, 0int,
{
    lemma_deeper_items(t.children, t.level, t.children.len() as int);
    let f = flatten(t);
    let c = flatten_items(t.children, t.children.len() as int);
    assert forall|k: int| 1 <= k < f.len() implies #[trigger] f[k].level > t.level by {
        assert(f[k] == c[k - 1]);
    }
}

proof fn lemma_deeper_items(v: Vec<TocItem>, level: u8, n: int)
    requires
        nested_items(v, level, n),
    ensures
        forall|k: int|
            0 <= k < flatten_items(v, n).len() ==> #[trigger] flatten_items(v, n)[k].level > level,
    decreases v, n,
{
    if 0 < n <= v.len() {
        lemma_deeper_items(v, level, n - 1);
        lemma_deeper(v[n - 1]);
        let a = flatten_items(v, n - 1);
        let b = flatten(v[n - 1]);
        assert forall|k: int| 0 <= k < flatten_items(v, n).len() implies #[trigger] flatten_items(
            v,
            n,
        )[k].level > level by {
            if k < a.len() {
                assert(flatten_items(v, n)[k] == a[k]);
            } else {
                assert(flatten_items(v, n)[k] == b[k - a.len()]);
                if k > a.len() {
                    assert(b[k - a.len()].level > v[n - 1].level);
                }
            }
        }
    }
}

proof fn lemma_run_end(e: Seq<TocEntry>, level: int, q: int, end: int)
    requires
        0 <= q <= end <= e.len(),
        forall|k: int| q <= k < end ==> #[trigger] e[k].level > level,
        end == e.len() || e[end].level <= level,
    ensures
        run_end(e, level, q) == end,
    decreases end - q,
{
    if q < end {
        lemma_run_end(e, level, q + 1, end);
    }
}

proof fn lemma_placed(t: TocItem, e: Seq<TocEntry>, p: int)
    requires
        nested(t),
        0 <= p,
        p + flatten(t).len() <= e.len(),
        flatten(t) == e.subrange(p, p + flatten(t).len()),
        p + flatten(t).len() == e.len() || e[p + flatten(t).len()].level <= t.level,
    ensures
        placed(t, e, p),
    decreases t, 0int,
{
    let f = flatten(t);
    let end = p + f.len();
    lemma_deeper(t);
    assert forall|k: int| p + 1 <= k < end implies #[trigger] e[k].level > t.level by {
        assert(e[k] == f[k - p]);
    }
    lemma_run_end(e, t.level as int, p + 1, end);
    let c = flatten_items(t.children, t.children.len() as int);
    assert(c =~= e.subrange(p + 1, end)) by {
        assert forall|k: int| 0 <= k < c.len() implies c[k] == e.subrange(p + 1, end)[k] by {
            assert(c[k] == f[k + 1]);
        }
    }
    let n = t.children.len() as int;
    if n > 0 {
        assert(nested_items(t.children, t.level, n));
        assert(t.children[n - 1].level > t.level);
    }
    lemma_placed_items(t.children, t.level, e, p + 1, n);
}

proof fn lemma_placed_items(v: Vec<TocItem>, level: u8, e: Seq<TocEntry>, p: int, n: int)
    requires
        0 <= n <= v.len(),
        nested_items(v, level, n),
        0 <= p,
        p + flatten_items(v, n).len() <= e.len(),
        flatten_items(v, n) == e.subrange(p, p + flatten_items(v, n).len()),
        n == 0 || p + flatten_items(v, n).len() == e.len() || e[p + flatten_items(
            v,
            n,
        ).len()].level <= v[n - 1].level,
    ensures
        placed_items(v, e, p, n),
    decreases v, n,
{
    if n > 0 {
        let a = flatten_items(v, n - 1);
        let b = flatten(v[n - 1]);
        let whole = flatten_items(v, n);
        assert(whole == a + b);
        assert(a =~= e.subrange(p, p + a.len())) by {
            assert forall|k: int| 0 <= k < a.len() implies a[k] == e.subrange(p, p + a.len())[k] by {
                assert(a[k] == whole[k]);
            }
        }
        assert(b =~= e.subrange(p + a.len(), p + a.len() + b.len())) by {
            assert forall|k: int| 0 <= k < b.len() implies b[k] == e.subrange(
                p + a.len(),
                p + a.len() + b.len(),
            )[k] by {
                assert(b[k] == whole[k + a.len()]);
            }
        }
        lemma_deeper(v[n - 1]);
        if n > 1 {
            assert(e[p + a.len()] == b[0]);
            assert(v[n - 1].level <= v[n - 2].level);
        }
        lemma_placed_items(v, level, e, p, n - 1);
        lemma_placed(v[n - 1], e, p + a.len());
    }
}

impl Toc {
    /// The page numbers of the entries: the fourth block of the block file.
    pub fn load_page_numbers(dka: &[u8]) -> (r: Option<Vec<i32>>)
        ensures
            r is None <==> toc_page_numbers(dka@) is None,
            r matches Some(v) ==> ints(v@) =~= toc_page_numbers(dka@)->Some_0,
    {
        let (_, e1) = match read_dka_block(dka, 0) {
            Some(b) => b,
            None => {
                return None;
            },
        };
        let (_, e2) = match read_dka_block(dka, e1) {
            Some(b) => b,
            None => {
                return None;
            },
        };
        let (_, e3) = match read_dka_block(dka, e2) {
            Some(b) => b,
            None => {
                return None;
            },
        };
        match read_dka_block(dka, e3) {
            Some((v, _)) => Some(v),
            None => None,
        }
    }

    /// Nests items: takes items off the end of `rest` while their level is
    /// deeper than `level`, each with the deeper items that follow it as its
    /// children.
    pub fn build_toc_item(level: u8, rest: &mut Vec<TocItem>) -> (r: Vec<TocItem>)
        ensures
            final(rest)@.len() <= old(rest)@.len(),
            final(rest)@ == old(rest)@.subrange(0, final(rest)@.len() as int),
            final(rest)@.len() == 0 || final(rest)@.last().level <= level,
            forall|i: int| 0 <= i < r@.len() ==> (#[trigger] r@[i]).level > level,
            nested_items(r, level, r@.len() as int),
            flatten_items(r, r@.len() as int) == popped(old(rest)@, final(rest)@.len() as int),
        decreases old(rest)@.len(),
    {
        let ghost orig = rest@;
        let mut children: Vec<TocItem> = Vec::new();
        let mut done = false;
        assert(popped(orig, orig.len() as int) =~= Seq::<TocEntry>::empty());
        while !done
            invariant
                orig == old(rest)@,
                rest@.len() <= orig.len(),
                rest@ == orig.subrange(0, rest@.len() as int),
                done ==> rest@.len() == 0 || rest@.last().level <= level,
                forall|i: int| 0 <= i < children@.len() ==> (#[trigger] children@[i]).level > level,
                nested_items(children, level, children@.len() as int),
                children@.len() > 0 ==> rest@.len() == 0 || rest@.last().level
                    <= children@.last().level,
                flatten_items(children, children@.len() as int) == popped(orig, rest@.len() as int),
            decreases rest@.len() + (if done { 0int } else { 1 }),
        {
            let n = rest.len();
            if n == 0 || rest[n - 1].level <= level {
                done = true;
            } else {
                let mut next = rest.pop().unwrap();
                let ghost mid = rest@;
                let ghost entry = entry_of_item(next);
                let sub = Toc::build_toc_item(next.level, rest);
                next.children = sub;
                assert(entry_of_item(next) == entry);
                let ghost before = children;
                children.push(next);
                proof {
                    lemma_flatten_prefix(children, before, before@.len() as int);
                    lemma_nested_prefix(children, before, level, before@.len() as int);
                    assert(nested(next));
                    assert(children[before@.len() as int] == next);
                    assert(flatten(next) == seq![entry] + flatten_items(sub, sub@.len() as int));
                    assert(flatten_items(children, children@.len() as int) == flatten_items(
                        before,
                        before@.len() as int,
                    ) + flatten(next));
                    assert(popped(orig, rest@.len() as int) =~= popped(orig, n as int) + seq![entry]
                        + popped(mid, rest@.len() as int));
                    assert(flatten_items(children, children@.len() as int) =~= popped(
                        orig,
                        rest@.len() as int,
                    ));
                }
            }
        }
        children
    }
}

/// The values of 32-bit integers.
pub open spec fn ints(v: Seq<i32>) -> Seq<int> {
    Seq::new(v.len(), |i: int| v[i] as int)
}

/// The characters of strings.
pub open spec fn texts(v: Seq<String>) -> Seq<Seq<char>> {
    Seq::new(v.len(), |i: int| v[i]@)
}

proof fn lemma_page_numbers_positive(nums: Seq<int>, i: int)
    requires
        page_numbers_valid(nums),
        0 <= i < nums.len(),
    ensures
        1 <= entry_start(nums, i) <= nums[i],
    decreases i,
{
    assert(entry_start(nums, i) <= nums[i]);
    if i > 0 {
        lemma_page_numbers_positive(nums, i - 1);
    }
}

impl Toc {
    /// Builds the tree of entries from the lines of the entry file and the
    /// entries' page numbers.
    pub fn ingest(lines: Vec<String>, page_numbers: Vec<i32>) -> (r: Vec<TocItem>)
        requires
            lines@.len() <= page_numbers@.len(),
            page_numbers_valid(ints(page_numbers@)),
            levels_valid(texts(lines@)),
        ensures
            flatten_items(r, r@.len() as int) == toc_entries(texts(lines@), ints(page_numbers@)),
            nested_items(r, 0, r@.len() as int),
            placed_items(r, toc_entries(texts(lines@), ints(page_numbers@)), 0, r@.len() as int),
    {
        let ghost ls = texts(lines@);
        let ghost ns = ints(page_numbers@);
        let n = lines.len();
        let mut lines = lines;
        let mut rev: Vec<TocItem> = Vec::new();
        let mut i: usize = n;
        while i > 0
            invariant
                n == ls.len(),
                n <= page_numbers@.len(),
                ns == ints(page_numbers@),
                page_numbers_valid(ns),
                levels_valid(ls),
                i <= n,
                lines@.len() == i,
                forall|k: int| 0 <= k < i ==> (#[trigger] lines@[k])@ == ls[k],
                rev@.len() == n - i,
                forall|k: int|
                    0 <= k < n - i ==> entry_of_item(#[trigger] rev@[k]) == toc_entry(ls, ns, n - 1 - k),
                forall|k: int| 0 <= k < n - i ==> (#[trigger] rev@[k]).level >= 1,
            decreases i,
        {
            let line = lines.pop().unwrap();
            i -= 1;
            assert(line@ == ls[i as int]);
            let k = leading_space_count(line.as_str());
            assert(k < 255);
            let len = line.as_str().unicode_len();
            proof {
                lemma_leading_spaces_len(line@);
            }
            let title = String::from_str(line.as_str().substring_char(k, len));
            proof {
                lemma_page_numbers_positive(ns, i as int);
            }
            let start: i32 = if i == 0 {
                1
            } else {
                page_numbers[i - 1]
            };
            let count = page_numbers[i] - start;
            let item = TocItem {
                id: i,
                title,
                level: (k + 1) as u8,
                page_number: start as usize,
                page_count: count as usize,
                children: Vec::new(),
            };
            assert(entry_of_item(item) == toc_entry(ls, ns, i as int));
            rev.push(item);
        }
        let ghost rev0 = rev@;
        let r = Toc::build_toc_item(0, &mut rev);
        assert(rev@.len() == 0);
        assert(popped(rev0, 0) =~= toc_entries(ls, ns));
        proof {
            let e = toc_entries(ls, ns);
            assert(e.subrange(0, e.len() as int) =~= e);
            lemma_placed_items(r, 0, e, 0, r@.len() as int);
        }
        r
    }

    /// Reads the table of contents from the entry file and the block file.
    pub fn load(tree_dki: &[u8], tree_dka: &[u8]) -> (r: Result<Toc, InputError>)
        ensures
            r is Ok <==> toc_loads(tree_dki@, tree_dka@),
            r matches Ok(t) ==> flatten_items(t.entries, t.entries@.len() as int) == toc_entries(
                toc_lines(tree_dki@),
                toc_page_numbers(tree_dka@)->Some_0,
            ),
            r matches Ok(t) ==> nested_items(t.entries, 0, t.entries@.len() as int),
            r matches Ok(t) ==> placed_items(
                t.entries,
                toc_entries(toc_lines(tree_dki@), toc_page_numbers(tree_dka@)->Some_0),
                0,
                t.entries@.len() as int,
            ),
    {
        let lines = split_lines(tree_dki);
        assert(texts(lines@) =~= toc_lines(tree_dki@));
        let nums = match Toc::load_page_numbers(tree_dka) {
            Some(v) => v,
            None => {
                return Err(InputError::InputCorrupt);
            },
        };
        if lines.len() != nums.len() {
            return Err(InputError::InputCorrupt);
        }
        let ghost ns = ints(nums@);
        let mut i: usize = 0;
        while i < nums.len()
            invariant
                ns == ints(nums@),
                ns == toc_page_numbers(tree_dka@)->Some_0,
                i <= nums@.len(),
                forall|k: int| 0 <= k < i ==> entry_start(ns, k) <= #[trigger] ns[k],
            decreases nums@.len() - i,
        {
            let start: i32 = if i == 0 {
                1
            } else {
                nums[i - 1]
            };
            if nums[i] < start {
                assert(!(entry_start(ns, i as int) <= ns[i as int]));
                assert(!page_numbers_valid(ns));
                return Err(InputError::InputCorrupt);
            }
            i += 1;
        }
        let ghost ls = texts(lines@);
        let mut j: usize = 0;
        while j < lines.len()
            invariant
                ls == texts(lines@),
                ls == toc_lines(tree_dki@),
                j <= lines@.len(),
                forall|k: int| 0 <= k < j ==> leading_spaces(#[trigger] ls[k]) < 255,
            decreases lines@.len() - j,
        {
            if leading_space_count(lines[j].as_str()) >= 255 {
                assert(!(leading_spaces(ls[j as int]) < 255));
                assert(!levels_valid(ls));
                return Err(InputError::InputCorrupt);
            }
            j += 1;
        }
        let entries = Toc::ingest(lines, nums);
        Ok(Toc { entries })
    }
}

proof fn lemma_leading_spaces_len(s: Seq<char>)
    ensures
        leading_spaces(s) <= s.len(),
    decreases s.len(),
{
    if s.len() > 0 && s[0] == ' ' {
        lemma_leading_spaces_len(s.drop_first());
    }
}

} // verus!
