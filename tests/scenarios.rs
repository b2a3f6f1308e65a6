use dki_text::encoder::{encode_page, Style};
use dki_text::for_flutter_encoder::ForFlutter;
use dki_text::for_flutter_proto::{Alignment, Body, ChunkStyle, Segments};
use dki_text::text::Page;
use dki_text::toc::TocItem;
use dki_text::token::{Name, Token};

fn page(data: &[u8]) -> Page {
    Page { number: 1, atom_count: 0, word_count: 0, data: data.to_vec() }
}

fn item() -> TocItem {
    TocItem {
        id: 0,
        title: String::from("Title"),
        level: 1,
        page_number: 1,
        page_count: 1,
        children: Vec::new(),
    }
}

fn typeset(data: &[u8]) -> (String, Segments) {
    let tokens = page(data).lex();
    let mut sink = ForFlutter::new();
    encode_page(&item(), 1, &tokens, &mut sink);
    let plain = sink.plain.clone();
    (plain, sink.to_proto())
}

fn chunks(doc: &Segments) -> Vec<(ChunkStyle, String)> {
    let mut out = Vec::new();
    for seg in &doc.segments {
        for piece in &seg.pieces {
            if let Some(Body::Chunk(c)) = &piece.body {
                out.push((c.style.unwrap(), c.text.clone()));
            }
        }
    }
    out
}

fn plain_chunk() -> ChunkStyle {
    ChunkStyle {
        emphasis: false,
        strong: false,
        superscript: false,
        subscript: false,
        strikethrough: false,
        underline: false,
        wide_spacing: false,
        colour_gray: false,
        size: 100,
    }
}

#[test]
fn simple_word() {
    let tokens = page(&[0x01, 0x03, 0x66, 0x6F, 0x6F, 0x03]).lex();
    assert_eq!(
        tokens,
        vec![Token::Word { space_at_end: false, data: b"foo".to_vec() }, Token::EndOfPage]
    );
    let (plain, doc) = typeset(&[0x01, 0x03, 0x66, 0x6F, 0x6F, 0x03]);
    assert_eq!(plain, "foo");
    assert_eq!(doc.segments.len(), 1);
    assert_eq!(chunks(&doc), vec![(plain_chunk(), String::from("foo"))]);
}

#[test]
fn bold_toggle() {
    let (plain, doc) = typeset(&[0x06, 0x01, 0x03, 0x66, 0x6F, 0x6F, 0x07, 0x03]);
    assert_eq!(plain, "foo");
    assert_eq!(doc.segments.len(), 1);
    assert_eq!(doc.segments[0].style.unwrap().alignment, Alignment::Justified);
    let strong = ChunkStyle { strong: true, ..plain_chunk() };
    assert_eq!(chunks(&doc), vec![(strong, String::from("foo"))]);
}

#[test]
fn hyphenation() {
    let data = [0x15, 0x01, 0x04, 0x66, 0x6F, 0x6F, 0x2D, 0x01, 0x03, 0x62, 0x61, 0x72, 0x03];
    let (plain, doc) = typeset(&data);
    // The kept dash is not alphanumeric, so a space follows the word.
    assert_eq!(plain, "foo- bar");
    assert_eq!(chunks(&doc), vec![(plain_chunk(), String::from("foo- bar"))]);
}

#[test]
fn dash_stripped_without_hyphen_flag() {
    let data = [0x01, 0x04, 0x66, 0x6F, 0x6F, 0x2D, 0x01, 0x03, 0x62, 0x61, 0x72, 0x03];
    let (plain, _) = typeset(&data);
    assert_eq!(plain, "foobar");
}

#[test]
fn word_incomplete() {
    let data = [0xAB, 0x03, 0x66, 0x6F, 0x6F, 0x01, 0x83, 0x66, 0x6F, 0x6F, 0x62, 0x61, 0x72, 0x03];
    let (plain, doc) = typeset(&data);
    assert_eq!(plain, "foo ");
    assert_eq!(chunks(&doc), vec![(plain_chunk(), String::from("foo "))]);
}

#[test]
fn link_capture() {
    let data = [
        0xA2, 0x07, 0x68, 0x74, 0x74, 0x70, 0x3A, 0x2F, 0x2F, 0x01, 0x05, 0x63, 0x6C, 0x69, 0x63,
        0x6B, 0xA3, 0x03,
    ];
    let (plain, doc) = typeset(&data);
    assert_eq!(plain, "");
    assert!(chunks(&doc).is_empty());
    let mut links = Vec::new();
    for seg in &doc.segments {
        for piece in &seg.pieces {
            if let Some(Body::Link(l)) = &piece.body {
                links.push((l.url.clone(), l.text.clone()));
            }
        }
    }
    assert_eq!(links, vec![(String::from("http://"), String::from("click"))]);
}

#[test]
fn preset_then_word() {
    let (plain, doc) = typeset(&[0x08, 0x04, 0x01, 0x03, 0x66, 0x6F, 0x6F, 0x03]);
    assert_eq!(plain, "foo");
    let strong = ChunkStyle { strong: true, ..plain_chunk() };
    assert_eq!(chunks(&doc), vec![(strong, String::from("foo"))]);
}

#[test]
fn adjacent_chunks_merge_and_styles_split() {
    // "a", bold "b", bold "c" (merged), plain "d"
    let data = [
        0x01, 0x01, 0x61, 0x06, 0x01, 0x01, 0x62, 0x01, 0x01, 0x63, 0x07, 0x01, 0x01, 0x64, 0x03,
    ];
    let (plain, doc) = typeset(&data);
    assert_eq!(plain, "abcd");
    let strong = ChunkStyle { strong: true, ..plain_chunk() };
    assert_eq!(
        chunks(&doc),
        vec![
            (plain_chunk(), String::from("a")),
            (strong, String::from("bc")),
            (plain_chunk(), String::from("d")),
        ]
    );
    let mut concat = String::new();
    for (_, t) in chunks(&doc) {
        concat.push_str(&t);
    }
    assert_eq!(concat, plain);
}

#[test]
fn segment_boundary_on_alignment() {
    // "a", centered "b", centered off "c"
    let data = [0x01, 0x01, 0x61, 0x98, 0x01, 0x01, 0x62, 0x99, 0x01, 0x01, 0x63, 0x03];
    let (_, doc) = typeset(&data);
    let aligns: Vec<Alignment> =
        doc.segments.iter().map(|s| s.style.unwrap().alignment).collect();
    assert_eq!(aligns, vec![Alignment::Justified, Alignment::Center, Alignment::Justified]);
    assert_eq!(doc.segments[1].pieces.len(), 1);
}

#[test]
fn alignment_resolution() {
    // no-justify "a", right "b", centered "c"
    let data = [0xA7, 0x01, 0x01, 0x61, 0x9A, 0x01, 0x01, 0x62, 0x98, 0x01, 0x01, 0x63, 0x03];
    let (_, doc) = typeset(&data);
    let aligns: Vec<Alignment> =
        doc.segments.iter().map(|s| s.style.unwrap().alignment).collect();
    assert_eq!(
        aligns,
        vec![Alignment::Justified, Alignment::Unjustified, Alignment::Right, Alignment::Center]
    );
    assert!(doc.segments[0].pieces.is_empty());
}

#[test]
fn page_refs_join_last_segment() {
    let data = [0x01, 0x01, 0x61, 0x98, 0x8A, 0x07, 0x00, 0x00, 0x00, 0x03];
    let (_, doc) = typeset(&data);
    assert_eq!(doc.segments.len(), 1);
    assert_eq!(doc.segments[0].pieces.len(), 2);
    match &doc.segments[0].pieces[1].body {
        Some(Body::PageRef(p)) => assert_eq!(p.page, 7),
        other => panic!("unexpected piece {:?}", other),
    }
}

#[test]
fn blanks_and_breaks() {
    let data = [0x01, 0x01, 0x61, 0x00, 0x03, 0x02, 0x8F, 0x1B, 0x8B, 0x03];
    let (plain, _) = typeset(&data);
    assert_eq!(plain, "a   \n\n\n  ");
}

#[test]
fn soft_return_after_hyphen_emits_nothing() {
    let data = [0x01, 0x01, 0x61, 0xAC, 0x8B, 0x01, 0x01, 0x62, 0x03];
    let (plain, _) = typeset(&data);
    assert_eq!(plain, "ab");
}

#[test]
fn word_ending_in_punctuation_gets_space() {
    let data = [0x01, 0x02, 0x61, 0x2C, 0x01, 0x01, 0x62, 0x03];
    let (plain, _) = typeset(&data);
    assert_eq!(plain, "a, b");
}

#[test]
fn font_size_and_padding() {
    let data = [0x88, 0x96, 0x94, 0x2C, 0x01, 0x01, 0x01, 0x61, 0x03];
    let (_, doc) = typeset(&data);
    let seg = doc.segments.last().unwrap();
    assert_eq!(seg.style.unwrap().left_padding, 300);
    assert_eq!(chunks(&doc)[0].0.size, 150);
}

#[test]
fn tokens_after_end_of_page_ignored() {
    let (plain, _) = typeset(&[0x01, 0x01, 0x61, 0x03, 0x01, 0x01, 0x62]);
    assert_eq!(plain, "a");
}

#[test]
fn style_default_is_plain() {
    let s = Style::default();
    assert!(!s.strong && !s.emphasis && s.size.is_none() && s.alignment.is_none());
}

#[test]
fn search_word_token_is_lexed() {
    let tokens = page(&[0x87, 0x02, 0x68, 0x69]).lex();
    assert_eq!(tokens, vec![Token::SearchWord(Name { data: String::from("hi") })]);
}

#[test]
fn trailing_white_space_trimmed() {
    let (plain, _) = typeset(&[0x01, 0x03, 0x61, 0x62, 0x20, 0x01, 0x01, 0x63, 0x03]);
    assert_eq!(plain, "abc");
}

#[test]
fn other_fonts_map_bytes_to_code_points() {
    let (plain, _) = typeset(&[0x0D, 0x01, 0x01, 0x02, 0x80, 0xE9, 0x03]);
    assert_eq!(plain, "\u{80}\u{e9}");
    let (plain, _) = typeset(&[0x01, 0x02, 0x80, 0xE9, 0x03]);
    assert_eq!(plain, "\u{20ac}\u{e9}");
}

#[test]
fn gray_and_sizes_from_presets() {
    let data = [0x85, 0x01, 0x08, 0x02, 0x01, 0x01, 0x61, 0x08, 0x00, 0x01, 0x01, 0x62, 0x03];
    let (_, doc) = typeset(&data);
    let gray = ChunkStyle { colour_gray: true, size: 122, ..plain_chunk() };
    let sized = ChunkStyle { size: 122, ..plain_chunk() };
    assert_eq!(chunks(&doc), vec![(gray, String::from("a")), (sized, String::from("b"))]);
}

#[test]
fn non_ascii_white_space_trimmed() {
    let (plain, _) = typeset(&[0x01, 0x02, 0x61, 0xA0, 0x03]);
    assert_eq!(plain, "a");
}
