use dki_text::text::Page;
use dki_text::toc::TocItem;
use dki_text::token::Token;
use dki_text::typst::{count_delimeters, write_page};

fn markup(title: &str, data: &[u8]) -> String {
    let item = TocItem {
        id: 0,
        title: String::from(title),
        level: 2,
        page_number: 4,
        page_count: 1,
        children: Vec::new(),
    };
    let tokens = Page { number: 4, atom_count: 0, word_count: 0, data: data.to_vec() }.lex();
    write_page(&item, 4, &tokens)
}

fn body(title: &str, data: &[u8]) -> String {
    let out = markup(title, data);
    let head = out.find('\n').unwrap();
    let tail = out.len() - "\n#pagebreak(weak: true)\n".len();
    out[head + 1..tail].to_string()
}

#[test]
fn heading_and_page_break() {
    assert_eq!(
        markup("A_b", &[0x03]),
        "#align(center)[#heading(level: 2, numbering: \"1.a.\")[A\\_b] <page4>]\n\n#pagebreak(weak: true)\n"
    );
}

#[test]
fn bold_word() {
    assert_eq!(body("T", &[0x06, 0x01, 0x03, 0x66, 0x6F, 0x6F, 0x07, 0x03]), "#strong[foo]");
}

#[test]
fn closing_a_wrapper_below_the_top() {
    let data = [0x04, 0x06, 0x01, 0x01, 0x61, 0x05, 0x01, 0x01, 0x62, 0x07, 0x03];
    assert_eq!(body("T", &data), "#emph[#strong[a]]#strong[b]");
}

#[test]
fn open_wrappers_close_at_page_end() {
    let data = [0x04, 0x06, 0x01, 0x01, 0x61, 0x03];
    assert_eq!(body("T", &data), "#emph[#strong[a]]");
}

#[test]
fn words_are_escaped() {
    assert_eq!(body("T", &[0x01, 0x03, 0x78, 0x2A, 0x79, 0x03]), "x\\*y");
}

#[test]
fn sizes_and_padding() {
    assert_eq!(body("T", &[0x88, 0x64, 0x01, 0x01, 0x61, 0x03]), "#text(size: 01em)[a]");
    assert_eq!(body("T", &[0x88, 0x96, 0x03]), "#text(size: 1.5em)[]");
    assert_eq!(body("T", &[0x94, 0x31, 0x01, 0x03]), "#pad(x: 3.05pt)[]");
    assert_eq!(body("T", &[0x08, 0x01, 0x08, 0x04, 0x03]), "#text(size: 1.33em)[]#text(size: 1em)[#strong[]]");
}

#[test]
fn links_and_page_refs() {
    let data = [0xA2, 0x01, 0x75, 0x01, 0x01, 0x61, 0xA3, 0x80, 0x05, 0, 0, 0, 0x00, 0x8A, 0x07, 0, 0, 0, 0x03];
    assert_eq!(body("T", &data), "#link(\"u\")[a] @page5 @page7");
}

#[test]
fn lists_and_breaks() {
    let data = [0x92, 0x90, 0x01, 0x01, 0x61, 0x91, 0x93, 0x02, 0x8F, 0x03];
    assert_eq!(body("T", &data), "#list[[a]]\\\n\n");
}

#[test]
fn delimiter_counts() {
    assert_eq!(count_delimeters("a-b", false), 2);
    assert_eq!(count_delimeters("a-b", true), 1);
    assert_eq!(count_delimeters("--", false), 0);
    assert_eq!(count_delimeters("ab", false), 1);
    assert_eq!(count_delimeters("(a.b.c)", true), 2);
    assert_eq!(count_delimeters("", false), 0);
}

fn page5(lexed: &[Token]) -> String {
    let item = TocItem {
        id: 0,
        title: String::from("T"),
        level: 1,
        page_number: 5,
        page_count: 1,
        children: Vec::new(),
    };
    write_page(&item, 5, lexed)
}

#[test]
fn escaped_word_on_a_page() {
    let out = page5(&[Token::Word { space_at_end: false, data: b"a*b".to_vec() }, Token::EndOfPage]);
    assert_eq!(
        out,
        "#align(center)[#heading(level: 1, numbering: \"1.a.\")[T] <page5>]\na\\*b\n#pagebreak(weak: true)\n"
    );
}

#[test]
fn closing_strong_under_emph() {
    let out = page5(&[Token::BoldOn, Token::ItalicsOn, Token::BoldOff, Token::EndOfPage]);
    assert_eq!(
        out,
        "#align(center)[#heading(level: 1, numbering: \"1.a.\")[T] <page5>]\n#strong[#emph[]]#emph[]\n#pagebreak(weak: true)\n"
    );
}

#[test]
fn every_special_character_escaped() {
    assert_eq!(body("#()[]*=_`<>/$x", &[0x03]), "");
    let out = markup("#()[]*=_`<>/$x", &[0x03]);
    assert!(out.contains("[\\#\\(\\)\\[\\]\\*\\=\\_\\`\\<\\>\\/\\$x]"));
}
