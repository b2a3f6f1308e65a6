use dki_text::text::Page;
use dki_text::token::{Name, Token};

fn lex(data: &[u8]) -> Vec<Token> {
    Page { number: 1, atom_count: 0, word_count: 0, data: data.to_vec() }.lex()
}

#[test]
fn unknown_bytes_grouped_before_next_token() {
    assert_eq!(
        lex(&[0x1A, 0xF0, 0x03]),
        vec![
            Token::Unknown { raw: vec![0x1A, 0xF0], decoded: String::from("\u{1a}\u{fffd}") },
            Token::EndOfPage
        ]
    );
}

#[test]
fn unknown_bytes_flushed_at_end() {
    assert_eq!(
        lex(&[0x04, 0x41, 0x42]),
        vec![Token::ItalicsOn, Token::Unknown { raw: vec![0x41, 0x42], decoded: String::from("AB") }]
    );
}

#[test]
fn unknown_relexes_to_itself() {
    let first = lex(&[0x41, 0x42, 0xFF]);
    match &first[..] {
        [Token::Unknown { raw, .. }] => assert_eq!(lex(raw), first),
        other => panic!("unexpected tokens {:?}", other),
    }
}

#[test]
fn truncated_token_ends_stream() {
    assert_eq!(lex(&[0x06, 0x01, 0x05, 0x61]), vec![Token::BoldOn]);
    assert_eq!(lex(&[0x0F, 0x01]), Vec::<Token>::new());
}

#[test]
fn empty_payload() {
    assert!(lex(&[]).is_empty());
}

#[test]
fn integers_are_little_endian() {
    assert_eq!(
        lex(&[0x0F, 0x34, 0x12, 0x8A, 0x01, 0x02, 0x03, 0x04, 0x95, 1, 0, 0, 0, 0, 0, 0, 0x80]),
        vec![
            Token::Concordance(0x1234),
            Token::AutoLink(0x04030201),
            Token::SV(0x8000_0000_0000_0001)
        ]
    );
}

#[test]
fn names_and_compound_operands() {
    assert_eq!(
        lex(&[0x80, 0x05, 0, 0, 0, 0x01, 0x78, 0x86, 0x02, 0x00, 0x03, 0x00, 0x00, 0xA1, 7, 8, 9]),
        vec![
            Token::PageLink { page_number: 5, name: Name { data: String::from("x") } },
            Token::InlineImage { width: 2, height: 3, name: Name { data: String::new() } },
            Token::EndNew([7, 8, 9]),
        ]
    );
}

#[test]
fn legacy_code_page_in_names() {
    assert_eq!(
        lex(&[0x0E, 0x02, 0x80, 0xE9]),
        vec![Token::FileName(Name { data: String::from("\u{20ac}\u{e9}") })]
    );
}

#[test]
fn word_rest_takes_full_length_byte() {
    assert_eq!(
        lex(&[0xAA, 0x02, 0x61, 0x62]),
        vec![Token::WordRest { space_at_end: false, data: String::from("ab") }]
    );
}

#[test]
fn word_space_flag_from_high_bit() {
    assert_eq!(
        lex(&[0x01, 0x81, 0x61]),
        vec![Token::Word { space_at_end: true, data: vec![0x61] }]
    );
}
