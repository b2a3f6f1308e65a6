use dki_text::text::{InputError, PageTable, Pages};
use dki_text::toc::Toc;

fn block(entries: &[i32]) -> Vec<u8> {
    let mut v = ((entries.len() - 1) as u32).to_le_bytes().to_vec();
    for e in entries {
        v.extend_from_slice(&e.to_le_bytes());
    }
    v
}

#[test]
fn page_table_without_header() {
    let file = [0, 0, 0, 0, 10, 0, 0, 0, 0, 0, 5, 0, 0x01, 0x01, 0x61];
    let table = PageTable::load(&file).unwrap();
    let pages = Pages::load(&file, &table, 1, 1).unwrap();
    assert_eq!(pages.start, 1);
    assert_eq!(pages.pages.len(), 1);
    let p = &pages.pages[0];
    assert_eq!((p.number, p.atom_count, p.word_count), (1, 0, 0));
    assert_eq!(p.data, vec![0x01, 0x01, 0x61]);
}

#[test]
fn page_table_with_header() {
    let file = [
        0xCC, 0x24, 0x19, 0x00, 1, 0, 0, 0, 0, 0, 0, 0, 16, 0, 0, 0, 2, 0, 7, 0, 9, 0, 0x03, 0x03,
    ];
    let table = PageTable::load(&file).unwrap();
    let pages = Pages::load(&file, &table, 1, 1).unwrap();
    let p = &pages.pages[0];
    assert_eq!((p.number, p.atom_count, p.word_count), (1, 7, 9));
    assert_eq!(p.data, vec![0x03, 0x03]);
}

#[test]
fn short_file_is_corrupt() {
    assert_eq!(PageTable::load(&[1, 2]).err(), Some(InputError::InputCorrupt));
    assert_eq!(PageTable::load(&[0xCC, 0x24, 0x19, 0x00, 1]).err(), Some(InputError::InputCorrupt));
    assert_eq!(PageTable::load(&[1, 0, 0, 0, 5, 0, 0, 0]).err(), Some(InputError::InputCorrupt));
}

#[test]
fn pages_out_of_range_are_corrupt() {
    let file = [0, 0, 0, 0, 10, 0, 0, 0, 0, 0, 5, 0, 0x01, 0x01, 0x61];
    let table = PageTable::load(&file).unwrap();
    assert_eq!(Pages::load(&file, &table, 2, 1).err(), Some(InputError::InputCorrupt));
    assert_eq!(Pages::load(&file, &table, 0, 1).err(), Some(InputError::InputCorrupt));
    assert_eq!(Pages::load(&file, &table, 1, 2).err(), Some(InputError::InputCorrupt));
    assert_eq!(Pages::load(&file, &table, 1, 0).unwrap().pages.len(), 0);
}

#[test]
fn bad_offsets_and_sizes_are_corrupt() {
    let negative = [0, 0, 0, 0, 0xFF, 0xFF, 0xFF, 0xFF];
    let table = PageTable::load(&negative).unwrap();
    assert_eq!(Pages::load(&negative, &table, 1, 1).err(), Some(InputError::InputCorrupt));
    let tiny = [0, 0, 0, 0, 8, 0, 0, 0, 1, 0];
    let table = PageTable::load(&tiny).unwrap();
    assert_eq!(Pages::load(&tiny, &table, 1, 1).err(), Some(InputError::InputCorrupt));
    let long = [0, 0, 0, 0, 8, 0, 0, 0, 9, 0, 1];
    let table = PageTable::load(&long).unwrap();
    assert_eq!(Pages::load(&long, &table, 1, 1).err(), Some(InputError::InputCorrupt));
}

fn dka(numbers: &[i32]) -> Vec<u8> {
    let mut v = block(&[0]);
    v.extend(block(&[1, 2]));
    v.extend(block(&[3]));
    v.extend(block(numbers));
    v
}

#[test]
fn toc_nests_by_indentation() {
    let dki = b"Intro\r\n Part\n  Sub\nEnd\n";
    let toc = Toc::load(dki, &dka(&[3, 5, 6, 9])).unwrap();
    assert_eq!(toc.entries.len(), 2);
    let intro = &toc.entries[0];
    assert_eq!((intro.id, intro.title.as_str(), intro.level), (0, "Intro", 1));
    assert_eq!((intro.page_number, intro.page_count), (1, 2));
    assert_eq!(intro.children.len(), 1);
    let part = &intro.children[0];
    assert_eq!((part.id, part.title.as_str(), part.level), (1, "Part", 2));
    assert_eq!((part.page_number, part.page_count), (3, 2));
    let sub = &part.children[0];
    assert_eq!((sub.id, sub.title.as_str(), sub.level), (2, "Sub", 3));
    assert_eq!((sub.page_number, sub.page_count), (5, 1));
    let end = &toc.entries[1];
    assert_eq!((end.id, end.title.as_str(), end.level), (3, "End", 1));
    assert_eq!((end.page_number, end.page_count), (6, 3));
    assert!(end.children.is_empty());
}

#[test]
fn toc_titles_use_legacy_code_page() {
    let toc = Toc::load(&[0x80, 0x41], &dka(&[2])).unwrap();
    assert_eq!(toc.entries[0].title, "\u{20ac}A");
}

#[test]
fn toc_count_mismatch_is_corrupt() {
    assert_eq!(Toc::load(b"A\nB\n", &dka(&[2])).err(), Some(InputError::InputCorrupt));
}

#[test]
fn toc_decreasing_pages_are_corrupt() {
    assert_eq!(Toc::load(b"A\nB\n", &dka(&[4, 3])).err(), Some(InputError::InputCorrupt));
    assert_eq!(Toc::load(b"A\n", &dka(&[0])).err(), Some(InputError::InputCorrupt));
}

#[test]
fn toc_missing_blocks_are_corrupt() {
    assert_eq!(Toc::load(b"A\n", &block(&[1])).err(), Some(InputError::InputCorrupt));
}

#[test]
fn toc_empty() {
    let mut v = block(&[0]);
    v.extend(block(&[1]));
    v.extend(block(&[3]));
    v.extend(block(&[1]));
    assert_eq!(Toc::load(b"", &v).err(), Some(InputError::InputCorrupt));
}

#[test]
fn ingest_nests_following_deeper_entries() {
    let lines = vec![String::from("A"), String::from(" B"), String::from("C")];
    let items = Toc::ingest(lines, vec![3, 5, 9]);
    assert_eq!(items.len(), 2);
    let a = &items[0];
    assert_eq!((a.id, a.title.as_str(), a.level, a.page_number, a.page_count), (0, "A", 1, 1, 2));
    assert_eq!(a.children.len(), 1);
    let b = &a.children[0];
    assert_eq!((b.id, b.title.as_str(), b.level, b.page_number, b.page_count), (1, "B", 2, 3, 2));
    assert!(b.children.is_empty());
    let c = &items[1];
    assert_eq!((c.id, c.title.as_str(), c.level, c.page_number, c.page_count), (2, "C", 1, 5, 4));
    assert!(c.children.is_empty());
}

#[test]
fn ingest_ignores_extra_page_numbers() {
    let items = Toc::ingest(vec![String::from("A")], vec![2, 7]);
    assert_eq!(items.len(), 1);
    assert_eq!((items[0].page_number, items[0].page_count), (1, 1));
}

#[test]
fn ingest_shallower_sibling_closes_deeper_run() {
    let lines = vec![
        String::from("A"),
        String::from("  B"),
        String::from(" C"),
        String::from("D"),
    ];
    let items = Toc::ingest(lines, vec![1, 1, 1, 1]);
    assert_eq!(items.len(), 2);
    let ids: Vec<usize> = items[0].children.iter().map(|x| x.id).collect();
    assert_eq!(ids, vec![1, 2]);
    assert_eq!(items[1].id, 3);
}
