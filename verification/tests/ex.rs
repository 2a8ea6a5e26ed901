use ffxiv_tools::ex::exd_map::{ExData, ExdMap, ExhPage, Language};

fn page(start: u32, count: u32) -> ExhPage {
    ExhPage { start, count }
}

fn rows(ids: &[u32]) -> ExData {
    ExData::new(ids.iter().map(|i| (*i, vec![*i as u8, 0xaa])).collect())
}

fn sample() -> ExdMap {
    ExdMap::new(vec![
        (Language::English, vec![(page(0, 10), Some(rows(&[0, 1, 5]))), (page(10, 10), Some(rows(&[10, 12])))]),
        (Language::Japanese, vec![(page(0, 10), None), (page(10, 10), Some(rows(&[11])))]),
    ])
}

#[test]
fn index_finds_row_in_its_page() {
    let m = sample();
    assert_eq!(m.index(5, Language::English), Some(&[5u8, 0xaa][..]));
    assert_eq!(m.index(12, Language::English), Some(&[12u8, 0xaa][..]));
    assert_eq!(m.index(11, Language::English), None);
    assert_eq!(m.index(25, Language::English), None);
}

#[test]
fn index_in_missing_language_or_failed_page() {
    let m = sample();
    assert_eq!(m.index(1, Language::Korean), None);
    assert_eq!(m.index(1, Language::Japanese), None);
    assert_eq!(m.index(11, Language::Japanese), Some(&[11u8, 0xaa][..]));
}

#[test]
fn all_lists_rows_page_after_page() {
    let m = sample();
    let all = m.all(Language::English).unwrap();
    let ids: Vec<u32> = all.iter().map(|(i, _)| *i).collect();
    assert_eq!(ids, vec![0, 1, 5, 10, 12]);
    assert_eq!(all[3].1, &[10u8, 0xaa][..]);
    assert!(m.all(Language::French).is_none());
    assert_eq!(m.all(Language::Japanese).unwrap().len(), 1);
}

#[test]
fn later_entry_for_a_language_wins() {
    let m = ExdMap::new(vec![
        (Language::French, vec![(page(0, 5), Some(rows(&[1])))]),
        (Language::French, vec![(page(0, 5), Some(rows(&[2])))]),
    ]);
    assert_eq!(m.index(1, Language::French), None);
    assert_eq!(m.index(2, Language::French), Some(&[2u8, 0xaa][..]));
}

#[test]
fn rows_of_a_page() {
    let d = rows(&[3, 4, 3]);
    assert_eq!(d.index(3), Some(&[3u8, 0xaa][..]));
    assert_eq!(d.index(9), None);
    assert_eq!(d.all().len(), 3);
}
