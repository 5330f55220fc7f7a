use plotonomicon::cli::{select_cards, EntryError};

fn entries(v: &[&str]) -> Vec<String> {
    v.iter().map(|s| s.to_string()).collect()
}

#[test]
fn all_cards_by_default() {
    let cards = select_cards(None, 0, 22).unwrap();
    assert_eq!(cards.len(), 22);
    assert!(cards.contains(&0) && cards.contains(&21));
    let cards = select_cards(None, 1, 88).unwrap();
    assert_eq!(cards.len(), 87);
    assert!(!cards.contains(&0) && cards.contains(&87));
}

#[test]
fn single_numbers() {
    let cards = select_cards(Some(&entries(&["3", "+7", "3"])), 0, 22).unwrap();
    assert_eq!(cards.len(), 2);
    assert!(cards.contains(&3) && cards.contains(&7));
}

#[test]
fn ranges_select_every_card_between() {
    let cards = select_cards(Some(&entries(&["3-5"])), 1, 88).unwrap();
    let mut v: Vec<usize> = cards.into_iter().collect();
    v.sort();
    assert_eq!(v, vec![3, 4, 5]);
    let cards = select_cards(Some(&entries(&["10-12", "4"])), 0, 22).unwrap();
    let mut v: Vec<usize> = cards.into_iter().collect();
    v.sort();
    assert_eq!(v, vec![4, 10, 11, 12]);
    let cards = select_cards(Some(&entries(&["7-7"])), 0, 22).unwrap();
    assert_eq!(cards.len(), 1);
    assert!(cards.contains(&7));
}

#[test]
fn refused_entries() {
    let err = select_cards(Some(&entries(&["1", "x-3", "zz"])), 0, 22).unwrap_err();
    assert_eq!(err.kind, EntryError::InvalidRangeStart);
    assert_eq!(err.entry, "x-3");
    let err = select_cards(Some(&entries(&["1-y"])), 0, 22).unwrap_err();
    assert_eq!(err.kind, EntryError::InvalidRangeEnd);
    let err = select_cards(Some(&entries(&["zz"])), 0, 22).unwrap_err();
    assert_eq!(err.kind, EntryError::InvalidFormat);
    assert_eq!(err.entry, "zz");
    let err = select_cards(Some(&entries(&[""])), 0, 22).unwrap_err();
    assert_eq!(err.kind, EntryError::InvalidFormat);
    let max = format!("0-{}", usize::MAX);
    let err = select_cards(Some(&vec![max.clone()]), 0, 22).unwrap_err();
    assert_eq!(err.kind, EntryError::RangeEndTooLarge);
    assert_eq!(err.entry, max);
}

#[test]
fn spans_select_every_number() {
    let cards = select_cards(Some(&entries(&["2-5", "9"])), 1, 88).unwrap();
    let mut v: Vec<usize> = cards.into_iter().collect();
    v.sort();
    assert_eq!(v, vec![2, 3, 4, 5, 9]);
    let cards = select_cards(Some(&entries(&["5-2"])), 1, 88).unwrap();
    assert!(cards.is_empty());
    let err = select_cards(Some(&entries(&["2-"])), 1, 88).unwrap_err();
    assert_eq!(err.kind, EntryError::InvalidRangeEnd);
}
