use plotonomicon::tally::counted;

#[test]
fn counts_start_at_first_and_go_up_by_one() {
    assert_eq!(counted(None, 0), 0);
    assert_eq!(counted(None, 1), 1);
    assert_eq!(counted(Some(0), 0), 1);
    assert_eq!(counted(Some(41), 1), 42);
    assert_eq!(counted(Some(usize::MAX - 1), 0), usize::MAX);
}
