use block_codec::budget::dwt_budget_split;

#[test]
fn split_of_small_budgets() {
    let s = dwt_budget_split(0);
    assert_eq!((s.side_length, s.right, s.down, s.diagonal), (0, 0, 0, 0));
    let s = dwt_budget_split(1);
    assert_eq!((s.side_length, s.right, s.down, s.diagonal), (1, 0, 0, 0));
    let s = dwt_budget_split(2);
    assert_eq!((s.side_length, s.right, s.down, s.diagonal), (1, 0, 1, 0));
    let s = dwt_budget_split(3);
    assert_eq!((s.side_length, s.right, s.down, s.diagonal), (1, 1, 1, 0));
    let s = dwt_budget_split(4);
    assert_eq!((s.side_length, s.right, s.down, s.diagonal), (1, 1, 1, 1));
    let s = dwt_budget_split(5);
    assert_eq!((s.side_length, s.right, s.down, s.diagonal), (2, 0, 1, 0));
}

#[test]
fn split_serves_the_square_below_first() {
    let s = dwt_budget_split(6);
    assert_eq!((s.side_length, s.right, s.down, s.diagonal), (2, 0, 2, 0));
    let s = dwt_budget_split(8);
    assert_eq!((s.side_length, s.right, s.down, s.diagonal), (2, 0, 4, 0));
    let s = dwt_budget_split(9);
    assert_eq!((s.side_length, s.right, s.down, s.diagonal), (2, 1, 4, 0));
    let s = dwt_budget_split(12);
    assert_eq!((s.side_length, s.right, s.down, s.diagonal), (2, 4, 4, 0));
    let s = dwt_budget_split(13);
    assert_eq!((s.side_length, s.right, s.down, s.diagonal), (2, 4, 4, 1));
    let s = dwt_budget_split(16);
    assert_eq!((s.side_length, s.right, s.down, s.diagonal), (2, 4, 4, 4));
    let s = dwt_budget_split(17);
    assert_eq!((s.side_length, s.right, s.down, s.diagonal), (4, 0, 1, 0));
    let s = dwt_budget_split(262144);
    assert_eq!((s.side_length, s.right, s.down, s.diagonal), (256, 65536, 65536, 65536));
}

#[test]
fn no_square_gets_more_than_it_holds() {
    for number in 0..5000usize {
        let s = dwt_budget_split(number);
        let area = s.side_length * s.side_length;
        assert!(s.right <= area);
        assert!(s.down <= area);
        assert!(s.diagonal <= area);
        assert_eq!(area + s.right + s.down + s.diagonal, number);
        if number >= 1 {
            assert!(s.side_length.is_power_of_two());
        }
        if number >= 2 {
            assert!(area < number);
        }
        assert!(number <= 4 * area);
    }
}

#[test]
fn split_of_the_largest_budget() {
    let s = dwt_budget_split(usize::MAX);
    let area = s.side_length * s.side_length;
    assert!(s.side_length.is_power_of_two());
    assert_eq!(area, usize::MAX / 4 + 1);
    assert_eq!(s.right, area);
    assert_eq!(s.down, area);
    assert_eq!(s.diagonal, usize::MAX - 3 * area);
}
