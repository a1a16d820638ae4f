use block_codec::zigzag::Zigzag;

fn collect(mut z: Zigzag, at_most: usize) -> Vec<(usize, usize)> {
    let mut cells = Vec::new();
    while cells.len() < at_most {
        match z.next() {
            Some(cell) => cells.push(cell),
            None => break,
        }
    }
    cells
}

#[test]
fn test_zigzag() {
    let z = Zigzag::new(16, 4, 4);
    let cells = collect(z, 25);
    for i in cells.iter() {
        println!("{:?}", i);
    }
    assert_eq!(
        cells,
        vec![
            (0, 0), (1, 0), (0, 1), (0, 2), (1, 1), (2, 0), (3, 0), (2, 1),
            (1, 2), (0, 3), (1, 3), (2, 2), (3, 1), (3, 2), (2, 3), (3, 3),
        ]
    );
}

#[test]
fn test_zigzag_rec() {
    let blocksize_x = 5;
    let blocksize_y = 3;
    let z = Zigzag::new(blocksize_x * blocksize_y, blocksize_x, blocksize_y);
    let cells = collect(z, blocksize_x * blocksize_y);
    for i in cells.iter() {
        println!("{:?}", i);
    }
    assert_eq!(
        cells,
        vec![
            (0, 0), (1, 0), (0, 1), (0, 2), (1, 1), (2, 0), (3, 0), (2, 1),
            (1, 2), (2, 2), (3, 1), (4, 0), (4, 1), (3, 2), (4, 2),
        ]
    );
}

#[test]
fn square_blocks_are_walked_once() {
    for n in 0..12usize {
        for requested in [0, 1, n, n * n / 2, n * n, n * n + 5] {
            let cells = collect(Zigzag::new(requested, n, n), usize::MAX);
            assert_eq!(cells.len(), requested.min(n * n));
            if !cells.is_empty() {
                assert_eq!(cells[0], (0, 0));
            }
            for (i, cell) in cells.iter().enumerate() {
                assert!(cell.0 < n && cell.1 < n);
                assert!(!cells[..i].contains(cell));
            }
        }
    }
}

#[test]
fn diagonals_come_one_after_the_other() {
    let cells = collect(Zigzag::new(usize::MAX, 7, 4), usize::MAX);
    assert_eq!(cells.len(), 28);
    for pair in cells.windows(2) {
        let (before, after) = (pair[0].0 + pair[0].1, pair[1].0 + pair[1].1);
        assert!(after == before || after == before + 1);
    }
}

#[test]
fn single_rows_and_columns() {
    assert_eq!(collect(Zigzag::new(9, 4, 1), 9), vec![(0, 0), (1, 0), (2, 0), (3, 0)]);
    assert_eq!(collect(Zigzag::new(9, 1, 3), 9), vec![(0, 0), (0, 1), (0, 2)]);
    assert_eq!(collect(Zigzag::new(9, 0, 3), 9), vec![]);
    assert_eq!(collect(Zigzag::new(9, 3, 0), 9), vec![]);
}

#[test]
fn the_pass_ends_for_good() {
    let mut z = Zigzag::new(2, 3, 3);
    assert_eq!(z.next(), Some((0, 0)));
    assert_eq!(z.next(), Some((1, 0)));
    assert_eq!(z.next(), None);
    assert_eq!(z.next(), None);
}

#[test]
fn blocks_too_large_to_count() {
    let mut z = Zigzag::new(3, usize::MAX, usize::MAX);
    assert_eq!(z.next(), Some((0, 0)));
    assert_eq!(z.next(), Some((1, 0)));
    assert_eq!(z.next(), Some((0, 1)));
    assert_eq!(z.next(), None);
}
