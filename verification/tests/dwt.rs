use block_codec::channel::Channel;
use block_codec::dwt::{dwt, dwt_decode_block, dwt_encode_block, idwt};
use block_codec::pixel::Pixel;

fn grid_of(rows: &[Vec<i128>]) -> Vec<Vec<Pixel<i128>>> {
    rows.iter()
        .map(|row| row.iter().map(|v| Pixel { r: *v, g: 0, b: -*v }).collect())
        .collect()
}

fn reds(grid: &Vec<Vec<Pixel<i128>>>) -> Vec<Vec<i128>> {
    grid.iter().map(|row| row.iter().map(|p| p.r).collect()).collect()
}

#[test]
fn row_step_averages_and_differences() {
    let mut grid = grid_of(&[vec![8, 4, 6, 2], vec![-3, 1, 0, 5]]);
    dwt(&mut grid, &Channel::R, true, 0, 4, 0, 2);
    assert_eq!(reds(&grid), vec![vec![6, 4, 2, 2], vec![-1, 2, -2, -3]]);
    // the other channels are untouched
    assert_eq!(grid[0][0].g, 0);
    assert_eq!(grid[0][0].b, -8);
}

#[test]
fn column_step_averages_and_differences() {
    let mut grid = grid_of(&[vec![8, 4], vec![4, 2], vec![6, 0], vec![2, 2]]);
    dwt(&mut grid, &Channel::R, false, 0, 2, 0, 4);
    assert_eq!(reds(&grid), vec![vec![6, 3], vec![4, 1], vec![2, 1], vec![2, -1]]);
}

#[test]
fn halving_rounds_down() {
    let mut grid = grid_of(&[vec![1, 2, -1, -2]]);
    dwt(&mut grid, &Channel::R, true, 0, 4, 0, 1);
    // (1 + 2) / 2 = 1, (-1 - 2) / 2 = -2, (1 - 2) / 2 = -1, (-1 + 2) / 2 = 0
    assert_eq!(reds(&grid), vec![vec![1, -2, -1, 0]]);
}

#[test]
fn odd_length_leaves_zero_at_the_end() {
    let mut grid = grid_of(&[vec![8, 4, 7]]);
    dwt(&mut grid, &Channel::R, true, 0, 3, 0, 1);
    assert_eq!(reds(&grid), vec![vec![6, 2, 0]]);
}

#[test]
fn inverse_step_undoes_forward_step() {
    let rows = vec![vec![8, 4, 6, 2], vec![-2, 2, 0, 4]];
    let mut grid = grid_of(&rows);
    dwt(&mut grid, &Channel::R, true, 0, 4, 0, 2);
    idwt(&mut grid, &Channel::R, true, 0, 4, 0, 2);
    assert_eq!(reds(&grid), rows);
    dwt(&mut grid, &Channel::R, false, 0, 4, 0, 2);
    idwt(&mut grid, &Channel::R, false, 0, 4, 0, 2);
    assert_eq!(reds(&grid), rows);
}

#[test]
fn step_leaves_the_rest_of_the_grid() {
    let mut grid = grid_of(&[vec![1, 2, 3, 4], vec![5, 6, 7, 8], vec![9, 10, 11, 12]]);
    dwt(&mut grid, &Channel::R, true, 1, 2, 1, 1);
    assert_eq!(
        reds(&grid),
        vec![vec![1, 2, 3, 4], vec![5, 6, -1, 8], vec![9, 10, 11, 12]]
    );
}

#[test]
fn full_budget_round_trip() {
    let rows: Vec<Vec<i128>> = (0..4)
        .map(|y| (0..4).map(|x| ((x * 7 + y * 13) % 256) * 16).collect())
        .collect();
    let mut grid = grid_of(&rows);
    dwt_encode_block(&mut grid, 16, &Channel::R, 0, 4, 0, 4);
    dwt_decode_block(&mut grid, &Channel::R, 0, 4, 0, 4);
    assert_eq!(reds(&grid), rows);
}

#[test]
fn budget_above_capacity_keeps_everything() {
    let rows: Vec<Vec<i128>> = (0..4)
        .map(|y| (0..4).map(|x| ((x * 7 + y * 13) % 256) * 16).collect())
        .collect();
    let mut grid = grid_of(&rows);
    dwt_encode_block(&mut grid, 1000, &Channel::R, 0, 4, 0, 4);
    dwt_decode_block(&mut grid, &Channel::R, 0, 4, 0, 4);
    assert_eq!(reds(&grid), rows);
}

#[test]
fn zero_budget_gives_zero() {
    let rows: Vec<Vec<i128>> = (0..4).map(|y| (0..4).map(|x| (x + y) * 16).collect()).collect();
    let mut grid = grid_of(&rows);
    dwt_encode_block(&mut grid, 0, &Channel::R, 0, 4, 0, 4);
    assert_eq!(reds(&grid), vec![vec![0; 4]; 4]);
    dwt_decode_block(&mut grid, &Channel::R, 0, 4, 0, 4);
    assert_eq!(reds(&grid), vec![vec![0; 4]; 4]);
}

#[test]
fn uniform_block_survives_any_budget() {
    for number in 1..=16 {
        let rows = vec![vec![4 * 16; 4]; 4];
        let mut grid = grid_of(&rows);
        dwt_encode_block(&mut grid, number, &Channel::R, 0, 4, 0, 4);
        let mut expected = vec![vec![0; 4]; 4];
        expected[0][0] = 4 * 16;
        assert_eq!(reds(&grid), expected);
        dwt_decode_block(&mut grid, &Channel::R, 0, 4, 0, 4);
        assert_eq!(reds(&grid), rows);
    }
}

#[test]
fn budget_keeps_coefficients_in_order() {
    // 4x4 block whose transform has no zero coefficient
    let rows: Vec<Vec<i128>> = vec![
        vec![1600, 160, 320, 3200],
        vec![480, 4800, 640, 64],
        vec![800, 80, 9600, 960],
        vec![112, 1120, 1280, 12800],
    ];
    let mut full = grid_of(&rows);
    dwt_encode_block(&mut full, 16, &Channel::R, 0, 4, 0, 4);
    let full = reds(&full);
    for y in 0..4 {
        for x in 0..4 {
            assert_ne!(full[y][x], 0);
        }
    }
    // budget 6: side 2; the square of side 2 at the origin is kept whole
    // (4), the square below gets min(6 - 4, 4) = 2, the right one 0.
    let mut grid = grid_of(&rows);
    dwt_encode_block(&mut grid, 6, &Channel::R, 0, 4, 0, 4);
    let kept = [(0, 0), (1, 0), (0, 1), (1, 1), (0, 2), (1, 2)];
    let got = reds(&grid);
    for y in 0..4 {
        for x in 0..4 {
            if kept.contains(&(x, y)) {
                assert_eq!(got[y][x], full[y][x]);
            } else {
                assert_eq!(got[y][x], 0);
            }
        }
    }
    // budget 15: all but the last place of the diagonal square
    let mut grid = grid_of(&rows);
    dwt_encode_block(&mut grid, 15, &Channel::R, 0, 4, 0, 4);
    let got = reds(&grid);
    for y in 0..4 {
        for x in 0..4 {
            if (x, y) == (3, 3) {
                assert_eq!(got[y][x], 0);
            } else {
                assert_eq!(got[y][x], full[y][x]);
            }
        }
    }
}

#[test]
fn encoding_again_gives_the_same_coefficients() {
    let rows: Vec<Vec<i128>> = (0..8)
        .map(|y| (0..8).map(|x| ((x * 37 + y * 91 + x * y) % 256) * 64).collect())
        .collect();
    for number in [0usize, 1, 2, 5, 12, 13, 16, 17, 40, 63, 64, 65] {
        let mut grid = grid_of(&rows);
        dwt_encode_block(&mut grid, number, &Channel::R, 0, 8, 0, 8);
        let first = reds(&grid);
        dwt_decode_block(&mut grid, &Channel::R, 0, 8, 0, 8);
        dwt_encode_block(&mut grid, number, &Channel::R, 0, 8, 0, 8);
        assert_eq!(reds(&grid), first);
    }
}

#[test]
fn block_inside_a_larger_grid() {
    let rows: Vec<Vec<i128>> = (0..6)
        .map(|y| (0..7).map(|x| (x * 10 + y) * 16).collect())
        .collect();
    let mut grid = grid_of(&rows);
    dwt_encode_block(&mut grid, 16, &Channel::R, 2, 4, 1, 4);
    let encoded = reds(&grid);
    for y in 0..6 {
        for x in 0..7 {
            if !(x >= 2 && x < 6 && y >= 1 && y < 5) {
                assert_eq!(encoded[y][x], rows[y][x]);
            }
        }
    }
    // the mean of the block stands at its origin
    let mut sum = 0;
    for y in 1..5 {
        for x in 2..6 {
            sum += rows[y][x];
        }
    }
    assert_eq!(encoded[1][2], sum / 16);
    dwt_decode_block(&mut grid, &Channel::R, 2, 4, 1, 4);
    assert_eq!(reds(&grid), rows);
}

#[test]
fn budget_is_laid_from_the_origin_of_the_block() {
    let rows: Vec<Vec<i128>> = vec![
        vec![1600, 160, 320, 3200, 5],
        vec![480, 4800, 640, 64, 5],
        vec![800, 80, 9600, 960, 5],
        vec![112, 1120, 1280, 12800, 5],
    ];
    let mut full = grid_of(&rows);
    dwt_encode_block(&mut full, 16, &Channel::R, 1, 4, 0, 4);
    let full = reds(&full);
    let mut grid = grid_of(&rows);
    dwt_encode_block(&mut grid, 4, &Channel::R, 1, 4, 0, 4);
    let got = reds(&grid);
    for y in 0..4 {
        for x in 0..5 {
            if x == 0 {
                assert_eq!(got[y][x], rows[y][x]);
            } else if x < 3 && y < 2 {
                // budget 4: side 1, and one place in each of the three squares around it
                assert_eq!(got[y][x], full[y][x]);
            } else {
                assert_eq!(got[y][x], 0);
            }
        }
    }
}

#[test]
fn rectangle_that_is_no_square() {
    // 4 wide, 2 high: row step and column step on 4x2, then on 2x1, where
    // the column step finds no pair and leaves zeros
    let mut grid = grid_of(&[vec![8, 8, 16, 16], vec![8, 8, 16, 16]]);
    dwt_encode_block(&mut grid, 8, &Channel::R, 0, 4, 0, 2);
    assert_eq!(reds(&grid), vec![vec![0, 0, 0, 0], vec![0, 0, 0, 0]]);
}

#[test]
fn single_cell_is_left_alone() {
    let mut grid = grid_of(&[vec![48]]);
    dwt_encode_block(&mut grid, 1, &Channel::R, 0, 1, 0, 1);
    assert_eq!(reds(&grid), vec![vec![48]]);
    dwt_decode_block(&mut grid, &Channel::R, 0, 1, 0, 1);
    assert_eq!(reds(&grid), vec![vec![48]]);
    dwt_decode_block(&mut grid, &Channel::R, 0, 0, 0, 0);
    assert_eq!(reds(&grid), vec![vec![48]]);
}

#[test]
fn as_many_coefficients_stay_as_the_budget_says() {
    for side in [2usize, 4, 8] {
        let rows: Vec<Vec<i128>> = (0..side)
            .map(|y| {
                (0..side)
                    .map(|x| (((x * x * 131 + y * y * y * 71 + x * y * 29 + 17) % 251 + 1) * 4096) as i128)
                    .collect()
            })
            .collect();
        let mut full = grid_of(&rows);
        dwt_encode_block(&mut full, side * side, &Channel::R, 0, side, 0, side);
        for row in reds(&full) {
            for value in row {
                assert_ne!(value, 0);
            }
        }
        for number in 0..=side * side + 3 {
            let mut grid = grid_of(&rows);
            dwt_encode_block(&mut grid, number, &Channel::R, 0, side, 0, side);
            let kept = reds(&grid).iter().flatten().filter(|v| **v != 0).count();
            assert_eq!(kept, number.min(side * side));
        }
    }
}
