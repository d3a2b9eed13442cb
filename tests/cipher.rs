use hcie::arith::gcd;
use hcie::cipher::{
    decrypt, encrypt, geometry_check, key_stream_len, pseudoimage, ConfigError, ALPHA, BETA, GAMMA,
    N_ITER,
};
use hcie::grid::Grid;
use hcie::rotate::{rolr, roud, roul, rour};
use hcie::sub_hcie::{Operation, SubHCIE};

/// Logistic-map bit stream: 8 bits of the fractional expansion of each iterate.
fn logistic_bits(x0: f64, mu: f64, n_iter: usize) -> Vec<u8> {
    let mut x = x0;
    let mut b = Vec::new();
    for _ in 0..n_iter {
        x = mu * x * (1.0 - x);
        let mut y = x.fract();
        for _ in 0..8 {
            y *= 2.0;
            b.push(y.floor() as u8);
            y = y.fract();
        }
    }
    b
}

fn grid_of(rows: usize, cols: usize, cells: Vec<u8>) -> Grid<u8> {
    Grid::from_cells(rows, cols, cells).unwrap()
}

fn counting_grid(rows: usize, cols: usize) -> Grid<u8> {
    grid_of(rows, cols, (0..rows * cols).map(|k| (k * 7 % 251) as u8).collect())
}

fn stream_for(rows: usize, cols: usize, s_m: usize, s_n: usize) -> Vec<u8> {
    logistic_bits(0.1, 3.9999, key_stream_len(rows, cols, s_m, s_n))
}

fn round_trip(rows: usize, cols: usize, s_m: usize, s_n: usize) {
    let img = counting_grid(rows, cols);
    let bits = stream_for(rows, cols, s_m, s_n);
    let enc = encrypt(&img, s_m, s_n, bits.clone()).unwrap();
    assert_eq!(enc.rows, rows);
    assert_eq!(enc.cols, cols);
    let dec = decrypt(&enc, s_m, s_n, bits).unwrap();
    assert_eq!(dec.rows, rows);
    assert_eq!(dec.cols, cols);
    assert_eq!(dec.cells, img.cells);
}

#[test]
fn gcd_values() {
    assert_eq!(gcd(12, 18), 6);
    assert_eq!(gcd(7, 0), 7);
    assert_eq!(gcd(0, 5), 5);
    assert_eq!(gcd(17, 5), 1);
}

#[test]
fn anti_diagonal_swap_example() {
    let mut g = grid_of(2, 2, vec![0, 1, 2, 3]);
    rour(&mut g, 1, 1, 0);
    assert_eq!(g.cells, vec![0, 2, 1, 3]);
}

#[test]
fn row_rotation_matches_std_rotation() {
    for len in 1..=9usize {
        for p in 0..len {
            let base: Vec<u8> = (0..len as u8).collect();
            let mut left = grid_of(1, len, base.clone());
            rolr(&mut left, 0, p, 0);
            let mut expect = base.clone();
            expect.rotate_left(p);
            assert_eq!(left.cells, expect);
            let mut right = grid_of(1, len, base.clone());
            rolr(&mut right, 0, p, 1);
            let mut expect = base.clone();
            expect.rotate_right(p);
            assert_eq!(right.cells, expect);
        }
    }
}

#[test]
fn column_rotation_matches_std_rotation() {
    for len in 1..=8usize {
        for p in 0..len {
            let base: Vec<u8> = (0..len as u8).collect();
            let mut g = grid_of(len, 1, base.clone());
            roud(&mut g, 0, p, 0);
            let mut expect = base.clone();
            expect.rotate_left(p);
            assert_eq!(g.cells, expect);
        }
    }
}

#[test]
fn rotation_reversed_by_other_direction() {
    let orig = counting_grid(5, 7);
    for p in 0..12usize {
        for d in 0..2u8 {
            let mut g = counting_grid(5, 7);
            rolr(&mut g, 3, p, d);
            rolr(&mut g, 3, p, 1 - d);
            roud(&mut g, 6, p, d);
            roud(&mut g, 6, p, 1 - d);
            rour(&mut g, 4, p, d);
            rour(&mut g, 4, p, 1 - d);
            roul(&mut g, -2, p, d);
            roul(&mut g, -2, p, 1 - d);
            assert_eq!(g.cells, orig.cells);
        }
    }
}

#[test]
fn main_diagonal_rotation() {
    // cells (0,0), (1,1), (2,2) of a 3x3 grid
    let mut g = grid_of(3, 3, vec![1, 0, 0, 0, 2, 0, 0, 0, 3]);
    roul(&mut g, 0, 1, 0);
    assert_eq!(g.cells, vec![2, 0, 0, 0, 3, 0, 0, 0, 1]);
    roul(&mut g, 0, 1, 1);
    assert_eq!(g.cells, vec![1, 0, 0, 0, 2, 0, 0, 0, 3]);
}

#[test]
fn table_before_permutation() {
    let t = pseudoimage(4, 4, 2, 2);
    assert_eq!(t.cells, vec![1, 2, 3, 4]);
    let t = pseudoimage(6, 4, 3, 2);
    assert_eq!(t.cells, vec![1, 2, 3, 4, 0, 0]);
    let t = pseudoimage(4, 6, 4, 3);
    assert_eq!(t.cells, vec![1, 2, 0, 0, 0, 0, 0, 0, 0, 0, 0, 0]);
    let t = pseudoimage(6, 6, 3, 3);
    assert_eq!(t.cells, vec![1, 2, 0, 3, 4, 0, 0, 0, 0]);
}

#[test]
fn stream_length() {
    // four blocks and the table, two rounds of 3*2 + 3*2 - 2 bits each
    assert_eq!(key_stream_len(4, 4, 2, 2), 100);
    assert_eq!(key_stream_len(256, 256, 32, 32), 65 * 2 * 190);
}

#[test]
fn engine_block_round_trip() {
    let bits = logistic_bits(0.3, 3.99, 64);
    let orig = counting_grid(3, 5);
    let mut g = counting_grid(3, 5);
    let mut e = SubHCIE::new(N_ITER, Operation::Encrypt, ALPHA, BETA, GAMMA, bits, 17);
    e.apply(&mut g);
    assert_eq!(e.offset, 17 + 2 * (3 * 3 + 3 * 5 - 2));
    assert_ne!(g.cells, orig.cells);
    e.set_op(Operation::Decrypt);
    e.apply(&mut g);
    assert_eq!(e.offset, 17);
    assert_eq!(g.cells, orig.cells);
}

#[test]
fn engine_setters() {
    let mut e = SubHCIE::new(1, Operation::Encrypt, 1, 1, 1, vec![0, 1], 0);
    e.set_offset(42);
    e.set_op(Operation::Decrypt);
    assert_eq!(e.offset, 42);
    assert!(e.op == Operation::Decrypt);
    assert_eq!(e.n_iter, 1);
}

#[test]
fn concrete_four_by_four_round_trip() {
    let img = grid_of(4, 4, (0..16).collect());
    let bits = logistic_bits(0.1, 3.9999, key_stream_len(4, 4, 2, 2));
    let enc = encrypt(&img, 2, 2, bits.clone()).unwrap();
    let dec = decrypt(&enc, 2, 2, bits).unwrap();
    assert_eq!(dec.cells, img.cells);
}

#[test]
fn round_trip_other_geometries() {
    round_trip(8, 6, 4, 3);
    round_trip(6, 4, 3, 2);
    round_trip(6, 6, 3, 3);
    round_trip(64, 64, 8, 8);
    round_trip(5, 7, 5, 7);
    round_trip(1, 1, 1, 1);
}

#[test]
fn pixel_values_are_kept() {
    let img = counting_grid(64, 64);
    let bits = stream_for(64, 64, 8, 8);
    let enc = encrypt(&img, 8, 8, bits).unwrap();
    let mut a = img.cells.clone();
    let mut b = enc.cells.clone();
    a.sort();
    b.sort();
    assert_eq!(a, b);
    assert_ne!(enc.cells, img.cells);
}

#[test]
fn encryption_is_deterministic() {
    let img = counting_grid(16, 16);
    let bits = stream_for(16, 16, 4, 4);
    let a = encrypt(&img, 4, 4, bits.clone()).unwrap();
    let b = encrypt(&img, 4, 4, bits).unwrap();
    assert_eq!(a.cells, b.cells);
}

#[test]
fn error_malformed_grid() {
    let g = Grid { rows: 2, cols: 2, cells: vec![0u8; 3] };
    assert_eq!(encrypt(&g, 1, 1, vec![0, 1]).err(), Some(ConfigError::MalformedGrid));
}

#[test]
fn error_empty_block() {
    let g = counting_grid(4, 4);
    assert_eq!(encrypt(&g, 0, 2, vec![0, 1]).err(), Some(ConfigError::EmptyBlock));
}

#[test]
fn error_block_does_not_divide() {
    let g = counting_grid(4, 4);
    assert_eq!(encrypt(&g, 3, 2, vec![0, 1]).err(), Some(ConfigError::BlockDoesNotDivide));
    assert_eq!(decrypt(&g, 2, 3, vec![0, 1]).err(), Some(ConfigError::BlockDoesNotDivide));
}

#[test]
fn error_too_many_blocks() {
    let g = counting_grid(8, 8);
    assert_eq!(encrypt(&g, 2, 2, vec![0, 1]).err(), Some(ConfigError::TooManyBlocks));
    let g = counting_grid(6, 6);
    assert_eq!(encrypt(&g, 3, 2, vec![0, 1]).err(), Some(ConfigError::TooManyBlocks));
}

#[test]
fn error_invalid_bit_stream() {
    let g = counting_grid(4, 4);
    assert_eq!(encrypt(&g, 2, 2, vec![]).err(), Some(ConfigError::InvalidBitStream));
    assert_eq!(encrypt(&g, 2, 2, vec![0, 1, 2]).err(), Some(ConfigError::InvalidBitStream));
}

#[test]
fn error_too_large() {
    let g: Grid<u8> = Grid { rows: 0, cols: 0, cells: vec![] };
    assert_eq!(encrypt(&g, 1 << 40, 1 << 40, vec![0, 1]).err(), Some(ConfigError::TooLarge));
    assert_eq!(geometry_check(0, 0, 0, 1 << 40, 1 << 40), Some(ConfigError::TooLarge));
    assert_eq!(geometry_check(4, 4, 16, 2, 2), None);
}
