//! The tile kernel.

use softmax_rows::binary32::F32;
use softmax_rows::block;
use softmax_rows::fold;
use softmax_rows::report;
use softmax_rows::simt;
use softmax_rows::softmax::{COLS, ROWS};
use softmax_rows::tile;

fn number(v: f32) -> F32 {
    F32::from_bits(v.to_bits())
}

fn float(v: F32) -> f32 {
    f32::from_bits(v.to_bits())
}

fn exp(a: F32) -> F32 {
    number(float(a).exp())
}

fn numbers(v: &[f32]) -> Vec<F32> {
    v.iter().map(|&a| number(a)).collect()
}

fn run(x: &[f32], rows: usize, cols: usize, bm: usize, bn: usize) -> Vec<f32> {
    let mut y = numbers(&vec![7.0f32; rows * cols]);
    tile::softmax_rows(&mut y, &numbers(x), rows, cols, bm, bn, exp, fold::max_of, fold::sum_of);
    y.iter().map(|&v| float(v)).collect()
}

fn softmax(row: &[f32]) -> Vec<f32> {
    let mut max = row[0];
    for &v in row {
        if v > max {
            max = v;
        }
    }
    let e: Vec<f32> = row.iter().map(|v| (v - max).exp()).collect();
    let mut sum = 0.0f32;
    for v in &e {
        sum += v;
    }
    e.iter().map(|v| v / sum).collect()
}

fn wave(n: usize) -> Vec<f32> {
    (0..n).map(|i| ((i * 37) % 101) as f32 * 0.1 - 5.0).collect()
}

#[test]
fn a_row_of_eight_to_four_places() {
    let y = run(&[-1.5, -1.0, -0.5, 0.0, 0.5, 1.0, 1.5, 2.0], 1, 8, 1, 8);
    let expected = [0.0121, 0.0200, 0.0329, 0.0542, 0.0894, 0.1474, 0.2431, 0.4008];
    for (v, e) in y.iter().zip(expected) {
        assert!((v - e as f32).abs() <= 0.00005, "{v} {e}");
    }
}

#[test]
fn tiles_of_one_row_are_rows() {
    let x = wave(5 * COLS);
    let y = run(&x, 5, COLS, 1, COLS);
    for r in 0..5 {
        assert_eq!(y[r * COLS..(r + 1) * COLS], softmax(&x[r * COLS..(r + 1) * COLS])[..]);
        let total: f64 = y[r * COLS..(r + 1) * COLS].iter().map(|&v| v as f64).sum();
        assert!((total - 1.0).abs() <= 2e-5);
    }
}

#[test]
fn taller_tiles_change_nothing() {
    let x = wave(6 * 16);
    assert_eq!(run(&x, 6, 16, 1, 16), run(&x, 6, 16, 3, 16));
    assert_eq!(run(&x, 6, 16, 1, 16), run(&x, 6, 16, 4, 16));
}

#[test]
fn narrower_tiles_take_the_softmax_of_pieces() {
    let x = wave(3 * 32);
    let y = run(&x, 3, 32, 2, 8);
    for piece in 0..12 {
        assert_eq!(y[piece * 8..(piece + 1) * 8], softmax(&x[piece * 8..(piece + 1) * 8])[..]);
    }
}

#[test]
fn a_tile_past_the_edge_loads_zeros_and_stores_nothing_there() {
    let x = [1.0f32, 2.0, 3.0, -1.0, -2.0, -3.0];
    let y = run(&x, 2, 3, 2, 2);
    assert_eq!(y[..2], softmax(&[1.0, 2.0])[..]);
    assert_eq!(y[2], softmax(&[3.0, 0.0])[0]);
    assert_eq!(y[3..5], softmax(&[-1.0, -2.0])[..]);
    assert_eq!(y[5], softmax(&[-3.0, 0.0])[0]);
}

#[test]
fn an_empty_matrix_stays_empty() {
    assert!(run(&[], 0, 8, 1, 8).is_empty());
    assert!(run(&[], 3, 0, 1, 8).is_empty());
}

#[test]
fn tile_counts_round_up() {
    assert_eq!(tile::tile_count(4096, 1), 4096);
    assert_eq!(tile::tile_count(256, 256), 1);
    assert_eq!(tile::tile_count(100, 32), 4);
    assert_eq!(tile::tile_count(0, 32), 0);
}

#[test]
fn a_block_reduces_tiles_of_whole_rows() {
    let x: Vec<f32> = (0..ROWS * COLS).map(|i| i as f32 * 0.01).collect();
    let mut y = numbers(&vec![0.0f32; ROWS * COLS]);
    tile::softmax_rows(
        &mut y,
        &numbers(&x),
        ROWS,
        COLS,
        1,
        COLS,
        exp,
        block::reduce_max,
        block::reduce_sum,
    );
    assert!(report::sums_accepted(report::worst_sum_error(&y)));
    let mut z = numbers(&vec![0.0f32; 7 * COLS]);
    simt::softmax_rows(&numbers(&x), &mut z, 7, exp);
    for (a, b) in y.iter().zip(&z) {
        assert_eq!(a.to_bits(), b.to_bits());
    }
}
