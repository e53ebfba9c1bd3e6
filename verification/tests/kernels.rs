//! The kernels and the reference against plain floating-point code.

use softmax_rows::binary32::F32;
use softmax_rows::block;
use softmax_rows::input;
use softmax_rows::pairs::Layout;
use softmax_rows::reference;
use softmax_rows::report;
use softmax_rows::simt;
use softmax_rows::simt2;
use softmax_rows::simt3;
use softmax_rows::softmax::{COLS, ROWS};
use softmax_rows::warp::Reduction;

fn number(v: f32) -> F32 {
    F32::from_bits(v.to_bits())
}

fn float(v: F32) -> f32 {
    f32::from_bits(v.to_bits())
}

fn exp(a: F32) -> F32 {
    number(float(a).exp())
}

fn numbers(v: &[f32]) -> Vec<F32> {
    v.iter().map(|&a| number(a)).collect()
}

fn floats(v: &[F32]) -> Vec<f32> {
    v.iter().map(|&a| float(a)).collect()
}

/// Scattered rows, each around its own centre.
fn scattered(rows: usize) -> Vec<f32> {
    let mut state: u64 = 12345;
    (0..rows * COLS)
        .map(|i| {
            state = state.wrapping_mul(6364136223846793005).wrapping_add(1442695040888963407);
            let unit = (state >> 40) as f32 / 16777216.0;
            (unit - 0.5) * 20.0 + (i / COLS) as f32
        })
        .collect()
}

fn warp_max(values: &[f32]) -> f32 {
    let mut v = values.to_vec();
    for distance in [16, 8, 4, 2, 1] {
        v = (0..32)
            .map(|i| {
                let other = v[i ^ distance];
                if v[i].is_nan() || other >= v[i] { other } else { v[i] }
            })
            .collect();
    }
    v[0]
}

fn warp_sum(values: &[f32]) -> f32 {
    let mut v = values.to_vec();
    for distance in [16, 8, 4, 2, 1] {
        v = (0..32).map(|i| v[i] + v[i ^ distance]).collect();
    }
    v[0]
}

fn block_max(values: &[f32]) -> f32 {
    let slots: Vec<f32> = values.chunks(32).map(warp_max).collect();
    let mut max = slots[0];
    for &m in &slots[1..] {
        if m > max {
            max = m;
        }
    }
    max
}

fn block_sum(values: &[f32]) -> f32 {
    let mut sum = 0.0f32;
    for slot in values.chunks(32).map(warp_sum) {
        sum += slot;
    }
    sum
}

fn single_row(row: &[f32]) -> Vec<f32> {
    let max = block_max(row);
    let e: Vec<f32> = row.iter().map(|v| (v - max).exp()).collect();
    let sum = block_sum(&e);
    e.iter().map(|v| v / sum).collect()
}

fn paired_row(row: &[f32], column: fn(usize, usize) -> usize) -> Vec<f32> {
    let maxima: Vec<f32> = (0..128)
        .map(|t| {
            let (a, b) = (row[column(t, 0)], row[column(t, 1)]);
            if b > a { b } else { a }
        })
        .collect();
    let max = block_max(&maxima);
    let e: Vec<f32> = row.iter().map(|v| (v - max).exp()).collect();
    let sums: Vec<f32> = (0..128)
        .map(|t| (0.0f32 + e[column(t, 0)]) + e[column(t, 1)])
        .collect();
    let sum = block_sum(&sums);
    e.iter().map(|v| v / sum).collect()
}

fn strided(t: usize, k: usize) -> usize {
    t + k * 128
}

fn contiguous(t: usize, k: usize) -> usize {
    t * 2 + k
}

fn cpu_row(row: &[f32]) -> Vec<f32> {
    let max = row.iter().copied().fold(f32::NEG_INFINITY, f32::max);
    let e: Vec<f32> = row.iter().map(|v| (v - max).exp()).collect();
    let sum: f32 = e.iter().sum();
    e.iter().map(|v| v / sum).collect()
}

fn bits(v: &[f32]) -> Vec<u32> {
    v.iter().map(|a| a.to_bits()).collect()
}

#[test]
fn one_thread_per_element_to_the_bit() {
    let rows = 40;
    let x = scattered(rows);
    let mut y = numbers(&vec![7.0f32; rows * COLS]);
    simt::softmax_rows(&numbers(&x), &mut y, rows, exp);
    for r in 0..rows {
        let row = &x[r * COLS..(r + 1) * COLS];
        assert_eq!(bits(&floats(&y[r * COLS..(r + 1) * COLS])), bits(&single_row(row)), "row {r}");
    }
}

#[test]
fn two_elements_half_a_row_apart_to_the_bit() {
    let rows = 40;
    let x = scattered(rows);
    let mut y = numbers(&vec![7.0f32; rows * COLS]);
    simt2::softmax_rows(&numbers(&x), &mut y, rows, exp);
    for r in 0..rows {
        let row = &x[r * COLS..(r + 1) * COLS];
        let expected = paired_row(row, strided);
        assert_eq!(bits(&floats(&y[r * COLS..(r + 1) * COLS])), bits(&expected), "row {r}");
    }
}

#[test]
fn two_elements_side_by_side_to_the_bit() {
    let rows = 40;
    let x = scattered(rows);
    let mut y = numbers(&vec![7.0f32; rows * COLS]);
    simt3::softmax_rows(&numbers(&x), &mut y, rows, exp);
    for r in 0..rows {
        let row = &x[r * COLS..(r + 1) * COLS];
        let expected = paired_row(row, contiguous);
        assert_eq!(bits(&floats(&y[r * COLS..(r + 1) * COLS])), bits(&expected), "row {r}");
    }
}

#[test]
fn reference_to_the_bit() {
    let mut x = scattered(ROWS);
    x.push(3.0);
    let y = reference::softmax_cpu(&numbers(&x), exp);
    assert_eq!(y.len(), ROWS * COLS + 1);
    assert_eq!(y[ROWS * COLS].to_bits(), 0);
    for r in 0..ROWS {
        let row = &x[r * COLS..(r + 1) * COLS];
        assert_eq!(bits(&floats(&y[r * COLS..(r + 1) * COLS])), bits(&cpu_row(row)), "row {r}");
    }
}

#[test]
fn whole_matrix_one_thread_per_element() {
    let x = input::banded();
    let mut y = numbers(&vec![0.0f32; ROWS * COLS]);
    simt::softmax_rows(&x, &mut y, ROWS, exp);
    let expected = reference::softmax_cpu(&x, exp);
    let max_err = report::max_error(&y, &expected);
    let worst = report::worst_sum_error(&y);
    assert!(report::accepted(max_err, worst), "{} {}", float(max_err), float(worst));
    assert!(report::all_finite(&y));
}

#[test]
fn whole_matrix_two_elements_per_thread() {
    let x = input::ramp();
    let expected = reference::softmax_cpu(&x, exp);
    let mut y = numbers(&vec![0.0f32; ROWS * COLS]);
    simt2::softmax_rows(&x, &mut y, ROWS, exp);
    assert!(report::accepted(report::max_error(&y, &expected), report::worst_sum_error(&y)));
    let mut z = numbers(&vec![0.0f32; ROWS * COLS]);
    simt3::softmax_rows(&x, &mut z, ROWS, exp);
    assert!(report::accepted(report::max_error(&z, &expected), report::worst_sum_error(&z)));
    assert!(report::all_finite(&z));
}

#[test]
fn rows_beyond_the_launch_keep_their_values() {
    let x = numbers(&scattered(3));
    for kernel in [simt::softmax_rows, simt2::softmax_rows, simt3::softmax_rows] {
        let mut y = numbers(&vec![7.0f32; 3 * COLS + 5]);
        kernel(&x, &mut y, 2, exp);
        assert!(float(y[2 * COLS - 1]) <= 1.0);
        for v in &y[2 * COLS..] {
            assert_eq!(float(*v), 7.0);
        }
    }
}

#[test]
fn threads_past_the_output_write_nothing() {
    let x = numbers(&scattered(2));
    let mut whole = numbers(&vec![7.0f32; 2 * COLS]);
    simt::softmax_rows(&x, &mut whole, 2, exp);
    let mut short = numbers(&vec![7.0f32; COLS + 10]);
    simt::softmax_rows(&x, &mut short, 2, exp);
    assert_eq!(short.len(), COLS + 10);
    assert_eq!(bits(&floats(&short)), bits(&floats(&whole[..COLS + 10])));
}

#[test]
fn no_rows_no_writes() {
    let mut y = numbers(&[7.0f32; 4]);
    simt::softmax_rows(&Vec::new(), &mut y, 0, exp);
    simt2::softmax_rows(&Vec::new(), &mut y, 0, exp);
    simt3::softmax_rows(&Vec::new(), &mut y, 0, exp);
    assert_eq!(floats(&y), vec![7.0f32; 4]);
}

#[test]
fn a_constant_row_is_uniform() {
    let x = numbers(&vec![-3.5f32; COLS]);
    for kernel in [simt::softmax_rows, simt2::softmax_rows, simt3::softmax_rows] {
        let mut y = numbers(&vec![7.0f32; COLS]);
        kernel(&x, &mut y, 1, exp);
        for v in &y {
            assert_eq!(float(*v), 1.0 / 256.0);
        }
    }
}

#[test]
fn large_inputs_do_not_overflow() {
    let mut x = vec![f32::MAX; COLS];
    x[3] = -f32::MAX;
    x[4] = f32::NEG_INFINITY;
    for kernel in [simt::softmax_rows, simt2::softmax_rows, simt3::softmax_rows] {
        let mut y = numbers(&vec![7.0f32; COLS]);
        kernel(&numbers(&x), &mut y, 1, exp);
        assert!(report::all_finite(&y));
        assert_eq!(float(y[0]), 1.0 / 254.0);
        assert_eq!(float(y[3]), 0.0);
        assert_eq!(float(y[4]), 0.0);
    }
}

#[test]
fn one_nan_makes_its_row_nan_and_no_other() {
    let mut x = scattered(2);
    x[77] = f32::NAN;
    for kernel in [simt::softmax_rows, simt2::softmax_rows, simt3::softmax_rows] {
        let mut y = numbers(&vec![7.0f32; 2 * COLS]);
        kernel(&numbers(&x), &mut y, 2, exp);
        assert!(y[..COLS].iter().all(|v| v.is_nan()));
        assert!(y[COLS..].iter().all(|v| v.is_finite()));
    }
}

#[test]
fn rows_are_probabilities_near_the_reference() {
    let x = scattered(12);
    let given = numbers(&x);
    for kernel in [simt::softmax_rows, simt2::softmax_rows, simt3::softmax_rows] {
        let mut y = numbers(&vec![7.0f32; 12 * COLS]);
        kernel(&given, &mut y, 12, exp);
        for r in 0..12 {
            let row = floats(&y[r * COLS..(r + 1) * COLS]);
            let expected = cpu_row(&x[r * COLS..(r + 1) * COLS]);
            assert!(row.iter().all(|v| (0.0..=1.0).contains(v)));
            let total: f64 = row.iter().map(|&v| v as f64).sum();
            assert!((total - 1.0).abs() <= 1e-6, "row {r}: {total}");
            for c in 0..COLS {
                assert!((row[c] as f64 - expected[c] as f64).abs() <= 2e-5);
            }
        }
    }
}

#[test]
fn equal_rows_come_out_equal() {
    let mut x = scattered(3);
    let first = x[..COLS].to_vec();
    x[2 * COLS..].copy_from_slice(&first);
    for kernel in [simt::softmax_rows, simt2::softmax_rows, simt3::softmax_rows] {
        let mut y = numbers(&vec![7.0f32; 3 * COLS]);
        kernel(&numbers(&x), &mut y, 3, exp);
        assert_eq!(bits(&floats(&y[..COLS])), bits(&floats(&y[2 * COLS..])));
    }
}

#[test]
fn kernel_halves_on_given_exponentials() {
    let mut e = vec![0.0f32; COLS];
    e[0] = 1.0;
    e[200] = 3.0;
    let e = numbers(&e);
    let mut y = numbers(&vec![7.0f32; COLS]);
    simt::normalize(&e, 0, &mut y);
    assert_eq!(float(y[0]), 0.25);
    assert_eq!(float(y[200]), 0.75);
    assert_eq!(float(y[1]), 0.0);
    let args = simt::arguments(&numbers(&vec![2.0f32; COLS]), 0);
    assert_eq!(floats(&args), vec![0.0f32; COLS]);
}

#[test]
fn a_row_on_which_the_reference_drifts() {
    // Each small term is lost when it is added to one, but not when the small ones meet first.
    let mut x = vec![-16.6356f32; ROWS * COLS];
    for r in 0..ROWS {
        x[r * COLS] = 0.0;
    }
    let x = numbers(&x);
    let expected = reference::softmax_cpu(&x, exp);
    assert_eq!(float(expected[0]), 1.0);
    let mut y = numbers(&vec![7.0f32; COLS]);
    simt::softmax_rows(&x, &mut y, 1, exp);
    let apart = report::max_error(&y, &expected);
    assert!(float(apart) > 1e-6 && float(apart) <= 2e-5, "{}", float(apart));
    assert!(!report::accepted(apart, number(0.0)));
}

#[test]
fn an_output_of_fewer_rows_takes_those_rows() {
    let x = numbers(&scattered(5));
    let mut whole = numbers(&vec![7.0f32; 5 * COLS]);
    simt3::softmax_rows(&x, &mut whole, 5, exp);
    for held in 0..5 {
        let mut short = numbers(&vec![7.0f32; held * COLS]);
        simt3::softmax_rows(&x, &mut short, 5, exp);
        assert_eq!(short.len(), held * COLS);
        assert_eq!(bits(&floats(&short)), bits(&floats(&whole[..held * COLS])));
        let mut single = numbers(&vec![7.0f32; held * COLS]);
        simt::softmax_rows(&x, &mut single, 5, exp);
        assert!(single.iter().all(|v| float(*v) <= 1.0));
        // Blocks that write nothing do not read their row either.
        let mut again = numbers(&vec![7.0f32; held * COLS]);
        simt3::softmax_rows(&x[..held * COLS].to_vec(), &mut again, 5, exp);
        assert_eq!(bits(&floats(&again)), bits(&floats(&short)));
    }
}

#[test]
fn results_keep_the_order_of_the_row() {
    let x = scattered(6);
    for kernel in [simt::softmax_rows, simt2::softmax_rows, simt3::softmax_rows] {
        let mut y = numbers(&vec![0.0f32; x.len()]);
        kernel(&numbers(&x), &mut y, 6, exp);
        for (row, out) in x.chunks(COLS).zip(floats(&y).chunks(COLS)) {
            let mut places: Vec<usize> = (0..COLS).collect();
            places.sort_by(|&a, &b| row[a].total_cmp(&row[b]));
            for pair in places.windows(2) {
                assert!(out[pair[0]] <= out[pair[1]]);
            }
        }
    }
}

#[test]
fn moving_a_row_changes_nothing() {
    // Multiples of 1/64: adding 32 to them needs no rounding.
    let x: Vec<f32> = (0..COLS).map(|c| (c * 37 % 512) as f32 / 64.0 - 4.0).collect();
    let moved: Vec<f32> = x.iter().map(|v| v + 32.0).collect();
    for kernel in [simt::softmax_rows, simt2::softmax_rows, simt3::softmax_rows] {
        let mut y = numbers(&vec![0.0f32; COLS]);
        let mut z = numbers(&vec![0.0f32; COLS]);
        kernel(&numbers(&x), &mut y, 1, exp);
        kernel(&numbers(&moved), &mut z, 1, exp);
        assert_eq!(bits(&floats(&y)), bits(&floats(&z)));
    }
}

#[test]
fn a_reversed_row_comes_out_reversed() {
    let x = scattered(8);
    let reversed: Vec<f32> =
        x.chunks(COLS).flat_map(|row| row.iter().rev().copied().collect::<Vec<f32>>()).collect();
    for kernel in [simt::softmax_rows, simt2::softmax_rows, simt3::softmax_rows] {
        let mut y = numbers(&vec![0.0f32; x.len()]);
        let mut z = numbers(&vec![0.0f32; x.len()]);
        kernel(&numbers(&x), &mut y, 8, exp);
        kernel(&numbers(&reversed), &mut z, 8, exp);
        for (a, b) in floats(&y).chunks(COLS).zip(floats(&z).chunks(COLS)) {
            for c in 0..COLS {
                let (a, b) = (a[c] as f64, b[COLS - 1 - c] as f64);
                assert!((a - b).abs() * 16777216.0 <= 27.0 * b + 1e-37);
            }
        }
    }
}

#[test]
fn rows_of_the_matrices_are_spread_and_light_at_first() {
    for x in [input::banded(), input::ramp()] {
        let expected = floats(&reference::softmax_cpu(&x, exp));
        for row in expected.chunks(COLS) {
            assert!(row.iter().all(|&v| v <= 0.0502));
            let half: f64 = row[..128].iter().map(|&v| v as f64).sum();
            assert!(half <= 0.49);
        }
    }
}

#[test]
fn the_exponential_is_steep_and_growing() {
    // On every argument that the two matrices give rise to in their first rows.
    for x in [input::banded(), input::ramp()] {
        for row in floats(&x[..7 * COLS]).chunks(COLS) {
            let max = row.iter().copied().fold(f32::NEG_INFINITY, f32::max);
            let args: Vec<f32> = row.iter().map(|v| v - max).collect();
            for &a in &args {
                for &b in &args {
                    let h = a as f64 - b as f64;
                    if h.abs() <= 1.0 {
                        let least = b.exp() as f64 * (1.0 + h - 1.0 / 1048576.0);
                        assert!(a.exp() as f64 >= least);
                    }
                    if a + 1.0 <= b {
                        assert!(3.0 * a.exp() as f64 <= 2.0 * b.exp() as f64);
                    }
                }
            }
        }
    }
}

#[test]
fn a_row_whose_running_sums_stay_below_one() {
    // 255 elements of 2^-8 and one of 2^-8 less 2^-20: each partial sum is below one.
    let mut row = vec![0.00390625f32; COLS];
    row[9] -= 1.0 / 1048576.0;
    let mut y = row.clone();
    for _ in 1..ROWS {
        y.extend_from_slice(&row);
    }
    let worst = float(report::worst_sum_error(&numbers(&y)));
    assert_eq!(worst, 1.0 / 1048576.0);
    assert!(report::sums_accepted(number(worst)));
}

/// A device's exponential that is off by up to seven steps of the last place, now up, now down.
fn rough(a: F32) -> F32 {
    let bits = float(a).exp().to_bits();
    if float(a) == 0.0 {
        F32::from_bits(bits)
    } else {
        let step = a.to_bits() % 15;
        F32::from_bits((bits + step - 7).min(0x3f80_0000))
    }
}

#[test]
fn another_exponential_on_the_device_passes() {
    let x = input::banded();
    let expected = reference::softmax_cpu(&x, exp);
    let mut y = numbers(&vec![0.0f32; ROWS * COLS]);
    simt::softmax_rows(&x, &mut y, ROWS, rough);
    assert_ne!(bits(&floats(&y[..COLS])), bits(&floats(&expected[..COLS])));
    assert!(report::accepted_finite(
        report::all_finite(&y),
        report::max_error(&y, &expected),
        report::worst_sum_error(&y),
    ));
    let x = input::ramp();
    let expected = reference::softmax_cpu(&x, exp);
    simt2::softmax_rows(&x, &mut y, ROWS, rough);
    assert!(report::accepted(report::max_error(&y, &expected), report::worst_sum_error(&y)));
    simt3::softmax_rows(&x, &mut y, ROWS, rough);
    assert!(report::accepted(report::max_error(&y, &expected), report::worst_sum_error(&y)));
}

#[test]
fn rows_without_a_softmax_are_nan() {
    let mut x = scattered(4);
    x[17] = f32::INFINITY;
    for v in &mut x[COLS..2 * COLS] {
        *v = f32::NEG_INFINITY;
    }
    x[2 * COLS + 255] = f32::NAN;
    for kernel in [simt::softmax_rows, simt2::softmax_rows, simt3::softmax_rows] {
        let mut y = numbers(&vec![0.0f32; x.len()]);
        kernel(&numbers(&x), &mut y, 4, exp);
        assert!(y[..3 * COLS].iter().all(|v| v.is_nan()));
        assert!(y[3 * COLS..].iter().all(|v| v.is_finite()));
    }
}

#[test]
fn negative_infinity_comes_out_as_zero() {
    let mut x = scattered(1);
    x[0] = f32::NEG_INFINITY;
    x[200] = f32::NEG_INFINITY;
    for kernel in [simt::softmax_rows, simt2::softmax_rows, simt3::softmax_rows] {
        let mut y = numbers(&vec![7.0f32; COLS]);
        kernel(&numbers(&x), &mut y, 1, exp);
        assert_eq!((float(y[0]), float(y[200])), (0.0, 0.0));
        assert!(float(y[1]) > 0.0);
    }
}

#[test]
fn the_largest_number_has_the_largest_result() {
    let x = scattered(9);
    for kernel in [simt::softmax_rows, simt2::softmax_rows, simt3::softmax_rows] {
        let mut y = numbers(&vec![0.0f32; x.len()]);
        kernel(&numbers(&x), &mut y, 9, exp);
        for (row, out) in x.chunks(COLS).zip(floats(&y).chunks(COLS)) {
            let top = (0..COLS).max_by(|&a, &b| row[a].total_cmp(&row[b])).unwrap();
            assert!(out.iter().all(|&v| v <= out[top]));
            assert!(out[top] >= 0.00390625);
        }
    }
}

#[test]
fn threads_may_write_in_any_order() {
    let e = numbers(&scattered(1).iter().map(|v| (v - 30.0).exp()).collect::<Vec<f32>>());
    let sum = number(2.5);
    let mut up = numbers(&vec![7.0f32; 2 * COLS]);
    let mut down = up.clone();
    for tid in 0..COLS {
        simt::store(&e, sum, 1, tid, &mut up);
        simt::store(&e, sum, 1, COLS - 1 - tid, &mut down);
    }
    assert_eq!(bits(&floats(&up)), bits(&floats(&down)));
    assert_eq!(float(up[COLS - 1]), 7.0);
    assert_eq!(float(up[COLS + 3]), float(e[3]) / 2.5);
    for layout in [Layout::Strided, Layout::Contiguous] {
        let mut other = numbers(&vec![7.0f32; 2 * COLS]);
        for tid in (0..128).rev() {
            for k in [1, 0] {
                layout.store(&e, sum, 1, tid, k, &mut other);
            }
        }
        assert_eq!(bits(&floats(&up)), bits(&floats(&other)));
    }
}

#[test]
fn slots_may_be_filled_in_any_order() {
    let values = numbers(&scattered(1));
    for op in [Reduction::Max, Reduction::Sum] {
        let mut shared = numbers(&[f32::NAN; 8]);
        for tid in (0..COLS).rev() {
            block::publish_one(op, &values, tid, &mut shared);
        }
        assert_eq!(bits(&floats(&shared)), bits(&floats(&block::publish(op, &values))));
    }
}

#[test]
fn a_second_launch_changes_nothing() {
    let x = numbers(&scattered(3));
    for kernel in [simt::softmax_rows, simt2::softmax_rows, simt3::softmax_rows] {
        let mut y = numbers(&vec![7.0f32; 3 * COLS]);
        kernel(&x, &mut y, 3, exp);
        let first = bits(&floats(&y));
        kernel(&x, &mut y, 3, exp);
        assert_eq!(first, bits(&floats(&y)));
    }
}

#[test]
fn rearranged_rows_come_out_rearranged() {
    let mut x = scattered(ROWS);
    let y = floats(&reference::softmax_cpu(&numbers(&x), exp));
    x.rotate_left(5 * COLS);
    let mut z = floats(&reference::softmax_cpu(&numbers(&x), exp));
    z.rotate_right(5 * COLS);
    assert_eq!(bits(&y), bits(&z));
}
