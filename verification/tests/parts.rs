//! The parts that the kernels are made of, the inputs, and the judgement.

use softmax_rows::binary32::F32;
use softmax_rows::block;
use softmax_rows::fold;
use softmax_rows::input;
use softmax_rows::launch::Launch;
use softmax_rows::pairs::{Layout, PER, TPB};
use softmax_rows::report;
use softmax_rows::simt;
use softmax_rows::softmax::{self, COLS, ROWS};
use softmax_rows::warp::{self, Reduction};

fn number(v: f32) -> F32 {
    F32::from_bits(v.to_bits())
}

fn float(v: F32) -> f32 {
    f32::from_bits(v.to_bits())
}

fn numbers(v: &[f32]) -> Vec<F32> {
    v.iter().map(|&a| number(a)).collect()
}

#[test]
fn integers_become_numbers() {
    for n in [0u64, 1, 2, 255, 16777215, 16777216, 16777217, 16777219, u32::MAX as u64, u64::MAX] {
        assert_eq!(F32::from_integer(n).to_bits(), (n as f32).to_bits(), "{n}");
    }
}

#[test]
fn signs_and_kinds() {
    assert_eq!(number(-2.5).abs().to_bits(), 2.5f32.to_bits());
    assert_eq!(number(2.5).neg().to_bits(), (-2.5f32).to_bits());
    assert!(number(f32::NAN).is_nan() && !number(f32::INFINITY).is_nan());
    assert!(number(f32::MAX).is_finite() && !number(f32::NEG_INFINITY).is_finite());
}

#[test]
fn the_larger_passes_over_nan() {
    assert_eq!(float(number(f32::NAN).max(number(1.0))), 1.0);
    assert_eq!(float(number(1.0).max(number(f32::NAN))), 1.0);
    assert!(number(f32::NAN).max(number(f32::NAN)).is_nan());
}

#[test]
fn a_leading_nan_stays_and_a_later_one_does_not() {
    assert!(fold::max_of(&numbers(&[f32::NAN, 1.0, 2.0])).is_nan());
    assert_eq!(float(fold::max_of(&numbers(&[1.0, f32::NAN, 2.0]))), 2.0);
    assert_eq!(float(fold::larger_of(number(f32::NEG_INFINITY), &numbers(&[f32::NAN, 1.0]))), 1.0);
}

#[test]
fn every_lane_gets_the_reduction() {
    let v: Vec<f32> = (0..32).map(|i| ((i * 7) % 32) as f32).collect();
    let max = warp::reduce(Reduction::Max, &numbers(&v));
    let sum = warp::reduce(Reduction::Sum, &numbers(&v));
    for lane in 0..32 {
        assert_eq!(float(max[lane]), 31.0);
        assert_eq!(float(sum[lane]), 496.0);
    }
}

#[test]
fn blocks_reduce_over_their_warps() {
    let v: Vec<f32> = (0..256).map(|i| ((i * 11) % 256) as f32).collect();
    assert_eq!(float(block::reduce_max(&numbers(&v))), 255.0);
    assert_eq!(float(block::reduce_sum(&numbers(&v))), 32640.0);
    let shared = block::publish(Reduction::Sum, &numbers(&vec![1.0f32; 128]));
    assert_eq!(shared.iter().map(|&s| float(s)).collect::<Vec<f32>>(), vec![32.0f32; 4]);
}

#[test]
fn lanes_and_warps() {
    assert_eq!((block::lane_id(0), block::warp_id(0)), (0, 0));
    assert_eq!((block::lane_id(31), block::warp_id(31)), (31, 0));
    assert_eq!((block::lane_id(32), block::warp_id(32)), (0, 1));
    assert_eq!((block::lane_id(255), block::warp_id(255)), (31, 7));
}

#[test]
fn a_warp_of_nan_in_front_decides_the_maximum() {
    let mut v = vec![1.0f32; 256];
    for lane in 0..32 {
        v[lane] = f32::NAN;
    }
    assert!(block::reduce_max(&numbers(&v)).is_nan());
    v[5] = 9.0;
    assert_eq!(float(block::reduce_max(&numbers(&v))), 9.0);
}

#[test]
fn threads_take_every_element_once() {
    let rows = 3;
    for layout in [Layout::Strided, Layout::Contiguous] {
        let mut taken = vec![0; rows * COLS];
        for row in 0..rows {
            for tid in 0..TPB {
                for k in 0..PER {
                    let i = layout.element(row, tid, k);
                    assert_eq!(i / COLS, row);
                    assert_eq!(i % COLS, layout.column_of(tid, k));
                    taken[i] += 1;
                }
            }
        }
        assert!(taken.iter().all(|&n| n == 1));
    }
    let mut taken = vec![0; rows * COLS];
    for row in 0..rows {
        for tid in 0..COLS {
            taken[simt::index_1d(row, tid)] += 1;
        }
    }
    assert!(taken.iter().all(|&n| n == 1));
}

#[test]
fn sectors_touched_by_each_layout() {
    for (layout, expected) in [(Layout::Strided, 131072), (Layout::Contiguous, 262144)] {
        let mut count = 0;
        for row in 0..ROWS {
            for w in 0..TPB / 32 {
                for k in 0..PER {
                    let mut sectors: Vec<usize> =
                        (0..32).map(|lane| layout.element(row, w * 32 + lane, k) / 8).collect();
                    sectors.dedup();
                    count += sectors.len();
                }
            }
        }
        assert_eq!(count, expected);
    }
}

#[test]
fn arguments_are_never_positive() {
    let x: Vec<f32> = (0..COLS).map(|i| ((i * 37) % 101) as f32 * 0.7 - 30.0).collect();
    let x = numbers(&x);
    for args in [
        simt::arguments(&x, 0),
        Layout::Strided.arguments(&x, 0),
        Layout::Contiguous.arguments(&x, 0),
    ] {
        assert!(args.iter().all(|&a| float(a) <= 0.0));
        assert!(args.iter().any(|&a| float(a) == 0.0));
    }
}

#[test]
fn the_exponential_is_asked_once_per_number() {
    let asked = softmax::answer(&|a: F32| a.add(number(1.0)), &numbers(&[1.0, 2.0, 3.0]));
    assert_eq!(asked.iter().map(|&v| float(v)).collect::<Vec<f32>>(), vec![2.0f32, 3.0, 4.0]);
}

#[test]
fn quotients_on_given_exponentials() {
    let mut e = vec![0.0f32; COLS];
    e[1] = 1.0;
    e[129] = 3.0;
    for layout in [Layout::Strided, Layout::Contiguous] {
        let mut y = numbers(&vec![7.0f32; 2 * COLS]);
        layout.normalize(&numbers(&e), 1, &mut y);
        assert_eq!(float(y[COLS + 1]), 0.25);
        assert_eq!(float(y[COLS + 129]), 0.75);
        assert_eq!(float(y[COLS]), 0.0);
        assert_eq!(float(y[COLS - 1]), 7.0);
    }
}

#[test]
fn inputs_are_the_formulas() {
    let ramp = input::ramp();
    let banded = input::banded();
    assert_eq!(ramp.len(), ROWS * COLS);
    assert_eq!(banded.len(), ROWS * COLS);
    for i in 0..ROWS * COLS {
        assert_eq!(ramp[i].to_bits(), (i as f32 * 0.01).to_bits(), "{i}");
        let r = (i / COLS) as f32;
        let c = (i % COLS) as f32;
        assert_eq!(banded[i].to_bits(), ((c - 128.0) * 0.05 + (r % 7.0) * 0.3).to_bits(), "{i}");
    }
    let n = ROWS * COLS;
    assert_eq!(input::ramp_element(n - 1).to_bits(), ((n - 1) as f32 * 0.01).to_bits());
}

#[test]
fn launches_cover_the_matrix() {
    let single = Launch::single();
    assert_eq!((single.grid, single.block, single.shared_mem_bytes), (4096, 256, 0));
    let paired = Launch::paired();
    assert_eq!((paired.grid, paired.block, paired.shared_mem_bytes), (4096, 128, 0));
    assert_eq!(paired.block as usize * PER, COLS);
}

#[test]
fn tolerances() {
    assert_eq!(report::TOLERANCE, 1e-6f32.to_bits());
    assert_eq!(report::SUM_TOLERANCE, 1e-5f32.to_bits());
    assert!(report::accepted(number(1e-6), number(1e-5)));
    assert!(!report::accepted(number(1.1e-6), number(0.0)));
    assert!(!report::accepted(number(0.0), number(1.1e-5)));
    assert!(report::sums_accepted(number(1e-5)));
    assert!(report::accepted_finite(true, number(1e-6), number(1e-5)));
    assert!(!report::accepted_finite(false, number(1e-6), number(1e-5)));
    assert!(!report::accepted_finite(true, number(2e-6), number(0.0)));
    assert!(!report::accepted_finite(true, number(0.0), number(2e-5)));
    assert!(!report::sums_accepted(number(2e-5)));
}

#[test]
fn the_largest_distance() {
    let y = numbers(&[0.5, 0.25, 0.125]);
    let expected = numbers(&[0.5, 0.5, 0.0, 9.0]);
    assert_eq!(float(report::max_error(&y, &expected)), 0.25);
    assert_eq!(float(report::max_error(&y, &Vec::new())), 0.0);
}

#[test]
fn the_worst_row_sum() {
    let mut y = vec![1.0f32 / 256.0; ROWS * COLS];
    assert_eq!(float(report::worst_sum_error(&numbers(&y))), 0.0);
    y[17 * COLS + 3] += 0.25;
    assert_eq!(float(report::worst_sum_error(&numbers(&y))), 0.25);
    assert!(!report::sums_accepted(report::worst_sum_error(&numbers(&y))));
}

#[test]
fn nan_is_seen_only_by_the_test_for_finite_numbers() {
    let y = numbers(&vec![f32::NAN; ROWS * COLS]);
    let expected = numbers(&vec![1.0f32 / 256.0; ROWS * COLS]);
    let max_err = report::max_error(&y, &expected);
    let worst = report::worst_sum_error(&y);
    assert_eq!((max_err.to_bits(), worst.to_bits()), (0, 0));
    assert!(report::accepted(max_err, worst));
    assert!(!report::accepted_finite(report::all_finite(&y), max_err, worst));
    assert!(report::all_finite(&expected));
}

#[test]
fn bytes_are_read_and_written_once() {
    assert_eq!(report::bytes_moved(ROWS * COLS), 8388608);
}
