use ferrum_core::parallel::{
    num_threads, run, run_1d, should_parallelize, should_parallelize_1d, PARALLEL_THRESHOLD,
};
use ferrum_core::F32;

fn f(x: f32) -> F32 {
    F32::from_bits(x.to_bits())
}

#[test]
fn num_threads_is_at_least_one() {
    assert!(num_threads(None, None) >= 1);
    assert!(num_threads(Some("0"), None) >= 1);
    assert!(num_threads(Some("three"), Some(2)) >= 1);
}

#[test]
fn num_threads_prefers_the_setting() {
    assert_eq!(num_threads(Some("3"), Some(8)), 3);
    assert_eq!(num_threads(Some(" 3 "), Some(8)), 8);
    assert_eq!(num_threads(Some("+3"), Some(8)), 3);
    assert_eq!(num_threads(None, Some(8)), 8);
    assert_eq!(num_threads(Some("0"), Some(8)), 8);
    assert_eq!(num_threads(Some("x"), Some(8)), 8);
}

#[test]
fn run_covers_every_row_exactly_once() {
    let (m, n) = (257usize, 129usize);
    for threads in [1usize, 2, 3, 8, 300] {
        let out = run(threads, m, n, move |r0: usize, r1: usize| {
            let mut block = Vec::new();
            for i in r0..r1 {
                for j in 0..n {
                    block.push(f((i * n + j) as f32));
                }
            }
            block
        });
        assert_eq!(out.len(), m * n);
        for (idx, &v) in out.iter().enumerate() {
            assert_eq!(v, f(idx as f32), "element {idx} not written exactly once");
        }
    }
}

#[test]
fn should_parallelize_gates_on_size() {
    assert!(!should_parallelize(1, usize::MAX, 4), "single row stays serial");
    assert!(!should_parallelize(1000, 0, 4), "trivial work stays serial");
    assert!(should_parallelize(1000, PARALLEL_THRESHOLD, 4));
    assert!(!should_parallelize(1000, PARALLEL_THRESHOLD, 1));
}

#[test]
fn run_1d_covers_every_column_exactly_once() {
    let total = 1000usize;
    for threads in [1usize, 2, 7, 64] {
        let out = run_1d(threads, total, 64, move |j0: usize, j1: usize| {
            (j0..j1).map(|j| f((j * 2) as f32)).collect()
        });
        assert_eq!(out.len(), total);
        for (j, &v) in out.iter().enumerate() {
            assert_eq!(v, f((j * 2) as f32), "column {j} not written exactly once");
        }
    }
}

#[test]
fn run_1d_serial_when_min_chunk_exceeds_total() {
    let out = run_1d(4, 50, 1_000_000, move |j0: usize, j1: usize| {
        assert_eq!((j0, j1), (0, 50));
        (j0..j1).map(|j| f(j as f32)).collect()
    });
    assert_eq!(out.len(), 50);
    assert!(out.iter().enumerate().all(|(j, &v)| v == f(j as f32)));
}

#[test]
fn should_parallelize_1d_gates() {
    assert!(!should_parallelize_1d(1, usize::MAX, 4), "single element stays serial");
    assert!(!should_parallelize_1d(1000, 0, 4), "no work stays serial");
    assert!(should_parallelize_1d(PARALLEL_THRESHOLD, 1, 4));
    assert!(!should_parallelize_1d(PARALLEL_THRESHOLD, 1, 1));
}
