use population_scaling::plateau::find_flat_run;

fn flags(values: &[(usize, f64)], threshold: f64) -> Vec<bool> {
    values
        .windows(2)
        .map(|w| {
            let (prev, curr) = (w[0].1, w[1].1);
            let rate = if prev.abs() < 1e-15 { 0.0 } else { (curr - prev) / prev.abs() };
            rate.abs() < threshold
        })
        .collect()
}

#[test]
fn test_detect_clear_plateau() {
    let values = vec![(10, 0.5), (100, 0.7), (1000, 0.82), (10000, 0.822), (100000, 0.823)];
    let start = find_flat_run(&flags(&values, 0.05), 2);
    assert!(start.is_some());
    assert!((values[start.unwrap()].1 - 0.82).abs() < 0.01);
}

#[test]
fn test_no_plateau() {
    let values = vec![(10, 1.0), (100, 2.0), (1000, 4.0), (10000, 8.0)];
    assert_eq!(find_flat_run(&flags(&values, 0.05), 2), None);
}

#[test]
fn test_too_few_points() {
    let values = vec![(10, 0.5)];
    assert_eq!(find_flat_run(&flags(&values, 0.05), 2), None);
}

#[test]
fn first_run_is_found() {
    assert_eq!(find_flat_run(&[false, true, false, true, true, true], 2), Some(3));
    assert_eq!(find_flat_run(&[false, true, false, true, true, true], 3), Some(3));
    assert_eq!(find_flat_run(&[false, true, false, true, true, true], 4), None);
    assert_eq!(find_flat_run(&[true, true], 2), Some(0));
}

#[test]
fn zero_or_one_point_finds_the_first_flat_step() {
    assert_eq!(find_flat_run(&[false, false, true], 0), Some(2));
    assert_eq!(find_flat_run(&[false, false, true], 1), Some(2));
    assert_eq!(find_flat_run(&[false, false], 0), None);
    assert_eq!(find_flat_run(&[], 1), None);
}
