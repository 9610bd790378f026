/// Work/rest ratio of a fully upgraded dormitory: recovery x = 0.65 and drain
/// y = 4.0 give a maximum working share y / (x + y) of 86.02%, at most
/// 20.645 hours a day.
#[test]
fn work_rest_ratio_matches_doc() {
    let x = 0.65_f64;
    let y = 4.0_f64;
    let max_work_fraction = y / (x + y);
    assert!(
        (max_work_fraction - 0.860215).abs() < 1e-5,
        "frac={max_work_fraction}"
    );
    let max_work_hours = 24.0 * y / (x + y);
    assert!(
        (max_work_hours - 20.6452).abs() < 1e-3,
        "hours={max_work_hours}"
    );
}
