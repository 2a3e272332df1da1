use vectordb::eval::{recall_ratio, Ratio};

fn as_f32(r: Ratio) -> f32 {
    r.num as f32 / r.den as f32
}

#[test]
fn perfect_recall_is_one() {
    let a = [10, 20, 30, 40];
    assert_eq!(as_f32(recall_ratio(&a, &a, 4)), 1.0);
    assert_eq!(recall_ratio(&a, &a, 4), Ratio { num: 4, den: 4 });
}

#[test]
fn half_overlap() {
    let approx = [1, 2, 3, 4];
    let truth = [1, 2, 5, 6];
    assert_eq!(as_f32(recall_ratio(&approx, &truth, 4)), 0.5);
    assert_eq!(recall_ratio(&approx, &truth, 4), Ratio { num: 2, den: 4 });
}

#[test]
fn zero_overlap() {
    let approx = [1, 2, 3, 4];
    let truth = [5, 6, 7, 9];
    assert_eq!(as_f32(recall_ratio(&approx, &truth, 4)), 0.0);
}

#[test]
fn order_does_not_matter() {
    let approx = [1, 2, 3, 4];
    let truth = [1, 6, 5, 2];
    assert_eq!(as_f32(recall_ratio(&approx, &truth, 4)), 0.5);
}

#[test]
fn ignores_ids_past_k() {
    let approx = [1, 2, 3, 4, 5, 6, 7];
    let truth = [1, 6, 5, 2, 8, 9, 1];
    assert_eq!(as_f32(recall_ratio(&approx, &truth, 4)), 0.5);
}

#[test]
fn test_recall_mean() {
    let recalls = [
        as_f32(recall_ratio(&[1, 2, 3, 4], &[1, 6, 5, 2], 4)),
        as_f32(recall_ratio(&[1, 2, 3, 4], &[1, 2, 3, 5], 4)),
    ];
    let mean = (recalls[0] + recalls[1]) / recalls.len() as f32;
    assert_eq!(mean, 0.625);
}

#[test]
fn truth_shorter_than_k() {
    let approx = [1, 2, 3, 4];
    let truth = [1, 2]; // only 2 true answers
    // found both true answers: perfect recall, the denominator is 2, not 4
    assert_eq!(as_f32(recall_ratio(&approx, &truth, 10)), 1.0);
    assert_eq!(recall_ratio(&approx, &truth, 10), Ratio { num: 2, den: 2 });
}

#[test]
fn empty_truth_is_perfect_recall() {
    assert_eq!(recall_ratio(&[1, 2, 3], &[], 3), Ratio { num: 1, den: 1 });
    assert_eq!(recall_ratio(&[1, 2, 3], &[4, 5], 0), Ratio { num: 1, den: 1 });
}

#[test]
fn approx_shorter_than_k() {
    assert_eq!(recall_ratio(&[1], &[1, 2, 3, 4], 4), Ratio { num: 1, den: 4 });
}

#[test]
fn repeated_truth_ids_count_once() {
    assert_eq!(recall_ratio(&[1, 2], &[1, 1, 1, 2], 4), Ratio { num: 2, den: 2 });
}

#[test]
fn repeated_returned_ids_count_once() {
    // recall is a set intersection over ids, so it never exceeds one
    assert_eq!(recall_ratio(&[1, 1, 1, 1], &[1, 2], 4), Ratio { num: 1, den: 2 });
    assert_eq!(recall_ratio(&[1, 1], &[1, 1], 2), Ratio { num: 1, den: 1 });
    assert_eq!(as_f32(recall_ratio(&[1, 1], &[1, 1], 2)), 1.0);
}
