use ssnt_tts::edit_distance::{levenshtein_edit_distance, levenshtein_edit_distance_kernel};

#[test]
fn test_edit_distance0() {
    let a0: Vec<i32> = vec![];
    let b0: Vec<i32> = vec![];
    let error0 = levenshtein_edit_distance_kernel(&a0, &b0);
    assert_eq!(error0, 0);

    let a1: Vec<i32> = vec![1];
    let b1: Vec<i32> = vec![1];
    let error1 = levenshtein_edit_distance_kernel(&a1, &b1);
    assert_eq!(error1, 0);

    let a2: Vec<i32> = vec![1, 2];
    let b2: Vec<i32> = vec![1, 2];
    let error2 = levenshtein_edit_distance_kernel(&a2, &b2);
    assert_eq!(error2, 0);
}

#[test]
fn test_edit_distance1() {
    let a0: Vec<i32> = vec![1];
    let b0: Vec<i32> = vec![];
    let error0 = levenshtein_edit_distance_kernel(&a0, &b0);
    assert_eq!(error0, 1);

    let a1: Vec<i32> = vec![1];
    let b1: Vec<i32> = vec![1, 2];
    let error1 = levenshtein_edit_distance_kernel(&a1, &b1);
    assert_eq!(error1, 1);

    let a2: Vec<i32> = vec![1, 2, 3, 4];
    let b2: Vec<i32> = vec![1, 2, 4];
    let error2 = levenshtein_edit_distance_kernel(&a2, &b2);
    assert_eq!(error2, 1);
}

#[test]
fn test_edit_distance2() {
    let a0: Vec<i32> = vec![1, 2, 3, 4, 5];
    let b0: Vec<i32> = vec![1, 2, 4];
    let error0 = levenshtein_edit_distance_kernel(&a0, &b0);
    assert_eq!(error0, 2);

    let a1: Vec<i32> = vec![1, 2, 3, 4, 5];
    let b1: Vec<i32> = vec![1, 2, 4, 6];
    let error1 = levenshtein_edit_distance_kernel(&a1, &b1);
    assert_eq!(error1, 2);

    let a2: Vec<i32> = vec![1, 2, 3, 4, 5, 1];
    let b2: Vec<i32> = vec![1, 2, 4, 6, 1];
    let error2 = levenshtein_edit_distance_kernel(&a2, &b2);
    assert_eq!(error2, 2);
}

#[test]
fn test_edit_distance3() {
    let a0: Vec<i32> = vec![1, 2, 3, 4, 5, 1];
    let b0: Vec<i32> = vec![1, 2, 4, 6, 1, 10];
    let error0 = levenshtein_edit_distance_kernel(&a0, &b0);
    assert_eq!(error0, 3);
}

fn batched_fixture() -> (Vec<i32>, Vec<i32>, Vec<i32>, Vec<i32>) {
    let a: Vec<i32> = vec![
        vec![-1, -2, -3, -4, -5, -6],
        vec![1, -1, -2, -3, -4, -5],
        vec![1, 2, -1, -2, -3, -4],
        vec![1, -1, -2, -3, -4, -5],
        vec![1, -1, -2, -3, -4, -5],
        vec![1, 2, 3, 4, -1, -2],
        vec![1, 2, 3, 4, 5, -1],
        vec![1, 2, 3, 4, 5, -1],
        vec![1, 2, 3, 4, 5, 1],
        vec![1, 2, 3, 4, 5, 1],
    ]
    .into_iter()
    .flatten()
    .collect();
    let a_length = vec![0, 1, 2, 1, 1, 4, 5, 5, 6, 6];
    let b: Vec<i32> = vec![
        vec![-1, -1, -1, -1, -1, -1],
        vec![1, -1, -1, -1, -1, -1],
        vec![1, 2, -1, -1, -1, -1],
        vec![-6, -5, -4, -3, -2, -1],
        vec![1, 2, -1, -1, -1, -1],
        vec![1, 2, 4, -3, -2, -1],
        vec![1, 2, 4, -3, -2, -1],
        vec![1, 2, 4, 6, -2, -1],
        vec![1, 2, 4, 6, 1, -1],
        vec![1, 2, 4, 6, 1, 10],
    ]
    .into_iter()
    .flatten()
    .collect();
    let b_length = vec![0, 1, 2, 0, 2, 3, 3, 4, 5, 6];
    (a, a_length, b, b_length)
}

#[test]
fn test_edit_distance_batched() {
    let batch_size: usize = 10;
    let max_length: usize = 6;
    let (a, a_length, b, b_length) = batched_fixture();
    let error = levenshtein_edit_distance(
        a.as_slice(),
        b.as_slice(),
        a_length.as_slice(),
        b_length.as_slice(),
        batch_size,
        max_length,
    );
    let error_answer = vec![0, 0, 0, 1, 1, 1, 2, 2, 2, 3];
    assert_eq!(error, error_answer);
}

#[test]
fn batched_distance_matches_the_kernel_row_by_row() {
    let max_length: usize = 6;
    let (a, a_length, b, b_length) = batched_fixture();
    let batched = levenshtein_edit_distance(&a, &b, &a_length, &b_length, 10, max_length);
    for row in 0..10 {
        let a_row = &a[row * max_length..row * max_length + a_length[row] as usize];
        let b_row = &b[row * max_length..row * max_length + b_length[row] as usize];
        assert_eq!(batched[row], levenshtein_edit_distance_kernel(a_row, b_row));
    }
}

#[test]
fn distance_is_symmetric() {
    let pairs: Vec<(Vec<i32>, Vec<i32>)> = vec![
        (vec![1, 2, 3, 4], vec![1, 2, 4]),
        (vec![1, 2, 3, 4, 5], vec![1, 2, 4]),
        (vec![1, 2, 3, 4, 5, 1], vec![1, 2, 4, 6, 1, 10]),
        (vec![], vec![7, 7, 7]),
        (vec![5, 4, 3], vec![3, 4, 5]),
    ];
    let expected = [1, 2, 3, 3, 2];
    for (i, (a, b)) in pairs.iter().enumerate() {
        assert_eq!(levenshtein_edit_distance_kernel(a, b), expected[i]);
        assert_eq!(levenshtein_edit_distance_kernel(b, a), expected[i]);
    }
}

#[test]
fn distance_to_itself_is_zero() {
    let a: Vec<i32> = vec![9, 8, 7, 7, 8, 9];
    assert_eq!(levenshtein_edit_distance_kernel(&a, &a), 0);
}

#[test]
fn distance_from_empty_is_the_length() {
    let empty: Vec<i32> = vec![];
    let b: Vec<i32> = vec![4, 4, 4, 4, 4];
    assert_eq!(levenshtein_edit_distance_kernel(&empty, &b), 5);
    assert_eq!(levenshtein_edit_distance_kernel(&b, &empty), 5);
}

#[test]
fn distance_counts_substitutions_insertions_and_deletions() {
    assert_eq!(levenshtein_edit_distance_kernel(&[1, 2, 3], &[1, 9, 3]), 1);
    assert_eq!(levenshtein_edit_distance_kernel(&[1, 2, 3], &[1, 2, 3, 4]), 1);
    assert_eq!(levenshtein_edit_distance_kernel(&[1, 2, 3], &[2, 3]), 1);
    assert_eq!(levenshtein_edit_distance_kernel(&[1, 2, 3], &[4, 5, 6]), 3);
}

#[test]
fn batched_distance_of_an_empty_batch_is_empty() {
    let none: Vec<i32> = vec![];
    assert_eq!(levenshtein_edit_distance(&none, &none, &none, &none, 0, 6), none);
}

#[test]
fn batched_distance_ignores_the_padding() {
    let a = vec![1, 2, 99, 98, 3, 4, 97, 96];
    let b = vec![1, 2, 55, 54, 3, 5, 53, 52];
    let distances = levenshtein_edit_distance(&a, &b, &[2, 2], &[2, 2], 2, 4);
    assert_eq!(distances, vec![0, 1]);
}

#[test]
fn distance_to_an_equal_sequence_is_zero() {
    let a: Vec<i32> = vec![3, 1, 4, 1, 5];
    let b: Vec<i32> = a.clone();
    assert_eq!(levenshtein_edit_distance_kernel(&a, &b), 0);
}
