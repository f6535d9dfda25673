use ssnt_tts::transition::Transition;
use ssnt_tts::{util, BeamSearchDecodingTable, DecodeResult, SsntTts, SsntTtsCpu};

// An order-preserving integer key for a log-probability, and its inverse.
fn key(x: f32) -> i32 {
    let bits = x.to_bits() as i32;
    bits ^ ((((bits >> 31) as u32) >> 1) as i32)
}

fn unkey(k: i32) -> f32 {
    f32::from_bits((k ^ ((((k >> 31) as u32) >> 1) as i32)) as u32)
}

fn log(input: &Vec<Vec<f32>>) -> Vec<Vec<f32>> {
    input.iter().map(|row| row.iter().map(|item| item.ln()).collect()).collect()
}

// The score keys that each beam has after each of its moves.
fn cumulative(history: &[f32], branch: &[f32]) -> Vec<i32> {
    let width = branch.len() / history.len();
    branch.iter().enumerate().map(|(i, p)| key(history[i / width] + p)).collect()
}

fn keys(values: &[f32]) -> Vec<i32> {
    values.iter().map(|v| key(*v)).collect()
}

#[test]
fn beam_search_decode_test() {
    let t_max: usize = 4;
    let u_max: usize = 0;
    let batch_size: i32 = 1;
    let beam_width = 3;
    let max_beam_width = 3;
    let is_finished = vec![false, false, false];
    let ssnt_tts_cpu = SsntTtsCpu::new(batch_size, t_max, u_max);

    let log_prob_history: Vec<f32> = vec![0.0, 0.0, 0.0];

    let input1: Vec<f32> =
        log(&vec![vec![0.8, 0.2], vec![0.8, 0.2], vec![0.8, 0.2]]).into_iter().flatten().collect();

    let scores1 = cumulative(&log_prob_history, &input1);
    let history1 = keys(&log_prob_history);
    let table1 = BeamSearchDecodingTable::new(
        scores1.as_slice(),
        history1.as_slice(),
        is_finished.as_slice(),
        t_max,
        beam_width,
        max_beam_width,
    );
    let start_t: Vec<usize> = vec![0, 0, 0];
    let u = vec![0, 0, 0];

    let result1 = ssnt_tts_cpu.beam_search_kernel(&table1, start_t.as_slice(), u.as_slice());
    println!("{:?}", result1);

    let log_prob2: Vec<f32> = result1.iter().map(|dr| unkey(dr.log_prob)).collect();
    println!("{:?}", log_prob2);
    let ln8 = (0.8f32).ln();
    let ln2 = (0.2f32).ln();
    assert_eq!(log_prob2, vec![ln8, ln2, ln8]);
    for value in log_prob2.iter() {
        assert!(*value == ln8 || *value == ln2);
    }
    assert_eq!(
        result1,
        vec![
            DecodeResult {
                prediction: 0,
                log_prob: key(ln8),
                next_t: 0,
                next_u: 1,
                is_finished: false,
                parent_branch: 0
            },
            DecodeResult {
                prediction: 1,
                log_prob: key(ln2),
                next_t: 1,
                next_u: 1,
                is_finished: false,
                parent_branch: 0
            },
            DecodeResult {
                prediction: 0,
                log_prob: key(ln8),
                next_t: 0,
                next_u: 1,
                is_finished: false,
                parent_branch: 0
            },
        ]
    );

    let input2: Vec<f32> =
        log(&vec![vec![0.8, 0.2], vec![0.8, 0.2], vec![0.8, 0.2]]).into_iter().flatten().collect();
    let scores2 = cumulative(&log_prob2, &input2);
    let history2 = keys(&log_prob2);
    let table2 = BeamSearchDecodingTable::new(
        scores2.as_slice(),
        history2.as_slice(),
        is_finished.as_slice(),
        t_max,
        beam_width,
        max_beam_width,
    );

    let result2 = ssnt_tts_cpu.beam_search_kernel(&table2, start_t.as_slice(), u.as_slice());
    println!("{:?}", result2);
    let log_prob3: Vec<f32> = result2.iter().map(|dr| unkey(dr.log_prob)).collect();
    assert_eq!(log_prob3, vec![ln8 + ln8, ln8 + ln2, ln2 + ln8]);
    let predictions: Vec<i32> = result2.iter().map(|dr| dr.prediction).collect();
    assert_eq!(predictions, vec![0, 1, 0]);
    let parents: Vec<usize> = result2.iter().map(|dr| dr.parent_branch).collect();
    assert_eq!(parents, vec![0, 0, 1]);
}

fn backpointer_fixture() -> Vec<i32> {
    vec![
        vec![0, 3, 0, 5, 2, 3, 4, 1, 1, 9],
        vec![0, 5, 0, 1, 1, 3, 2, 2, 3, 4],
        vec![0, 5, 0, 1, 2, 3, 4, 2, 1, 3],
        vec![8, 3, 0, 0, 7, 1, 2, 1, 3, 4],
        vec![0, 0, 1, 1, 2, 3, 4, 5, 6, 7],
        vec![1, 0, 1, 2, 3, 4, 5, 0, 3, 6],
        vec![0, 0, 7, 1, 8, 3, 4, 5, 6, 2],
        vec![0, 0, 1, 1, 4, 2, 3, 5, 2, 6],
        vec![0, 1, 0, 2, 2, 3, 4, 6, 4, 5],
        vec![0, 4, 0, 1, 3, 2, 4, 2, 5, 6],
        vec![0, 7, 0, 1, 2, 1, 3, 4, 6, 8],
        vec![0, 0, 2, 1, 4, 1, 3, 5, 3, 6],
        vec![3, 1, 0, 5, 0, 6, 2, 4, 3, 5],
        vec![0, 4, 5, 0, 1, 2, 3, 4, 3, 6],
        vec![0, 0, 1, 2, 1, 2, 3, 4, 5, 7],
        vec![0, 1, 1, 3, 2, 2, 3, 4, 5, 6],
        vec![2, 3, 0, 1, 2, 3, 4, 5, 5, 6],
        vec![7, 0, 0, 2, 1, 3, 4, 5, 6, 1],
        vec![1, 9, 0, 2, 1, 0, 3, 4, 5, 6],
        vec![0, 0, 1, 2, 3, 1, 4, 5, 6, 7],
        vec![1, 0, 1, 3, 4, 5, 2, 7, 6, 2],
        vec![0, 0, 1, 2, 7, 3, 4, 5, 6, 8],
        vec![0, 0, 1, 2, 3, 4, 4, 5, 6, 7],
        vec![0, 1, 0, 2, 3, 4, 5, 6, 7, 8],
        vec![2, 0, 1, 2, 3, 4, 5, 6, 7, 8],
        vec![0, 0, 1, 2, 3, 4, 5, 6, 7, 8],
        vec![0, 0, 1, 2, 3, 4, 5, 6, 7, 8],
        vec![0, 1, 1, 2, 3, 4, 5, 6, 7, 8],
        vec![0, 1, 2, 1, 3, 4, 5, 6, 7, 8],
        vec![3, 0, 1, 2, 3, 4, 5, 6, 7, 8],
        vec![0, 0, 1, 2, 3, 4, 5, 6, 7, 8],
        vec![1, 2, 0, 3, 0, 4, 5, 6, 7, 8],
        vec![4, 0, 1, 2, 3, 5, 4, 6, 7, 8],
        vec![0, 0, 1, 2, 3, 4, 5, 6, 7, 8],
        vec![1, 0, 1, 2, 3, 4, 5, 6, 7, 8],
        vec![0, 0, 1, 2, 3, 4, 5, 6, 7, 8],
        vec![1, 0, 1, 2, 3, 4, 5, 6, 7, 8],
        vec![0, 0, 1, 2, 3, 4, 5, 6, 7, 8],
        vec![0, 0, 1, 2, 3, 4, 5, 6, 7, 8],
        vec![0, 1, 0, 2, 3, 4, 5, 6, 7, 8],
        vec![0, 1, 2, 2, 3, 4, 5, 6, 7, 8],
        vec![0, 1, 2, 3, 4, 3, 5, 6, 7, 8],
        vec![0, 1, 2, 3, 4, 5, 6, 7, 5, 8],
        vec![0, 1, 2, 8, 3, 4, 5, 6, 7, 8],
        vec![0, 1, 2, 3, 4, 3, 5, 6, 7, 8],
        vec![0, 1, 2, 3, 4, 5, 5, 6, 7, 8],
        vec![0, 1, 2, 3, 5, 4, 5, 6, 7, 8],
        vec![0, 1, 2, 4, 3, 4, 5, 6, 7, 8],
        vec![0, 1, 2, 3, 3, 4, 5, 6, 7, 8],
        vec![0, 1, 2, 3, 4, 4, 5, 6, 7, 8],
        vec![0, 1, 2, 3, 5, 4, 5, 6, 7, 8],
        vec![0, 1, 2, 3, 4, 5, 6, 4, 7, 8],
        vec![0, 1, 2, 3, 4, 5, 6, 7, 7, 8],
        vec![0, 1, 2, 3, 7, 4, 5, 6, 7, 8],
        vec![0, 1, 2, 3, 4, 5, 4, 6, 7, 8],
        vec![0, 1, 2, 3, 4, 5, 6, 7, 6, 8],
        vec![0, 8, 1, 2, 3, 4, 5, 6, 7, 8],
        vec![0, 1, 2, 1, 3, 4, 5, 6, 7, 8],
        vec![0, 1, 2, 3, 4, 5, 6, 3, 7, 8],
        vec![0, 1, 2, 3, 4, 5, 6, 7, 8, 9],
    ]
    .into_iter()
    .flatten()
    .collect()
}

fn expected_best_path() -> Vec<i32> {
    vec![
        5, 1, 8, 0, 1, 0, 0, 0, 2, 7, 1, 3, 0, 0, 1, 2, 0, 1, 0, 1, 0, 0, 0, 2, 0, 0, 1, 1, 3, 0, 0,
        4, 0, 1, 0, 1, 0, 0, 0, 2, 3, 5, 8, 3, 5, 5, 4, 3, 4, 5, 4, 7, 7, 4, 6, 6, 7, 8, 9, 9,
    ]
}

#[test]
fn extract_best_beam_branch_test() {
    let beam_width = 10;
    let max_u = 60;
    let beam_branch: Vec<i32> = backpointer_fixture();

    let (best_beam_branch, _best_t) = util::extract_best_beam_branch_kernel(
        9,
        beam_branch.as_slice(),
        beam_branch.as_slice(),
        beam_width,
        max_u,
    );

    assert_eq!(best_beam_branch, expected_best_path());
}

#[test]
fn best_path_records_the_value_of_the_branch_it_stands_at() {
    // Three steps, two branches. The parents send branch 1 to branch 0 and
    // branch 0 to branch 1, so the path that ends in 1 is 1, 0, 1.
    let beam_branch = vec![1, 0, 1, 0, 1, 0];
    let t_history = vec![10, 11, 20, 21, 30, 31];
    let (branches, times) =
        util::extract_best_beam_branch_kernel(1, &beam_branch, &t_history, 2, 3);
    assert_eq!(branches, vec![1, 0, 1]);
    assert_eq!(times, vec![11, 20, 31]);
}

#[test]
fn backtracking_through_parents_that_are_all_zero() {
    let width = 4;
    let depth = 6;
    let beam_branch = vec![0; (width * depth) as usize];
    for k in 0..width {
        let (branches, _) =
            util::extract_best_beam_branch_kernel(k, &beam_branch, &beam_branch, width, depth);
        assert_eq!(branches, vec![0, 0, 0, 0, 0, k]);
    }
}

#[test]
fn backtracking_without_steps_is_empty() {
    let none: Vec<i32> = vec![];
    let (branches, times) = util::extract_best_beam_branch_kernel(0, &none, &none, 3, 0);
    assert_eq!(branches, none);
    assert_eq!(times, none);
}

#[test]
fn best_paths_of_a_batch_are_written_row_after_row() {
    let fixture = backpointer_fixture();
    let zeros = vec![0; 600];
    let mut beam_branch = fixture.clone();
    beam_branch.extend_from_slice(&zeros);
    let t_history = beam_branch.clone();
    let mut best_beam_branch = vec![-1; 120];
    let mut best_t_history = vec![-1; 120];
    util::extract_best_beam_branch(
        &[9, 4],
        &beam_branch,
        &t_history,
        10,
        60,
        &mut best_beam_branch,
        &mut best_t_history,
    );
    let mut expected = expected_best_path();
    let mut second = vec![0; 59];
    second.push(4);
    expected.extend_from_slice(&second);
    assert_eq!(best_beam_branch, expected);
    // The value recorded for a branch is the parent stored at it.
    let mut expected_times = expected_best_path()[..59].to_vec();
    expected_times.insert(0, fixture[5]);
    expected_times.extend_from_slice(&vec![0; 60]);
    assert_eq!(best_t_history, expected_times);
}

fn result(
    prediction: i32,
    log_prob: i32,
    next_t: usize,
    next_u: usize,
    is_finished: bool,
    parent_branch: usize,
) -> DecodeResult {
    DecodeResult { prediction, log_prob, next_t, next_u, is_finished, parent_branch }
}

#[test]
fn emit_and_shift_before_the_last_frame() {
    let cpu = SsntTtsCpu::new(1, 4, 0);
    let table = BeamSearchDecodingTable::new(&[70, 30], &[100], &[false], 4, 1, 2);
    let proposed = cpu.beam_search_kernel_internal(&table, 0, 1, 5, 100, false);
    assert_eq!(proposed, vec![result(0, 70, 1, 6, false, 0), result(1, 30, 2, 6, false, 0)]);
    assert_eq!(Transition::Emit.class_id(), 0);
    assert_eq!(Transition::Shift.class_id(), 1);
}

#[test]
fn last_frame_finishes_with_emit() {
    let cpu = SsntTtsCpu::new(1, 4, 0);
    let table = BeamSearchDecodingTable::new(&[70, 30], &[100], &[false], 4, 1, 2);
    let proposed = cpu.beam_search_kernel_internal(&table, 0, 3, 5, 100, false);
    // Emit ends the beam with its own score; the attempted Shift becomes the
    // same Emit, with the score of Emit and not its own.
    assert_eq!(proposed, vec![result(0, 70, 3, 5, true, 0), result(0, 70, 3, 5, true, 0)]);
    for candidate in proposed.iter() {
        assert!(candidate.next_t <= 3);
        assert!(candidate.is_finished);
    }
}

#[test]
fn finished_beam_is_carried_forward() {
    let cpu = SsntTtsCpu::new(1, 4, 0);
    let table = BeamSearchDecodingTable::new(&[70, 30, 60, 20], &[100, 90], &[false, true], 4, 2, 2);
    let proposed = cpu.beam_search_kernel_internal(&table, 1, 2, 7, 90, true);
    assert_eq!(proposed, vec![result(0, 90, 2, 7, true, 1)]);
}

#[test]
fn beam_past_the_input_is_carried_forward() {
    let cpu = SsntTtsCpu::new(1, 4, 0);
    let table = BeamSearchDecodingTable::new(&[70, 30], &[100], &[false], 4, 1, 2);
    let proposed = cpu.beam_search_kernel_internal(&table, 0, 4, 7, 100, false);
    assert_eq!(proposed, vec![result(0, 100, 4, 7, true, 0)]);
}

#[test]
fn kernel_pads_by_repeating_the_survivors_in_order() {
    let cpu = SsntTtsCpu::new(1, 4, 0);
    let table = BeamSearchDecodingTable::new(&[30, 70], &[100], &[false], 4, 1, 5);
    let kept = cpu.beam_search_kernel(&table, &[0], &[0]);
    let shift = result(1, 70, 1, 1, false, 0);
    let emit = result(0, 30, 0, 1, false, 0);
    assert_eq!(kept, vec![shift, emit, shift, emit, shift]);
}

#[test]
fn kernel_truncates_to_the_best() {
    let cpu = SsntTtsCpu::new(1, 4, 0);
    let table =
        BeamSearchDecodingTable::new(&[10, 40, 30, 20], &[0, 0], &[false, false], 4, 2, 3);
    let kept = cpu.beam_search_kernel(&table, &[0, 1], &[0, 0]);
    assert_eq!(
        kept,
        vec![
            result(1, 40, 1, 1, false, 0),
            result(0, 30, 1, 1, false, 1),
            result(1, 20, 2, 1, false, 1),
        ]
    );
}

#[test]
fn kernel_with_no_capacity_keeps_nothing() {
    let cpu = SsntTtsCpu::new(1, 4, 0);
    let table = BeamSearchDecodingTable::new(&[10, 40], &[0], &[false], 4, 1, 0);
    assert_eq!(cpu.beam_search_kernel(&table, &[0], &[0]), vec![]);
}

#[test]
fn transition_decode_writes_every_row() {
    let cpu = SsntTtsCpu::new(2, 4, 0);
    // Row 0: one beam before the last frame, one finished. Row 1: both beams
    // at the last frame.
    let h = vec![10, 40, 0, 0, 35, 5, 25, 15];
    let history = vec![100, 50, 30, 20];
    let finished = vec![false, true, false, false];
    let t = vec![0, 2, 3, 3];
    let u = vec![4, 6, 8, 9];
    let mut prediction = vec![-1; 4];
    let mut log_probs = vec![-1; 4];
    let mut next_t = vec![-1; 4];
    let mut next_u = vec![-1; 4];
    let mut next_is_finished = vec![false; 4];
    let mut beam_branch = vec![-1; 4];
    cpu.beam_search_decode(
        &h,
        &history,
        &finished,
        &t,
        &u,
        2,
        2,
        &mut prediction,
        &mut log_probs,
        &mut next_t,
        &mut next_u,
        &mut next_is_finished,
        &mut beam_branch,
    );
    // Row 0 ranks 50 (carried), 40 (Shift), 10 (Emit). In row 1 each beam
    // finishes twice with its Emit score, 35 and 25, and each repeat is
    // dropped.
    assert_eq!(prediction, vec![0, 1, 0, 0]);
    assert_eq!(log_probs, vec![50, 40, 35, 25]);
    assert_eq!(next_t, vec![2, 1, 3, 3]);
    assert_eq!(next_u, vec![6, 5, 8, 9]);
    assert_eq!(next_is_finished, vec![true, false, true, true]);
    assert_eq!(beam_branch, vec![1, 0, 0, 1]);
}

#[test]
fn transition_decode_matches_the_kernel_row_by_row() {
    let cpu = SsntTtsCpu::new(2, 3, 0);
    let h = vec![9, 8, 7, 6, 5, 4, 3, 2];
    let history = vec![1, 2, 3, 4];
    let finished = vec![false, false, false, false];
    let t = vec![0, 1, 2, 0];
    let u = vec![0, 1, 2, 3];
    let mut prediction = vec![-1; 6];
    let mut log_probs = vec![-1; 6];
    let mut next_t = vec![-1; 6];
    let mut next_u = vec![-1; 6];
    let mut next_is_finished = vec![false; 6];
    let mut beam_branch = vec![-1; 6];
    cpu.beam_search_decode(
        &h,
        &history,
        &finished,
        &t,
        &u,
        2,
        3,
        &mut prediction,
        &mut log_probs,
        &mut next_t,
        &mut next_u,
        &mut next_is_finished,
        &mut beam_branch,
    );
    for row in 0..2 {
        let table = BeamSearchDecodingTable::new(
            &h[row * 4..row * 4 + 4],
            &history[row * 2..row * 2 + 2],
            &finished[row * 2..row * 2 + 2],
            3,
            2,
            3,
        );
        let start_t: Vec<usize> = t[row * 2..row * 2 + 2].iter().map(|v| *v as usize).collect();
        let start_u: Vec<usize> = u[row * 2..row * 2 + 2].iter().map(|v| *v as usize).collect();
        let kept = cpu.beam_search_kernel(&table, &start_t, &start_u);
        assert_eq!(kept.len(), 3);
        for (i, candidate) in kept.iter().enumerate() {
            let slot = row * 3 + i;
            assert_eq!(prediction[slot], candidate.prediction);
            assert_eq!(log_probs[slot], candidate.log_prob);
            assert_eq!(next_t[slot], candidate.next_t as i32);
            assert_eq!(next_u[slot], candidate.next_u as i32);
            assert_eq!(next_is_finished[slot], candidate.is_finished);
            assert_eq!(beam_branch[slot], candidate.parent_branch as i32);
        }
    }
}

#[test]
fn path_stays_in_beam_tells_whether_a_path_can_be_walked() {
    let beam_branch = vec![1, 0, 1, 0, 1, 0];
    assert!(util::path_stays_in_beam(1, &beam_branch, 2, 3));
    assert!(!util::path_stays_in_beam(2, &beam_branch, 2, 3));
    assert!(!util::path_stays_in_beam(-1, &beam_branch, 2, 3));
    // The parent that the walk meets at the middle step lies outside.
    assert!(!util::path_stays_in_beam(0, &[0, 0, 0, 0, 5, 0], 2, 3));
    // A parent outside the beam that the walk does not meet does no harm, and
    // neither does the parent of the first step.
    assert!(util::path_stays_in_beam(0, &[7, 7, 0, 9, 0, 9], 2, 3));
    assert!(util::path_stays_in_beam(5, &[], 2, 0));
}

#[test]
fn forced_finish_never_takes_the_shift_score() {
    let cpu = SsntTtsCpu::new(1, 1, 0);
    // Shift scores far better than Emit; at the last frame it does not count.
    let table = BeamSearchDecodingTable::new(&[-40, 900], &[5], &[false], 1, 1, 3);
    let proposed = cpu.beam_search_kernel_internal(&table, 0, 0, 2, 5, false);
    assert_eq!(proposed, vec![result(0, -40, 0, 2, true, 0), result(0, -40, 0, 2, true, 0)]);
    // The two finishes are one outcome: the row keeps it once and repeats it
    // to fill the beam.
    let kept = cpu.beam_search_kernel(&table, &[0], &[2]);
    assert_eq!(kept, vec![result(0, -40, 0, 2, true, 0); 3]);
}

#[test]
fn output_index_at_the_end_of_its_range_is_kept_where_it_is_not_advanced() {
    let cpu = SsntTtsCpu::new(1, 4, 0);
    let table =
        BeamSearchDecodingTable::new(&[70, 30, 60, 20], &[100, 90], &[false, true], 4, 2, 2);
    // At the last frame the output index stays.
    assert_eq!(
        cpu.beam_search_kernel_internal(&table, 0, 3, usize::MAX, 100, false),
        vec![result(0, 70, 3, usize::MAX, true, 0), result(0, 70, 3, usize::MAX, true, 0)]
    );
    // A finished beam and a beam past the input are carried as they are.
    assert_eq!(
        cpu.beam_search_kernel_internal(&table, 1, 0, usize::MAX, 90, true),
        vec![result(0, 90, 0, usize::MAX, true, 1)]
    );
    assert_eq!(
        cpu.beam_search_kernel(&table, &[3, 9], &[usize::MAX, usize::MAX]),
        vec![result(0, 90, 9, usize::MAX, true, 1), result(0, 70, 3, usize::MAX, true, 0)]
    );
}

#[test]
fn transition_decode_carries_a_beam_at_the_end_of_the_index_range() {
    let cpu = SsntTtsCpu::new(1, 4, 0);
    let mut prediction = vec![-1; 2];
    let mut log_probs = vec![-1; 2];
    let mut next_t = vec![-1; 2];
    let mut next_u = vec![-1; 2];
    let mut next_is_finished = vec![false; 2];
    let mut beam_branch = vec![-1; 2];
    // Beam 0 is finished, beam 1 stands at the last frame: neither moves on.
    cpu.beam_search_decode(
        &[1, 2, 30, 4],
        &[50, 20],
        &[true, false],
        &[i32::MAX, 3],
        &[i32::MAX, i32::MAX],
        2,
        2,
        &mut prediction,
        &mut log_probs,
        &mut next_t,
        &mut next_u,
        &mut next_is_finished,
        &mut beam_branch,
    );
    assert_eq!(prediction, vec![0, 0]);
    assert_eq!(log_probs, vec![50, 30]);
    assert_eq!(next_t, vec![i32::MAX, 3]);
    assert_eq!(next_u, vec![i32::MAX, i32::MAX]);
    assert_eq!(next_is_finished, vec![true, true]);
    assert_eq!(beam_branch, vec![0, 1]);
}
