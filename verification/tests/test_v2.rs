use ssnt_tts::v2::{Band, BeamSearchDecodingTable, DecodeResult, SsntTtsV2, SsntTtsV2Cpu};
use ssnt_tts::v2_util::{durations_add_up, order_beam_branch, upsample_source_indexes};

fn result(
    prediction: i32,
    log_prob: i32,
    next_t: usize,
    next_u: usize,
    is_finished: bool,
    parent_branch: usize,
    total_duration: i32,
) -> DecodeResult {
    DecodeResult { prediction, log_prob, next_t, next_u, is_finished, parent_branch, total_duration }
}

const DURATIONS: [i32; 5] = [0, 5, 10, 20, 21];

fn predictions(results: &[DecodeResult]) -> Vec<i32> {
    results.iter().map(|c| c.prediction).collect()
}

#[test]
fn band_admits_the_classes_between_its_bounds() {
    // Ten frames for a hundred output frames: after frame 0 the diagonal is
    // at 10, the band reaches from 10 - 5 to 10 + 10.
    let cpu = SsntTtsV2Cpu::new(1, 5, 0, false);
    let table = BeamSearchDecodingTable::new(
        &[50, 40, 30, 20, 10],
        &[7],
        &[false],
        &[0],
        &DURATIONS,
        5,
        10,
        100,
        1,
        3,
    );
    let proposed = cpu.beam_search_kernel_internal(&table, 0, 0, 0, 7);
    assert_eq!(
        proposed,
        vec![
            result(1, 40, 1, 1, false, 0, 5),
            result(2, 30, 1, 1, false, 0, 10),
            result(3, 20, 1, 1, false, 0, 20),
        ]
    );
}

#[test]
fn band_moves_along_the_diagonal() {
    // After frame 4 the diagonal is at 50, the band reaches from 45 to 60.
    let cpu = SsntTtsV2Cpu::new(1, 5, 0, false);
    let table = BeamSearchDecodingTable::new(
        &[50, 40, 30, 20, 10],
        &[7],
        &[false],
        &[40],
        &[4, 5, 20, 21, 0],
        5,
        10,
        100,
        1,
        3,
    );
    let proposed = cpu.beam_search_kernel_internal(&table, 0, 4, 2, 7);
    assert_eq!(
        proposed,
        vec![result(1, 40, 5, 3, false, 0, 45), result(2, 30, 5, 3, false, 0, 60)]
    );
}

#[test]
fn band_bounds_are_rounded_down() {
    // Three frames for seven output frames: after frame 0 the diagonal is
    // at 7/3, the band reaches from 7/3 - 7/20 to 7/3 + 7/10, that is from
    // 1 to 3 once rounded down.
    let cpu = SsntTtsV2Cpu::new(1, 5, 0, false);
    let table = BeamSearchDecodingTable::new(
        &[50, 40, 30, 20, 10],
        &[7],
        &[false],
        &[0],
        &[0, 1, 2, 3, 4],
        5,
        3,
        7,
        1,
        3,
    );
    let proposed = cpu.beam_search_kernel_internal(&table, 0, 0, 0, 7);
    assert_eq!(predictions(&proposed), vec![1, 2, 3]);
}

#[test]
fn band_never_reaches_past_the_output_length() {
    // After frame 8 of ten the diagonal is at 90 and the widened band would
    // end at 100; after frame 9 it would end at 110 and is cut at 100.
    let cpu = SsntTtsV2Cpu::new(1, 3, 0, false);
    let table = BeamSearchDecodingTable::new(
        &[3, 2, 1],
        &[7],
        &[false],
        &[95],
        &[5, 6, 0],
        3,
        10,
        100,
        1,
        3,
    );
    let proposed = cpu.beam_search_kernel_internal(&table, 0, 8, 0, 7);
    assert_eq!(proposed, vec![result(0, 3, 9, 1, false, 0, 100), result(2, 1, 9, 1, false, 0, 95)]);
    for candidate in proposed.iter() {
        assert!(candidate.total_duration <= 100);
    }
}

#[test]
fn last_frame_admits_only_what_fills_the_output() {
    let cpu = SsntTtsV2Cpu::new(1, 5, 0, false);
    let table = BeamSearchDecodingTable::new(
        &[50, 40, 30, 20, 10],
        &[7],
        &[false],
        &[90],
        &[10, 9, 5, 11, 0],
        5,
        10,
        100,
        1,
        3,
    );
    let proposed = cpu.beam_search_kernel_internal(&table, 0, 9, 6, 7);
    assert_eq!(proposed, vec![result(0, 50, 9, 6, true, 0, 100)]);
}

#[test]
fn test_mode_admits_every_class() {
    let cpu = SsntTtsV2Cpu::new(1, 5, 0, true);
    let table = BeamSearchDecodingTable::new(
        &[50, 10, 20, 40, 30],
        &[7],
        &[false],
        &[0],
        &DURATIONS,
        5,
        10,
        100,
        1,
        3,
    );
    let proposed = cpu.beam_search_kernel_internal(&table, 0, 0, 0, 7);
    assert_eq!(
        proposed,
        vec![
            result(0, 50, 1, 1, false, 0, 0),
            result(1, 10, 1, 1, false, 0, 5),
            result(2, 20, 1, 1, false, 0, 10),
            result(3, 40, 1, 1, false, 0, 20),
            result(4, 30, 1, 1, false, 0, 21),
        ]
    );
    // No diagonal candidate is kept in test mode.
    let kept = cpu.beam_search_kernel(&table, &[0], &[0]);
    assert_eq!(predictions(&kept), vec![0, 3, 4]);
}

#[test]
fn test_mode_marks_the_last_frame_finished() {
    let cpu = SsntTtsV2Cpu::new(1, 2, 0, true);
    let table =
        BeamSearchDecodingTable::new(&[5, 6], &[7], &[false], &[1], &[2, 3], 2, 4, 100, 1, 2);
    let proposed = cpu.beam_search_kernel_internal(&table, 0, 3, 8, 7);
    assert_eq!(proposed, vec![result(0, 5, 3, 8, true, 0, 3), result(1, 6, 3, 8, true, 0, 4)]);
}

#[test]
fn finished_beam_keeps_its_total_duration() {
    let cpu = SsntTtsV2Cpu::new(1, 5, 4, false);
    let table = BeamSearchDecodingTable::new(
        &[50, 40, 30, 20, 10],
        &[7],
        &[true],
        &[33],
        &DURATIONS,
        5,
        10,
        100,
        1,
        3,
    );
    let proposed = cpu.beam_search_kernel_internal(&table, 0, 2, 6, 7);
    assert_eq!(proposed, vec![result(4, 7, 2, 6, true, 0, 33)]);
    let past = BeamSearchDecodingTable::new(
        &[50, 40, 30, 20, 10],
        &[7],
        &[false],
        &[33],
        &DURATIONS,
        5,
        10,
        100,
        1,
        3,
    );
    assert_eq!(
        cpu.beam_search_kernel_internal(&past, 0, 10, 6, 7),
        vec![result(4, 7, 10, 6, true, 0, 33)]
    );
}

#[test]
fn diagonal_candidate_takes_the_last_slot() {
    let cpu = SsntTtsV2Cpu::new(1, 5, 0, false);
    let table = BeamSearchDecodingTable::new(
        &[50, 10, 20, 40, 30],
        &[7],
        &[false],
        &[0],
        &DURATIONS,
        5,
        10,
        100,
        1,
        3,
    );
    // The survivors are the classes 3, 2 and 1 with the scores 40, 20 and 10
    // and the total durations 20, 10 and 5. The diagonal is at 10 after one
    // frame: class 3 is too far off, class 2 is the best that lies on it.
    let kept = cpu.beam_search_kernel(&table, &[0], &[0]);
    assert_eq!(
        kept,
        vec![
            result(3, 40, 1, 1, false, 0, 20),
            result(2, 20, 1, 1, false, 0, 10),
            result(2, 20, 1, 1, false, 0, 10),
        ]
    );
}

#[test]
fn diagonal_tolerance_is_five_output_frames() {
    // One frame per output frame: after one frame the diagonal is at 1.
    let cpu = SsntTtsV2Cpu::new(1, 2, 0, false);
    let inside =
        BeamSearchDecodingTable::new(&[9, 8], &[0], &[false], &[0], &[7, 6], 2, 100, 100, 1, 2);
    // The band after frame 0 reaches from 0 to 11. Class 0 is 6 off the
    // diagonal, class 1 is 5 off it.
    assert_eq!(predictions(&cpu.beam_search_kernel(&inside, &[0], &[0])), vec![0, 1]);
    let outside =
        BeamSearchDecodingTable::new(&[9, 8], &[0], &[false], &[0], &[7, 8], 2, 100, 100, 1, 3);
    assert_eq!(predictions(&cpu.beam_search_kernel(&outside, &[0], &[0])), vec![0, 1, 0]);
}

#[test]
fn diagonal_candidate_fills_a_single_slot() {
    let cpu = SsntTtsV2Cpu::new(1, 5, 0, false);
    let table = BeamSearchDecodingTable::new(
        &[50, 10, 20, 40, 30],
        &[7],
        &[false],
        &[0],
        &DURATIONS,
        5,
        10,
        100,
        1,
        1,
    );
    assert_eq!(cpu.beam_search_kernel(&table, &[0], &[0]), vec![result(2, 20, 1, 1, false, 0, 10)]);
}

#[test]
fn kernel_pads_before_the_diagonal_slot() {
    let cpu = SsntTtsV2Cpu::new(1, 5, 0, false);
    let table = BeamSearchDecodingTable::new(
        &[50, 40, 30, 20, 10],
        &[7],
        &[false],
        &[0],
        &DURATIONS,
        5,
        10,
        100,
        1,
        5,
    );
    let kept = cpu.beam_search_kernel(&table, &[0], &[0]);
    assert_eq!(predictions(&kept), vec![1, 2, 3, 1, 1]);
    for candidate in kept.iter() {
        assert!(candidate.total_duration <= 100);
    }
}

#[test]
fn has_candidates_tells_whether_a_row_can_be_searched() {
    let cpu = SsntTtsV2Cpu::new(1, 5, 0, false);
    let stuck = BeamSearchDecodingTable::new(
        &[50, 40, 30, 20, 10],
        &[7],
        &[false],
        &[0],
        &DURATIONS,
        5,
        10,
        100,
        1,
        3,
    );
    // At the last frame no class brings the total duration from 0 to 100.
    assert!(!cpu.has_candidates(&stuck, &[9], &[0]));
    assert!(cpu.has_candidates(&stuck, &[0], &[0]));
    assert!(cpu.has_candidates(&stuck, &[10], &[0]));
    let none = BeamSearchDecodingTable::new(&[], &[], &[], &[], &DURATIONS, 5, 10, 100, 0, 3);
    assert!(!cpu.has_candidates(&none, &[], &[]));
}

#[test]
fn v2_decode_writes_every_row() {
    let cpu = SsntTtsV2Cpu::new(2, 5, 0, false);
    let h = vec![50, 40, 30, 20, 10, 5, 4, 3, 2, 1];
    let history = vec![7, 8];
    let finished = vec![false, false];
    let total_duration = vec![0, 79];
    let t = vec![0, 9];
    let u = vec![0, 3];
    let mut prediction = vec![-1; 4];
    let mut log_probs = vec![-1; 4];
    let mut next_t = vec![-1; 4];
    let mut next_u = vec![-1; 4];
    let mut next_is_finished = vec![false; 4];
    let mut next_total_duration = vec![-1; 4];
    let mut beam_branch = vec![-1; 4];
    cpu.beam_search_decode(
        &h,
        &history,
        &finished,
        &total_duration,
        &DURATIONS,
        &t,
        &u,
        &[10, 10],
        &[100, 100],
        2,
        1,
        2,
        &mut prediction,
        &mut log_probs,
        &mut next_t,
        &mut next_u,
        &mut next_is_finished,
        &mut next_total_duration,
        &mut beam_branch,
    );
    assert_eq!(prediction, vec![1, 1, 4, 4]);
    assert_eq!(log_probs, vec![40, 40, 1, 1]);
    assert_eq!(next_t, vec![1, 1, 9, 9]);
    assert_eq!(next_u, vec![1, 1, 3, 3]);
    assert_eq!(next_is_finished, vec![false, false, true, true]);
    assert_eq!(next_total_duration, vec![5, 5, 100, 100]);
    assert_eq!(beam_branch, vec![0, 0, 0, 0]);
}

#[test]
fn v2_decode_ranks_across_the_beams_of_a_row() {
    let cpu = SsntTtsV2Cpu::new(1, 2, 0, true);
    let h = vec![10, 40, 30, 20];
    let mut prediction = vec![-1; 3];
    let mut log_probs = vec![-1; 3];
    let mut next_t = vec![-1; 3];
    let mut next_u = vec![-1; 3];
    let mut next_is_finished = vec![true; 3];
    let mut next_total_duration = vec![-1; 3];
    let mut beam_branch = vec![-1; 3];
    cpu.beam_search_decode(
        &h,
        &[0, 0],
        &[false, false],
        &[3, 4],
        &[1, 2],
        &[0, 1],
        &[5, 6],
        &[8],
        &[50],
        1,
        2,
        3,
        &mut prediction,
        &mut log_probs,
        &mut next_t,
        &mut next_u,
        &mut next_is_finished,
        &mut next_total_duration,
        &mut beam_branch,
    );
    assert_eq!(prediction, vec![1, 0, 1]);
    assert_eq!(log_probs, vec![40, 30, 20]);
    assert_eq!(next_t, vec![1, 2, 2]);
    assert_eq!(next_u, vec![6, 7, 7]);
    assert_eq!(next_is_finished, vec![false, false, false]);
    assert_eq!(next_total_duration, vec![5, 5, 6]);
    assert_eq!(beam_branch, vec![0, 1, 1]);
}

#[test]
fn order_beam_branch_reconstructs_every_beam() {
    // Three steps, two beams; the parents swap the beams at every step.
    let beam_branch = vec![1, 0, 1, 0, 1, 0];
    let mut ordered = vec![-1; 6];
    order_beam_branch(&[0, 1], &beam_branch, 2, 3, &mut ordered);
    assert_eq!(ordered, vec![0, 1, 0, 1, 0, 1]);
}

#[test]
fn order_beam_branch_reads_each_row_from_its_own_history() {
    let beam_branch = vec![1, 0, 1, 0, 1, 0, 0, 0, 0, 0, 0, 0];
    let mut ordered = vec![-1; 12];
    order_beam_branch(&[0, 1, 1, 0], &beam_branch, 2, 3, &mut ordered);
    assert_eq!(ordered, vec![0, 1, 0, 1, 0, 1, 0, 0, 1, 0, 0, 0]);
}

#[test]
fn order_beam_branch_of_an_empty_batch_writes_nothing() {
    let mut ordered: Vec<i32> = vec![];
    order_beam_branch(&[], &[], 2, 3, &mut ordered);
    assert_eq!(ordered, vec![]);
}

#[test]
fn upsample_repeats_each_frame_by_its_duration() {
    let duration = vec![2, 0, 1, 1, 1, 1];
    let mut upsampled = vec![-1; 10];
    upsample_source_indexes(&duration, &[3], 2, 3, 5, &mut upsampled);
    assert_eq!(upsampled, vec![0, 0, 2, -1, -1, 0, 1, 2, -1, -1]);
}

#[test]
fn upsample_stops_at_the_end_of_the_slice() {
    let duration = vec![3, 2];
    let mut upsampled = vec![-1; 4];
    upsample_source_indexes(&duration, &[5], 1, 2, 4, &mut upsampled);
    assert_eq!(upsampled, vec![0, 0, 0, 1]);
}

#[test]
fn upsample_takes_the_output_length_of_each_row() {
    let duration = vec![1, 1, 0, 2, 0, 0, 0, 0];
    let mut upsampled = vec![7; 12];
    upsample_source_indexes(&duration, &[2, 0], 2, 2, 3, &mut upsampled);
    assert_eq!(upsampled, vec![0, 1, 7, 1, 1, 7, 7, 7, 7, 7, 7, 7]);
}

#[test]
fn durations_add_up_tells_whether_the_durations_fill_the_output() {
    assert!(durations_add_up(&[2, 0, 1], 3));
    assert!(!durations_add_up(&[2, 0, 1], 4));
    assert!(!durations_add_up(&[2, -1, 2], 3));
    assert!(durations_add_up(&[], 0));
    assert!(!durations_add_up(&[], 1));
    assert!(!durations_add_up(&[i32::MAX, i32::MAX], -2));
}

#[test]
fn band_can_be_set() {
    use_band_of_no_width();
    use_wide_band();
}

fn use_band_of_no_width() {
    let exact = Band { lower_percent: 0, upper_percent: 0, tolerance: 0 };
    let cpu = SsntTtsV2Cpu::new(1, 5, 0, false).with_band(exact);
    let table = BeamSearchDecodingTable::new(
        &[50, 40, 30, 20, 10],
        &[7],
        &[false],
        &[0],
        &DURATIONS,
        5,
        10,
        100,
        1,
        2,
    );
    // Only the class that lands on the diagonal at 10 is admitted.
    assert_eq!(cpu.beam_search_kernel_internal(&table, 0, 0, 0, 7), vec![result(2, 30, 1, 1, false, 0, 10)]);
    assert_eq!(predictions(&cpu.beam_search_kernel(&table, &[0], &[0])), vec![2, 2]);
}

fn use_wide_band() {
    let wide = Band { lower_percent: 100, upper_percent: 100, tolerance: 0 };
    let cpu = SsntTtsV2Cpu::new(1, 5, 0, false).with_band(wide);
    let table = BeamSearchDecodingTable::new(
        &[50, 40, 30, 20, 10],
        &[7],
        &[false],
        &[0],
        &DURATIONS,
        5,
        10,
        100,
        1,
        5,
    );
    // Every class stays between 0 and 100; none but class 2 is on the
    // diagonal, and it takes the last slot.
    assert_eq!(predictions(&cpu.beam_search_kernel_internal(&table, 0, 0, 0, 7)), vec![0, 1, 2, 3, 4]);
    assert_eq!(predictions(&cpu.beam_search_kernel(&table, &[0], &[0])), vec![0, 1, 2, 3, 2]);
    assert_eq!(Band::standard(), Band { lower_percent: 5, upper_percent: 10, tolerance: 5 });
}

#[test]
fn decode_beam_at_lists_the_classes_inside_the_band() {
    let table = BeamSearchDecodingTable::new(
        &[50, 40, 30, 20, 10],
        &[7],
        &[false],
        &[0],
        &DURATIONS,
        5,
        10,
        100,
        1,
        3,
    );
    assert_eq!(table.total_duration_bounds(0, Band::standard()), (5, 20));
    assert_eq!(table.total_duration_bounds(4, Band::standard()), (45, 60));
    assert_eq!(table.total_duration_bounds(9, Band::standard()), (95, 100));
    let listed = table.decode_beam_at(0, 0, false, Band::standard()).unwrap();
    let totals: Vec<i32> = listed.iter().map(|c| c.total_duration).collect();
    assert_eq!(totals, vec![5, 10, 20]);
    assert!(listed.iter().all(|c| !c.is_finished));
    assert!(table.decode_beam_at(0, 10, false, Band::standard()).is_none());
    // At the last frame nothing brings the total duration from 0 to 100.
    assert_eq!(table.decode_beam_at(0, 9, false, Band::standard()), Some(vec![]));
    assert!(table.on_diagonal(&result(1, 40, 1, 1, false, 0, 5), Band::standard()));
    assert!(!table.on_diagonal(&result(3, 20, 1, 1, false, 0, 20), Band::standard()));
}

#[test]
fn output_index_at_the_end_of_its_range_is_kept_at_the_last_frame() {
    let cpu = SsntTtsV2Cpu::new(1, 5, 0, false);
    let table = BeamSearchDecodingTable::new(
        &[50, 40, 30, 20, 10],
        &[7],
        &[false],
        &[90],
        &[10, 9, 5, 11, 0],
        5,
        10,
        100,
        1,
        2,
    );
    let done = result(0, 50, 9, usize::MAX, true, 0, 100);
    assert_eq!(cpu.beam_search_kernel_internal(&table, 0, 9, usize::MAX, 7), vec![done]);
    assert_eq!(cpu.beam_search_kernel(&table, &[9], &[usize::MAX]), vec![done, done]);
}

#[test]
fn v2_decode_carries_a_beam_at_the_end_of_the_index_range() {
    let cpu = SsntTtsV2Cpu::new(1, 2, 6, false);
    let mut prediction = vec![-1; 2];
    let mut log_probs = vec![-1; 2];
    let mut next_t = vec![-1; 2];
    let mut next_u = vec![-1; 2];
    let mut next_is_finished = vec![false; 2];
    let mut next_total_duration = vec![-1; 2];
    let mut beam_branch = vec![-1; 2];
    // Beam 0 is finished; beam 1 stands at the last frame and fills the
    // output with class 1.
    cpu.beam_search_decode(
        &[1, 2, 3, 4],
        &[50, 20],
        &[true, false],
        &[77, 90],
        &[9, 10],
        &[i32::MAX, 9],
        &[i32::MAX, i32::MAX],
        &[10],
        &[100],
        1,
        2,
        2,
        &mut prediction,
        &mut log_probs,
        &mut next_t,
        &mut next_u,
        &mut next_is_finished,
        &mut next_total_duration,
        &mut beam_branch,
    );
    assert_eq!(prediction, vec![6, 1]);
    assert_eq!(log_probs, vec![50, 4]);
    assert_eq!(next_t, vec![i32::MAX, 9]);
    assert_eq!(next_u, vec![i32::MAX, i32::MAX]);
    assert_eq!(next_is_finished, vec![true, true]);
    assert_eq!(next_total_duration, vec![77, 100]);
    assert_eq!(beam_branch, vec![0, 1]);
}
