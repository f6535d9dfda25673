use ssnt_tts::tone_latent::{BeamSearchDecodingTable, DecodeResult, ToneLatent, ToneLatentCpu};

fn result(
    prediction: i32,
    log_prob: i32,
    next_t: usize,
    next_u: usize,
    is_finished: bool,
    parent_branch: usize,
) -> DecodeResult {
    DecodeResult { prediction, log_prob, next_t, next_u, is_finished, parent_branch }
}

#[test]
fn every_tone_class_is_proposed() {
    let cpu = ToneLatentCpu::new(1, 3, 9);
    let table = BeamSearchDecodingTable::new(
        &[10, 30, 20, 25, 5, 15],
        &[1, 2],
        &[false, false],
        3,
        4,
        2,
        4,
        9,
    );
    assert_eq!(
        cpu.beam_search_kernel_internal(&table, 0, 0, 0, 1),
        vec![
            result(0, 10, 1, 1, false, 0),
            result(1, 30, 1, 1, false, 0),
            result(2, 20, 1, 1, false, 0),
        ]
    );
    assert_eq!(
        cpu.beam_search_kernel_internal(&table, 1, 3, 6, 2),
        vec![
            result(0, 25, 4, 7, false, 1),
            result(1, 5, 4, 7, false, 1),
            result(2, 15, 4, 7, false, 1),
        ]
    );
}

#[test]
fn exhausted_beam_is_carried_forward_as_the_empty_tone() {
    let cpu = ToneLatentCpu::new(1, 3, 9);
    let table = BeamSearchDecodingTable::new(
        &[10, 30, 20, 25, 5, 15],
        &[1, 2],
        &[false, true],
        3,
        4,
        2,
        4,
        9,
    );
    assert_eq!(cpu.beam_search_kernel_internal(&table, 0, 4, 8, 1), vec![result(9, 1, 4, 8, true, 0)]);
    assert_eq!(cpu.beam_search_kernel_internal(&table, 1, 2, 8, 2), vec![result(9, 2, 2, 8, true, 1)]);
}

#[test]
fn tone_kernel_ranks_across_beams() {
    let cpu = ToneLatentCpu::new(1, 3, 9);
    let table = BeamSearchDecodingTable::new(
        &[10, 30, 20, 25, 5, 15],
        &[1, 2],
        &[false, false],
        3,
        4,
        2,
        4,
        9,
    );
    assert_eq!(
        cpu.beam_search_kernel(&table, &[0, 0], &[0, 0]),
        vec![
            result(1, 30, 1, 1, false, 0),
            result(0, 25, 1, 1, false, 1),
            result(2, 20, 1, 1, false, 0),
            result(2, 15, 1, 1, false, 1),
        ]
    );
}

#[test]
fn tone_kernel_drops_what_two_beams_propose_alike() {
    let cpu = ToneLatentCpu::new(1, 1, 9);
    let table = BeamSearchDecodingTable::new(&[10, 10], &[1, 1], &[false, false], 1, 4, 2, 3, 9);
    assert_eq!(
        cpu.beam_search_kernel(&table, &[0, 0], &[0, 0]),
        vec![
            result(0, 10, 1, 1, false, 0),
            result(0, 10, 1, 1, false, 0),
            result(0, 10, 1, 1, false, 0),
        ]
    );
}

#[test]
fn tone_decode_writes_every_row() {
    let cpu = ToneLatentCpu::new(2, 2, 9);
    // Row 0 has three frames and both beams inside them; row 1 has one frame
    // and its second beam past it.
    let h = vec![10, 40, 30, 20, 8, 6, 0, 0];
    let history = vec![1, 2, 3, 50];
    let finished = vec![false, false, false, false];
    let t = vec![0, 1, 0, 1];
    let u = vec![0, 1, 2, 3];
    let mut prediction = vec![-1; 6];
    let mut log_probs = vec![-1; 6];
    let mut next_t = vec![-1; 6];
    let mut next_u = vec![-1; 6];
    let mut next_is_finished = vec![false; 6];
    let mut beam_branch = vec![-1; 6];
    cpu.beam_search_decode(
        &h,
        &history,
        &finished,
        &t,
        &u,
        &[3, 1],
        2,
        2,
        3,
        &mut prediction,
        &mut log_probs,
        &mut next_t,
        &mut next_u,
        &mut next_is_finished,
        &mut beam_branch,
    );
    assert_eq!(prediction, vec![1, 0, 1, 9, 0, 1]);
    assert_eq!(log_probs, vec![40, 30, 20, 50, 8, 6]);
    assert_eq!(next_t, vec![1, 2, 2, 1, 1, 1]);
    assert_eq!(next_u, vec![1, 2, 2, 3, 3, 3]);
    assert_eq!(next_is_finished, vec![false, false, false, true, false, false]);
    assert_eq!(beam_branch, vec![0, 1, 1, 1, 0, 0]);
}

#[test]
fn tone_row_without_classes_has_candidates_only_from_carried_beams() {
    let cpu = ToneLatentCpu::new(1, 0, 9);
    let active = BeamSearchDecodingTable::new(&[], &[1], &[false], 0, 4, 1, 2, 9);
    assert!(!cpu.has_candidates(&active, &[0], &[0]));
    assert!(cpu.has_candidates(&active, &[4], &[0]));
    let finished = BeamSearchDecodingTable::new(&[], &[1], &[true], 0, 4, 1, 2, 9);
    assert!(cpu.has_candidates(&finished, &[0], &[0]));
    assert_eq!(
        cpu.beam_search_kernel(&finished, &[0], &[0]),
        vec![result(9, 1, 0, 0, true, 0), result(9, 1, 0, 0, true, 0)]
    );
}

#[test]
fn tone_beam_that_is_carried_keeps_an_output_index_at_the_end_of_its_range() {
    let cpu = ToneLatentCpu::new(1, 2, 9);
    let table = BeamSearchDecodingTable::new(&[3, 4], &[1], &[true], 2, 4, 1, 1, 9);
    assert_eq!(
        cpu.beam_search_kernel(&table, &[0], &[usize::MAX]),
        vec![result(9, 1, 0, usize::MAX, true, 0)]
    );
    let listed = table.decode_beam_at(0, 0);
    assert!(listed.is_none());
}

#[test]
fn tone_decode_carries_a_beam_at_the_end_of_the_index_range() {
    let cpu = ToneLatentCpu::new(1, 2, 9);
    let mut prediction = vec![-1; 2];
    let mut log_probs = vec![-1; 2];
    let mut next_t = vec![-1; 2];
    let mut next_u = vec![-1; 2];
    let mut next_is_finished = vec![false; 2];
    let mut beam_branch = vec![-1; 2];
    cpu.beam_search_decode(
        &[1, 2, 3, 4],
        &[50, 20],
        &[true, false],
        &[0, i32::MAX],
        &[i32::MAX, i32::MAX],
        &[3],
        1,
        2,
        2,
        &mut prediction,
        &mut log_probs,
        &mut next_t,
        &mut next_u,
        &mut next_is_finished,
        &mut beam_branch,
    );
    assert_eq!(prediction, vec![9, 9]);
    assert_eq!(log_probs, vec![50, 20]);
    assert_eq!(next_t, vec![0, i32::MAX]);
    assert_eq!(next_u, vec![i32::MAX, i32::MAX]);
    assert_eq!(next_is_finished, vec![true, true]);
    assert_eq!(beam_branch, vec![0, 1]);
}
