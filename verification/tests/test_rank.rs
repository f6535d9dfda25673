use ssnt_tts::rank::{dedup, fill, gather, rank, reduce, Candidate};
use ssnt_tts::transition::DecodeResult;

fn candidate(prediction: i32, log_prob: i32, parent_branch: usize) -> DecodeResult {
    DecodeResult { prediction, log_prob, next_t: 1, next_u: 1, is_finished: false, parent_branch }
}

fn parents(results: &[DecodeResult]) -> Vec<usize> {
    results.iter().map(|c| c.parent_branch).collect()
}

fn scores(results: &[DecodeResult]) -> Vec<i32> {
    results.iter().map(|c| c.log_prob).collect()
}

#[test]
fn rank_orders_from_the_best_score_down() {
    let candidates =
        vec![candidate(0, -7, 0), candidate(0, 12, 1), candidate(0, 0, 2), candidate(0, 3, 3)];
    assert_eq!(scores(&rank(&candidates)), vec![12, 3, 0, -7]);
}

#[test]
fn rank_keeps_equal_scores_in_the_order_they_came() {
    let candidates = vec![
        candidate(0, 3, 0),
        candidate(1, 5, 1),
        candidate(2, 3, 2),
        candidate(3, 5, 3),
        candidate(4, 1, 4),
    ];
    let ranked = rank(&candidates);
    assert_eq!(parents(&ranked), vec![1, 3, 0, 2, 4]);
    assert_eq!(scores(&ranked), vec![5, 5, 3, 3, 1]);
}

#[test]
fn rank_of_nothing_is_nothing() {
    let none: Vec<DecodeResult> = vec![];
    assert_eq!(rank(&none), vec![]);
}

#[test]
fn rank_keeps_every_candidate() {
    let candidates = vec![candidate(0, 2, 0), candidate(0, 2, 1), candidate(0, 9, 2)];
    let ranked = rank(&candidates);
    assert_eq!(ranked.len(), 3);
    for c in candidates.iter() {
        assert!(ranked.contains(c));
    }
}

#[test]
fn eq_ignore_parent_looks_at_everything_but_the_parent() {
    let a = candidate(1, 5, 0);
    assert!(a.eq_ignore_parent(&candidate(1, 5, 7)));
    assert!(!a.eq_ignore_parent(&candidate(2, 5, 0)));
    assert!(!a.eq_ignore_parent(&candidate(1, 6, 0)));
    let mut moved = a;
    moved.next_t = 2;
    assert!(!a.eq_ignore_parent(&moved));
    let mut advanced = a;
    advanced.next_u = 2;
    assert!(!a.eq_ignore_parent(&advanced));
    let mut finished = a;
    finished.is_finished = true;
    assert!(!a.eq_ignore_parent(&finished));
    assert_eq!(a.rank_key(), 5);
}

#[test]
fn dedup_drops_repeats_that_stand_next_to_each_other() {
    let candidates = vec![
        candidate(0, 5, 0),
        candidate(0, 5, 1),
        candidate(0, 5, 2),
        candidate(1, 5, 3),
        candidate(1, 4, 4),
        candidate(1, 4, 5),
    ];
    assert_eq!(parents(&dedup(&candidates)), vec![0, 3, 4]);
}

#[test]
fn dedup_keeps_repeats_that_are_apart() {
    let candidates = vec![candidate(0, 5, 0), candidate(1, 5, 1), candidate(0, 5, 2)];
    assert_eq!(parents(&dedup(&candidates)), vec![0, 1, 2]);
}

#[test]
fn fill_repeats_the_survivors_round_and_round() {
    let survivors = vec![candidate(0, 9, 0), candidate(1, 8, 1)];
    assert_eq!(parents(&fill(&survivors, 5)), vec![0, 1, 0, 1, 0]);
    assert_eq!(parents(&fill(&survivors, 2)), vec![0, 1]);
    assert_eq!(parents(&fill(&survivors, 1)), vec![0]);
    assert_eq!(fill(&survivors, 0), vec![]);
}

#[test]
fn reduce_has_exactly_the_capacity() {
    let candidates = vec![candidate(0, 1, 0), candidate(1, 2, 1), candidate(2, 3, 2)];
    for capacity in 0..8 {
        assert_eq!(reduce(&candidates, capacity).len(), capacity);
    }
}

#[test]
fn reduce_is_sorted_where_nothing_is_repeated() {
    let candidates = vec![
        candidate(0, 4, 0),
        candidate(1, 9, 1),
        candidate(2, 4, 2),
        candidate(3, 7, 3),
        candidate(1, 9, 4),
    ];
    let kept = reduce(&candidates, 4);
    assert_eq!(scores(&kept), vec![9, 7, 4, 4]);
    assert_eq!(parents(&kept), vec![1, 3, 0, 2]);
    for i in 0..kept.len() {
        for j in i + 1..kept.len() {
            assert!(!kept[i].eq_ignore_parent(&kept[j]));
        }
    }
}

#[test]
fn reduce_starts_over_at_the_best_when_it_runs_out() {
    let candidates = vec![candidate(0, 4, 0), candidate(1, 9, 1), candidate(1, 9, 2)];
    let kept = reduce(&candidates, 5);
    assert_eq!(scores(&kept), vec![9, 4, 9, 4, 9]);
    assert_eq!(parents(&kept), vec![1, 0, 1, 0, 1]);
}

#[test]
fn reduce_keeps_a_repeat_that_another_outcome_of_the_same_score_parts() {
    // Two beams in the same state propose the same two outcomes with one
    // score: after ranking the repeats do not stand next to each other.
    let candidates =
        vec![candidate(0, 5, 0), candidate(1, 5, 0), candidate(0, 5, 1), candidate(1, 5, 1)];
    let kept = reduce(&candidates, 4);
    assert_eq!(parents(&kept), vec![0, 0, 1, 1]);
    assert!(kept[0].eq_ignore_parent(&kept[2]));
}

#[test]
fn gather_joins_the_parts_in_order() {
    let parts = vec![vec![1, 2], vec![], vec![3], vec![4, 5, 6]];
    assert_eq!(gather(&parts), vec![1, 2, 3, 4, 5, 6]);
    let none: Vec<Vec<i32>> = vec![];
    assert_eq!(gather(&none), vec![]);
}

#[test]
fn reduce_keeps_no_outcome_next_to_itself_before_it_repeats() {
    let candidates = vec![
        candidate(0, 9, 0),
        candidate(0, 9, 1),
        candidate(1, 9, 2),
        candidate(1, 7, 3),
        candidate(1, 7, 4),
    ];
    let kept = reduce(&candidates, 3);
    assert_eq!(parents(&kept), vec![0, 2, 3]);
    assert!(!kept[0].eq_ignore_parent(&kept[1]));
    assert!(!kept[1].eq_ignore_parent(&kept[2]));
}
