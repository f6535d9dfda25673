//! Backtracking: the path of the best beam through the parent branches that
//! the search recorded step by step.
use crate::batch::copy_into;
use crate::batch::lemma_row_bounds;
use crate::batch::row_of;
use crate::batch::BatchView;
use crate::parallel::par_map_range;
use std::collections::VecDeque;
use vstd::prelude::*;

verus! {

/// The branch that the path ending in `best_final_branch` passes through at
/// step `step` of `steps` recorded steps.
///
/// `beam_branch` holds one row of `beam_width` parent branches per step. At
/// the last step the path is at the final branch; at any earlier step it is
/// at the branch that the following step records as the parent of the branch
/// it is at there.
pub open spec fn branch_at(
    best_final_branch: int,
    beam_branch: Seq<i32>,
    beam_width: int,
    steps: int,
    step: int,
) -> int
    decreases steps - step,
{
    if step + 1 >= steps {
        best_final_branch
    } else {
        beam_branch[(step + 1) * beam_width + branch_at(
            best_final_branch,
            beam_branch,
            beam_width,
            steps,
            step + 1,
        )] as int
    }
}

/// Whether the path ending in `best_final_branch` stays inside the beam at
/// every step.
pub open spec fn path_valid(
    best_final_branch: int,
    beam_branch: Seq<i32>,
    beam_width: int,
    steps: int,
) -> bool {
    forall|step: int|
        0 <= step < steps ==> 0 <= #[trigger] branch_at(
            best_final_branch,
            beam_branch,
            beam_width,
            steps,
            step,
        ) < beam_width
}

/// The branches of the path ending in `best_final_branch`, from the first
/// step to the last.
pub open spec fn best_branches(
    best_final_branch: int,
    beam_branch: Seq<i32>,
    beam_width: int,
    steps: int,
) -> Seq<i32> {
    Seq::new(
        steps as nat,
        |step: int| branch_at(best_final_branch, beam_branch, beam_width, steps, step) as i32,
    )
}

/// The value that `t_history` records at every step for the branch that the
/// path ending in `best_final_branch` is at in that step, from the first step
/// to the last.
pub open spec fn best_times(
    best_final_branch: int,
    beam_branch: Seq<i32>,
    t_history: Seq<i32>,
    beam_width: int,
    steps: int,
) -> Seq<i32> {
    Seq::new(
        steps as nat,
        |step: int|
            t_history[step * beam_width + branch_at(
                best_final_branch,
                beam_branch,
                beam_width,
                steps,
                step,
            )],
    )
}

/// Copies a queue into a vector, front first.
pub fn deque_to_vec(buf: &VecDeque<i32>) -> (out: Vec<i32>)
    ensures
        out@ == buf@,
{
    let mut out: Vec<i32> = Vec::with_capacity(buf.len());
    let mut i: usize = 0;
    while i < buf.len()
        invariant
            i <= buf.len(),
            out.len() == i,
            forall|j: int| 0 <= j < i ==> out[j] == buf@[j],
        decreases buf.len() - i,
    {
        out.push(buf[i]);
        i += 1;
    }
    assert(out@ =~= buf@);
    out
}

/// Whether the path that ends in `best_final_branch` stays inside the beam at
/// every step, so that it can be reconstructed.
pub fn path_stays_in_beam(
    best_final_branch: i32,
    beam_branch: &[i32],
    beam_width: i32,
    max_u: i32,
) -> (valid: bool)
    requires
        0 <= beam_width,
        0 <= max_u,
        beam_branch@.len() == max_u * beam_width,
    ensures
        valid == path_valid(
            best_final_branch as int,
            beam_branch@,
            beam_width as int,
            max_u as int,
        ),
{
    let width: usize = beam_width as usize;
    let steps: usize = max_u as usize;
    let total: usize = beam_branch.len();
    let mut current_branch: i32 = best_final_branch;
    let mut step: usize = steps;
    while step > 0
        invariant
            step <= steps,
            steps == max_u,
            width == beam_width,
            total == beam_branch@.len(),
            beam_branch@.len() == steps * width,
            step > 0 ==> current_branch == branch_at(
                best_final_branch as int,
                beam_branch@,
                beam_width as int,
                max_u as int,
                step - 1,
            ),
            forall|later: int|
                step <= later < steps ==> 0 <= #[trigger] branch_at(
                    best_final_branch as int,
                    beam_branch@,
                    beam_width as int,
                    max_u as int,
                    later,
                ) < beam_width,
        decreases step,
    {
        let row: usize = step - 1;
        if current_branch < 0 || current_branch >= beam_width {
            assert(!(0 <= branch_at(
                best_final_branch as int,
                beam_branch@,
                beam_width as int,
                max_u as int,
                row as int,
            ) < beam_width));
            return false;
        }
        proof {
            lemma_row_bounds(steps as int, width as int, row as int);
        }
        current_branch = beam_branch[row * width + current_branch as usize];
        step = row;
    }
    true
}

/// Walks the recorded steps from the last to the first and returns the
/// branches of the path that ends in `best_final_branch`, and with each the
/// value that `t_history` holds for it, both from the first step to the last.
///
/// At every step the value recorded is that of the branch the path is at in
/// this step, before the walk moves on to its parent.
pub fn extract_best_beam_branch_kernel(
    best_final_branch: i32,
    beam_branch: &[i32],
    t_history: &[i32],
    beam_width: i32,
    max_u: i32,
) -> (path: (Vec<i32>, Vec<i32>))
    requires
        0 <= beam_width,
        0 <= max_u,
        beam_branch@.len() == max_u * beam_width,
        t_history@.len() == max_u * beam_width,
        path_valid(best_final_branch as int, beam_branch@, beam_width as int, max_u as int),
    ensures
        path.0@ == best_branches(
            best_final_branch as int,
            beam_branch@,
            beam_width as int,
            max_u as int,
        ),
        path.1@ == best_times(
            best_final_branch as int,
            beam_branch@,
            t_history@,
            beam_width as int,
            max_u as int,
        ),
        path.0@.len() == max_u,
        path.1@.len() == max_u,
{
    let width: usize = beam_width as usize;
    let steps: usize = max_u as usize;
    let total: usize = beam_branch.len();
    let mut branch_buf: VecDeque<i32> = VecDeque::with_capacity(steps);
    let mut t_buf: VecDeque<i32> = VecDeque::with_capacity(steps);
    let mut current_branch: i32 = best_final_branch;
    let mut step: usize = steps;
    while step > 0
        invariant
            step <= steps,
            steps == max_u,
            width == beam_width,
            total == beam_branch@.len(),
            beam_branch@.len() == steps * width,
            t_history@.len() == steps * width,
            path_valid(best_final_branch as int, beam_branch@, beam_width as int, max_u as int),
            branch_buf@.len() == steps - step,
            t_buf@.len() == steps - step,
            step > 0 ==> current_branch == branch_at(
                best_final_branch as int,
                beam_branch@,
                beam_width as int,
                max_u as int,
                step - 1,
            ),
            forall|j: int|
                0 <= j < steps - step ==> branch_buf@[j] == branch_at(
                    best_final_branch as int,
                    beam_branch@,
                    beam_width as int,
                    max_u as int,
                    step + j,
                ),
            forall|j: int|
                0 <= j < steps - step ==> t_buf@[j] == t_history@[(step + j) * width + branch_at(
                    best_final_branch as int,
                    beam_branch@,
                    beam_width as int,
                    max_u as int,
                    step + j,
                )],
        decreases step,
    {
        let row: usize = step - 1;
        proof {
            lemma_row_bounds(steps as int, width as int, row as int);
            assert(0 <= branch_at(
                best_final_branch as int,
                beam_branch@,
                beam_width as int,
                max_u as int,
                row as int,
            ) < beam_width);
        }
        let at: usize = row * width + current_branch as usize;
        let current_t: i32 = t_history[at];
        let prev_branch: i32 = beam_branch[at];
        branch_buf.push_front(current_branch);
        t_buf.push_front(current_t);
        current_branch = prev_branch;
        step = row;
    }
    let branches = deque_to_vec(&branch_buf);
    let times = deque_to_vec(&t_buf);
    assert(branches@ =~= best_branches(
        best_final_branch as int,
        beam_branch@,
        beam_width as int,
        max_u as int,
    ));
    assert(times@ =~= best_times(
        best_final_branch as int,
        beam_branch@,
        t_history@,
        beam_width as int,
        max_u as int,
    ));
    (branches, times)
}

/// The histories of a batch: one final branch per row, and per row `max_u`
/// steps of `beam_width` parent branches and recorded values.
pub struct Histories {
    pub best_final_branch: Seq<i32>,
    pub beam_branch: Seq<i32>,
    pub t_history: Seq<i32>,
    pub beam_width: int,
    pub max_u: int,
}

impl Histories {
    /// The number of rows.
    pub open spec fn rows(self) -> int {
        self.best_final_branch.len() as int
    }

    /// The recorded parent branches of row `b`.
    pub open spec fn branches_of(self, b: int) -> Seq<i32> {
        row_of(self.beam_branch, self.max_u * self.beam_width, b)
    }

    /// The recorded values of row `b`.
    pub open spec fn times_of(self, b: int) -> Seq<i32> {
        row_of(self.t_history, self.max_u * self.beam_width, b)
    }

    /// The buffers have the shape that the number of rows, the beam width and
    /// the number of steps ask for, and the path of every row stays inside
    /// the beam.
    pub open spec fn wf(self) -> bool {
        &&& 0 <= self.beam_width <= i32::MAX
        &&& 0 <= self.max_u <= i32::MAX
        &&& self.beam_branch.len() == self.rows() * (self.max_u * self.beam_width)
        &&& self.t_history.len() == self.rows() * (self.max_u * self.beam_width)
        &&& forall|b: int|
            0 <= b < self.rows() ==> path_valid(
                #[trigger] self.best_final_branch[b] as int,
                self.branches_of(b),
                self.beam_width,
                self.max_u,
            )
    }

    /// The path of the best beam of row `b`.
    pub open spec fn best_branches_of(self, b: int) -> Seq<i32> {
        best_branches(
            self.best_final_branch[b] as int,
            self.branches_of(b),
            self.beam_width,
            self.max_u,
        )
    }

    /// The recorded values along the path of the best beam of row `b`.
    pub open spec fn best_times_of(self, b: int) -> Seq<i32> {
        best_times(
            self.best_final_branch[b] as int,
            self.branches_of(b),
            self.times_of(b),
            self.beam_width,
            self.max_u,
        )
    }

    /// The paths of the best beams, row after row.
    pub open spec fn all_best_branches(self) -> Seq<i32> {
        Seq::new(self.rows() as nat, |b: int| self.best_branches_of(b)).flatten()
    }

    /// The recorded values along the paths of the best beams, row after row.
    pub open spec fn all_best_times(self) -> Seq<i32> {
        Seq::new(self.rows() as nat, |b: int| self.best_times_of(b)).flatten()
    }
}

/// The histories that the flat buffers of a batch describe.
pub open spec fn histories_of(
    best_final_branch: Seq<i32>,
    beam_branch: Seq<i32>,
    t_history: Seq<i32>,
    beam_width: i32,
    max_u: i32,
) -> Histories {
    Histories {
        best_final_branch,
        beam_branch,
        t_history,
        beam_width: beam_width as int,
        max_u: max_u as int,
    }
}

/// Reconstructs the path of the best beam of every row of a batch, the rows
/// in parallel, and writes the paths and the values recorded along them into
/// the output buffers, row after row, `max_u` entries each.
pub fn extract_best_beam_branch(
    best_final_branch: &[i32],
    beam_branch: &[i32],
    t_history: &[i32],
    beam_width: i32,
    max_u: i32,
    best_beam_branch: &mut [i32],
    best_t_history: &mut [i32],
)
    requires
        histories_of(best_final_branch@, beam_branch@, t_history@, beam_width, max_u).wf(),
        old(best_beam_branch)@.len() == best_final_branch@.len() * max_u,
        old(best_t_history)@.len() == best_final_branch@.len() * max_u,
    ensures
        final(best_beam_branch)@ == histories_of(
            best_final_branch@,
            beam_branch@,
            t_history@,
            beam_width,
            max_u,
        ).all_best_branches(),
        final(best_t_history)@ == histories_of(
            best_final_branch@,
            beam_branch@,
            t_history@,
            beam_width,
            max_u,
        ).all_best_times(),
{
    let ghost histories = histories_of(
        best_final_branch@,
        beam_branch@,
        t_history@,
        beam_width,
        max_u,
    );
    let ghost branches_by_row = Seq::new(
        histories.rows() as nat,
        |b: int| histories.best_branches_of(b),
    );
    let ghost times_by_row = Seq::new(histories.rows() as nat, |b: int| histories.best_times_of(b));
    let rows: usize = best_final_branch.len();
    let mut branches: Vec<i32> = Vec::new();
    let mut times: Vec<i32> = Vec::new();
    if rows > 0 {
        let total: usize = beam_branch.len();
        assert(0 <= max_u * beam_width <= rows * (max_u * beam_width)) by (nonlinear_arith)
            requires
                1 <= rows,
                0 <= max_u,
                0 <= beam_width,
        ;
        let stride: usize = max_u as usize * beam_width as usize;
        let branch_rows = BatchView::new(beam_branch, stride, rows);
        let time_rows = BatchView::new(t_history, stride, rows);
        let extract = |b: usize| -> (path: (Vec<i32>, Vec<i32>))
            requires
                b < rows,
            ensures
                path.0@ == histories_of(
                    best_final_branch@,
                    beam_branch@,
                    t_history@,
                    beam_width,
                    max_u,
                ).best_branches_of(b as int),
                path.1@ == histories_of(
                    best_final_branch@,
                    beam_branch@,
                    t_history@,
                    beam_width,
                    max_u,
                ).best_times_of(b as int),
            {
                proof {
                    let histories = histories_of(
                        best_final_branch@,
                        beam_branch@,
                        t_history@,
                        beam_width,
                        max_u,
                    );
                    assert(path_valid(
                        histories.best_final_branch[b as int] as int,
                        histories.branches_of(b as int),
                        histories.beam_width,
                        histories.max_u,
                    ));
                }
                extract_best_beam_branch_kernel(
                    best_final_branch[b],
                    branch_rows.batch(b),
                    time_rows.batch(b),
                    beam_width,
                    max_u,
                )
            };
        let paths: Vec<(Vec<i32>, Vec<i32>)> = par_map_range(rows, extract);
        let mut b: usize = 0;
        assert(branches_by_row.take(0) =~= Seq::<Seq<i32>>::empty());
        assert(times_by_row.take(0) =~= Seq::<Seq<i32>>::empty());
        while b < rows
            invariant
                b <= rows,
                rows == paths.len(),
                rows == histories.rows(),
                branches_by_row == Seq::new(
                    histories.rows() as nat,
                    |b: int| histories.best_branches_of(b),
                ),
                times_by_row == Seq::new(
                    histories.rows() as nat,
                    |b: int| histories.best_times_of(b),
                ),
                forall|i: int|
                    0 <= i < rows ==> (#[trigger] paths[i]).0@ == histories.best_branches_of(i),
                forall|i: int|
                    0 <= i < rows ==> (#[trigger] paths[i]).1@ == histories.best_times_of(i),
                branches@ == branches_by_row.take(b as int).flatten(),
                times@ == times_by_row.take(b as int).flatten(),
            decreases rows - b,
        {
            branches.extend_from_slice(paths[b].0.as_slice());
            times.extend_from_slice(paths[b].1.as_slice());
            proof {
                assert(branches_by_row.take(b + 1) =~= branches_by_row.take(b as int).push(
                    branches_by_row[b as int],
                ));
                assert(times_by_row.take(b + 1) =~= times_by_row.take(b as int).push(
                    times_by_row[b as int],
                ));
                branches_by_row.take(b as int).lemma_flatten_push(branches_by_row[b as int]);
                times_by_row.take(b as int).lemma_flatten_push(times_by_row[b as int]);
            }
            b += 1;
        }
        assert(branches_by_row.take(rows as int) =~= branches_by_row);
        assert(times_by_row.take(rows as int) =~= times_by_row);
    }
    proof {
        crate::rank::lemma_flatten_uniform_len(branches_by_row, max_u as nat);
        crate::rank::lemma_flatten_uniform_len(times_by_row, max_u as nat);
    }
    copy_into(best_beam_branch, &branches);
    copy_into(best_t_history, &times);
}

/// Where every recorded parent is branch 0, the path that ends in branch `k`
/// is at branch 0 at every step but the last, and at `k` at the last.
pub proof fn lemma_backtrack_to_root(k: int, beam_branch: Seq<i32>, beam_width: int, steps: int)
    requires
        0 < steps,
        0 <= k < beam_width,
        i32::MIN <= k <= i32::MAX,
        beam_branch.len() == steps * beam_width,
        forall|i: int| 0 <= i < beam_branch.len() ==> #[trigger] beam_branch[i] == 0,
    ensures
        path_valid(k, beam_branch, beam_width, steps),
        best_branches(k, beam_branch, beam_width, steps) == Seq::new(
            steps as nat,
            |step: int|
                if step == steps - 1 {
                    k as i32
                } else {
                    0i32
                },
        ),
{
    assert forall|step: int| 0 <= step < steps implies #[trigger] branch_at(
        k,
        beam_branch,
        beam_width,
        steps,
        step,
    ) == (if step == steps - 1 {
        k
    } else {
        0
    }) by {
        lemma_branch_at_root(k, beam_branch, beam_width, steps, step);
    }
    assert(best_branches(k, beam_branch, beam_width, steps) =~= Seq::new(
        steps as nat,
        |step: int|
            if step == steps - 1 {
                k as i32
            } else {
                0i32
            },
    ));
}

/// One step of the path through a history in which every parent is branch 0.
pub proof fn lemma_branch_at_root(
    k: int,
    beam_branch: Seq<i32>,
    beam_width: int,
    steps: int,
    step: int,
)
    requires
        0 <= step < steps,
        0 <= k < beam_width,
        beam_branch.len() == steps * beam_width,
        forall|i: int| 0 <= i < beam_branch.len() ==> #[trigger] beam_branch[i] == 0,
    ensures
        branch_at(k, beam_branch, beam_width, steps, step) == (if step == steps - 1 {
            k
        } else {
            0
        }),
    decreases steps - step,
{
    if step + 1 < steps {
        lemma_branch_at_root(k, beam_branch, beam_width, steps, step + 1);
        let next = branch_at(k, beam_branch, beam_width, steps, step + 1);
        lemma_row_bounds(steps, beam_width, step + 1);
        assert(beam_branch[(step + 1) * beam_width + next] == 0);
    }
}

} // verus!
