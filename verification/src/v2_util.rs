//! Utilities for the duration-class search: the path of every final beam
//! through the recorded parent branches, and the source frame of every
//! output frame under a sequence of durations.
use crate::batch::copy_into;
use crate::batch::lemma_row_bounds;
use crate::batch::row_of;
use crate::batch::BatchView;
use crate::parallel::par_map_range;
use crate::rank::gather;
use crate::rank::lemma_flatten_uniform_len;
use crate::util::best_branches;
use crate::util::branch_at;
use crate::util::deque_to_vec;
use crate::util::path_valid;
use std::collections::VecDeque;
use vstd::prelude::*;
use vstd::slice::slice_to_vec;

verus! {

/// Walks the recorded steps from the last to the first and returns the
/// branches of the path that ends in `best_final_branch`, from the first step
/// to the last.
pub fn extract_beam_branch_kernel(
    best_final_branch: i32,
    beam_branch: &[i32],
    beam_width: i32,
    max_t: i32,
) -> (path: Vec<i32>)
    requires
        0 <= beam_width,
        0 <= max_t,
        beam_branch@.len() == max_t * beam_width,
        path_valid(best_final_branch as int, beam_branch@, beam_width as int, max_t as int),
    ensures
        path@ == best_branches(
            best_final_branch as int,
            beam_branch@,
            beam_width as int,
            max_t as int,
        ),
        path@.len() == max_t,
{
    let width: usize = beam_width as usize;
    let steps: usize = max_t as usize;
    let total: usize = beam_branch.len();
    let mut branch_buf: VecDeque<i32> = VecDeque::with_capacity(steps);
    let mut current_branch: i32 = best_final_branch;
    let mut step: usize = steps;
    while step > 0
        invariant
            step <= steps,
            steps == max_t,
            width == beam_width,
            total == beam_branch@.len(),
            beam_branch@.len() == steps * width,
            path_valid(best_final_branch as int, beam_branch@, beam_width as int, max_t as int),
            branch_buf@.len() == steps - step,
            step > 0 ==> current_branch == branch_at(
                best_final_branch as int,
                beam_branch@,
                beam_width as int,
                max_t as int,
                step - 1,
            ),
            forall|j: int|
                0 <= j < steps - step ==> branch_buf@[j] == branch_at(
                    best_final_branch as int,
                    beam_branch@,
                    beam_width as int,
                    max_t as int,
                    step + j,
                ),
        decreases step,
    {
        let row: usize = step - 1;
        proof {
            lemma_row_bounds(steps as int, width as int, row as int);
            assert(0 <= branch_at(
                best_final_branch as int,
                beam_branch@,
                beam_width as int,
                max_t as int,
                row as int,
            ) < beam_width);
        }
        let prev_branch: i32 = beam_branch[row * width + current_branch as usize];
        branch_buf.push_front(current_branch);
        current_branch = prev_branch;
        step = row;
    }
    let path = deque_to_vec(&branch_buf);
    assert(path@ =~= best_branches(
        best_final_branch as int,
        beam_branch@,
        beam_width as int,
        max_t as int,
    ));
    path
}

/// The final branches and the recorded parent branches of a batch: per row
/// `beam_width` final branches and `max_t` steps of `beam_width` parents.
pub struct Branches {
    pub final_branch: Seq<i32>,
    pub beam_branch: Seq<i32>,
    pub beam_width: int,
    pub max_t: int,
}

impl Branches {
    /// The number of rows.
    pub open spec fn rows(self) -> int {
        (self.final_branch.len() as int) / self.beam_width
    }

    /// The final branches of row `b`.
    pub open spec fn finals_of(self, b: int) -> Seq<i32> {
        row_of(self.final_branch, self.beam_width, b)
    }

    /// The recorded parent branches of row `b`.
    pub open spec fn history_of(self, b: int) -> Seq<i32> {
        row_of(self.beam_branch, self.max_t * self.beam_width, b)
    }

    /// Whether the path of every final beam of row `b` stays inside the beam.
    pub open spec fn row_valid(self, b: int) -> bool {
        paths_valid(self.finals_of(b), self.history_of(b), self.beam_width, self.max_t)
    }

    /// The buffers have the shape that the beam width and the number of steps
    /// ask for, and every path stays inside the beam.
    pub open spec fn wf(self) -> bool {
        &&& 0 < self.beam_width <= i32::MAX
        &&& 0 <= self.max_t <= i32::MAX
        &&& self.final_branch.len() == self.rows() * self.beam_width
        &&& self.beam_branch.len() == self.rows() * (self.max_t * self.beam_width)
        &&& forall|b: int| 0 <= b < self.rows() ==> #[trigger] self.row_valid(b)
    }

    /// The paths of the final beams of row `b`, beam after beam.
    pub open spec fn ordered_row(self, b: int) -> Seq<i32> {
        ordered_paths(self.finals_of(b), self.history_of(b), self.beam_width, self.max_t)
    }

    /// The paths of all final beams, row after row and beam after beam.
    pub open spec fn ordered(self) -> Seq<i32> {
        Seq::new(self.rows() as nat, |b: int| self.ordered_row(b)).flatten()
    }
}

/// Whether the path of every final beam of a row stays inside the beam.
pub open spec fn paths_valid(
    final_branch: Seq<i32>,
    beam_branch: Seq<i32>,
    beam_width: int,
    max_t: int,
) -> bool {
    forall|w: int|
        0 <= w < final_branch.len() ==> path_valid(
            #[trigger] final_branch[w] as int,
            beam_branch,
            beam_width,
            max_t,
        )
}

/// The paths of the final beams of a row, beam after beam.
pub open spec fn ordered_paths(
    final_branch: Seq<i32>,
    beam_branch: Seq<i32>,
    beam_width: int,
    max_t: int,
) -> Seq<i32> {
    Seq::new(
        final_branch.len(),
        |w: int| best_branches(final_branch[w] as int, beam_branch, beam_width, max_t),
    ).flatten()
}

/// The branches that the flat buffers of a batch describe.
pub open spec fn branches_of(
    final_branch: Seq<i32>,
    beam_branch: Seq<i32>,
    beam_width: i32,
    max_t: i32,
) -> Branches {
    Branches { final_branch, beam_branch, beam_width: beam_width as int, max_t: max_t as int }
}

/// Reconstructs the paths of the final beams of one row, the beams in
/// parallel.
fn order_row(final_branch: &[i32], beam_branch: &[i32], beam_width: i32, max_t: i32) -> (ordered:
    Vec<i32>)
    requires
        0 <= beam_width,
        0 <= max_t,
        final_branch@.len() == beam_width,
        beam_branch@.len() == max_t * beam_width,
        paths_valid(final_branch@, beam_branch@, beam_width as int, max_t as int),
    ensures
        ordered@ == ordered_paths(final_branch@, beam_branch@, beam_width as int, max_t as int),
        ordered@.len() == beam_width * max_t,
{
    let extract = |w: usize| -> (path: Vec<i32>)
        requires
            w < final_branch@.len(),
        ensures
            path@ == best_branches(
                final_branch@[w as int] as int,
                beam_branch@,
                beam_width as int,
                max_t as int,
            ),
        {
            assert(path_valid(
                final_branch@[w as int] as int,
                beam_branch@,
                beam_width as int,
                max_t as int,
            ));
            extract_beam_branch_kernel(final_branch[w], beam_branch, beam_width, max_t)
        };
    let paths: Vec<Vec<i32>> = par_map_range(final_branch.len(), extract);
    let ordered = gather(&paths);
    proof {
        let by_beam = Seq::new(
            final_branch@.len(),
            |w: int|
                best_branches(
                    final_branch@[w] as int,
                    beam_branch@,
                    beam_width as int,
                    max_t as int,
                ),
        );
        assert(paths@.map_values(|part: Vec<i32>| part@) =~= by_beam);
        lemma_flatten_uniform_len(by_beam, max_t as nat);
    }
    ordered
}

/// Reconstructs the path of every final beam of every row of a batch, rows
/// and beams in parallel, and writes the paths into `ordered_beam_branch`:
/// row after row, beam after beam, `max_t` entries each.
pub fn order_beam_branch(
    final_branch: &[i32],
    beam_branch: &[i32],
    beam_width: i32,
    max_t: i32,
    ordered_beam_branch: &mut [i32],
)
    requires
        branches_of(final_branch@, beam_branch@, beam_width, max_t).wf(),
        old(ordered_beam_branch)@.len() == branches_of(
            final_branch@,
            beam_branch@,
            beam_width,
            max_t,
        ).rows() * (beam_width * max_t),
    ensures
        final(ordered_beam_branch)@ == branches_of(
            final_branch@,
            beam_branch@,
            beam_width,
            max_t,
        ).ordered(),
{
    let ghost branches = branches_of(final_branch@, beam_branch@, beam_width, max_t);
    let ghost by_row = Seq::new(branches.rows() as nat, |b: int| branches.ordered_row(b));
    let width: usize = beam_width as usize;
    let rows: usize = final_branch.len() / width;
    let mut ordered: Vec<i32> = Vec::new();
    if rows > 0 {
        let total: usize = beam_branch.len();
        assert(0 <= max_t * beam_width <= rows * (max_t * beam_width)) by (nonlinear_arith)
            requires
                1 <= rows,
                0 <= max_t,
                0 <= beam_width,
        ;
        let stride: usize = max_t as usize * width;
        let final_rows = BatchView::new(final_branch, width, rows);
        let history_rows = BatchView::new(beam_branch, stride, rows);
        let order = |b: usize| -> (ordered: Vec<i32>)
            requires
                b < rows,
            ensures
                ordered@ == branches_of(
                    final_branch@,
                    beam_branch@,
                    beam_width,
                    max_t,
                ).ordered_row(b as int),
            {
                assert(branches_of(final_branch@, beam_branch@, beam_width, max_t).row_valid(
                    b as int,
                ));
                order_row(final_rows.batch(b), history_rows.batch(b), beam_width, max_t)
            };
        let ordered_rows: Vec<Vec<i32>> = par_map_range(rows, order);
        ordered = gather(&ordered_rows);
        proof {
            assert(ordered_rows@.map_values(|part: Vec<i32>| part@) =~= by_row);
        }
    } else {
        assert(by_row =~= Seq::<Seq<i32>>::empty());
    }
    proof {
        let stride = (beam_width * max_t) as nat;
        assert forall|b: int| 0 <= b < by_row.len() implies (#[trigger] by_row[b]).len()
            == stride by {
            lemma_row_bounds(branches.rows(), beam_width as int, b);
            let by_beam = Seq::new(
                branches.finals_of(b).len(),
                |w: int|
                    best_branches(
                        branches.finals_of(b)[w] as int,
                        branches.history_of(b),
                        beam_width as int,
                        max_t as int,
                    ),
            );
            lemma_flatten_uniform_len(by_beam, max_t as nat);
        }
        lemma_flatten_uniform_len(by_row, stride);
    }
    copy_into(ordered_beam_branch, &ordered);
}

/// The source frame of every output frame: frame 0 as often as its
/// duration says, then frame 1 as often as its duration says, and so on.
pub open spec fn upsampled(duration: Seq<i32>) -> Seq<i32>
    decreases duration.len(),
{
    if duration.len() == 0 {
        Seq::empty()
    } else {
        upsampled(duration.drop_last()) + Seq::new(
            duration.last() as nat,
            |j: int| (duration.len() - 1) as i32,
        )
    }
}

/// Whether no duration is negative and the durations add up to
/// `output_length`.
pub open spec fn durations_fill(duration: Seq<i32>, output_length: int) -> bool {
    &&& forall|t: int| 0 <= t < duration.len() ==> 0 <= #[trigger] duration[t]
    &&& upsampled(duration).len() == output_length
}

/// `row` with its first `count` entries taken from `values`, as far as both
/// reach.
pub open spec fn overwritten(row: Seq<i32>, values: Seq<i32>, count: int) -> Seq<i32> {
    Seq::new(
        row.len(),
        |j: int|
            if j < count && j < values.len() {
                values[j]
            } else {
                row[j]
            },
    )
}

/// Whether no duration is negative and the durations add up to
/// `output_length`, so that the source frames they give fill the output.
pub fn durations_add_up(duration: &[i32], output_length: i32) -> (fills: bool)
    requires
        duration@.len() <= i32::MAX,
    ensures
        fills == durations_fill(duration@, output_length as int),
{
    let mut sum: i64 = 0;
    let mut t: usize = 0;
    assert(duration@.take(0) =~= Seq::<i32>::empty());
    while t < duration.len()
        invariant
            t <= duration.len(),
            duration@.len() <= i32::MAX,
            forall|k: int| 0 <= k < t ==> 0 <= #[trigger] duration@[k],
            sum == upsampled(duration@.take(t as int)).len(),
            0 <= sum <= t * 0x7fff_ffff,
        decreases duration.len() - t,
    {
        let d: i32 = duration[t];
        if d < 0 {
            return false;
        }
        proof {
            assert(duration@.take(t + 1).drop_last() =~= duration@.take(t as int));
            assert(duration@.take(t + 1).last() == d);
        }
        sum = sum + d as i64;
        t += 1;
    }
    assert(duration@.take(duration.len() as int) =~= duration@);
    sum == output_length as i64
}

/// Lists the source frame of every output frame of one beam.
fn upsample(duration: &[i32]) -> (frames: Vec<i32>)
    requires
        duration@.len() <= i32::MAX,
        forall|t: int| 0 <= t < duration@.len() ==> 0 <= #[trigger] duration@[t],
        upsampled(duration@).len() <= i32::MAX,
    ensures
        frames@ == upsampled(duration@),
{
    let mut frames: Vec<i32> = Vec::new();
    let mut t: usize = 0;
    assert(duration@.take(0) =~= Seq::<i32>::empty());
    while t < duration.len()
        invariant
            t <= duration.len(),
            duration@.len() <= i32::MAX,
            forall|k: int| 0 <= k < duration@.len() ==> 0 <= #[trigger] duration@[k],
            upsampled(duration@).len() <= i32::MAX,
            frames@ == upsampled(duration@.take(t as int)),
        decreases duration.len() - t,
    {
        let d: i32 = duration[t];
        let ghost before = frames@;
        let mut j: i32 = 0;
        while j < d
            invariant
                0 <= j <= d,
                t < duration.len(),
                duration@.len() <= i32::MAX,
                frames@ == before + Seq::new(j as nat, |k: int| t as i32),
            decreases d - j,
        {
            frames.push(t as i32);
            assert(frames@ =~= before + Seq::new((j + 1) as nat, |k: int| t as i32));
            j += 1;
        }
        proof {
            assert(duration@.take(t + 1).drop_last() =~= duration@.take(t as int));
            assert(duration@.take(t + 1).last() == d);
            assert(Seq::new(d as nat, |k: int| t as i32) =~= Seq::new(
                d as nat,
                |k: int| (duration@.take(t + 1).len() - 1) as i32,
            ));
        }
        t += 1;
    }
    assert(duration@.take(duration.len() as int) =~= duration@);
    frames
}

/// Copies `row` with its first `count` entries taken from `values`.
fn overwrite(row: &[i32], values: &Vec<i32>, count: i32) -> (out: Vec<i32>)
    ensures
        out@ == overwritten(row@, values@, count as int),
{
    let mut out: Vec<i32> = Vec::with_capacity(row.len());
    let mut j: usize = 0;
    while j < row.len()
        invariant
            j <= row.len(),
            out.len() == j,
            forall|k: int| 0 <= k < j ==> out[k] == overwritten(row@, values@, count as int)[k],
        decreases row.len() - j,
    {
        if count > 0 && j < count as usize && j < values.len() {
            out.push(values[j]);
        } else {
            out.push(row[j]);
        }
        j += 1;
    }
    assert(out@ =~= overwritten(row@, values@, count as int));
    out
}

/// The durations, the output lengths and the output buffer of a batch: per
/// row one output length, `beam_width` beams of `max_t` durations, and
/// `beam_width` beams of `max_u` output entries.
pub struct Upsampling {
    pub duration: Seq<i32>,
    pub output_length: Seq<i32>,
    pub buffer: Seq<i32>,
    pub beam_width: int,
    pub max_t: int,
    pub max_u: int,
}

impl Upsampling {
    /// The number of rows.
    pub open spec fn rows(self) -> int {
        self.output_length.len() as int
    }

    /// The durations of the beams of row `b`.
    pub open spec fn durations_of(self, b: int) -> Seq<i32> {
        row_of(self.duration, self.beam_width * self.max_t, b)
    }

    /// The output entries of the beams of row `b` as they are.
    pub open spec fn buffer_of(self, b: int) -> Seq<i32> {
        row_of(self.buffer, self.beam_width * self.max_u, b)
    }

    /// Whether the durations of every beam of row `b` fill the output length
    /// of the row.
    pub open spec fn row_fills(self, b: int) -> bool {
        beams_fill(self.durations_of(b), self.output_length[b] as int, self.beam_width, self.max_t)
    }

    /// The buffers have the shape that the beam width and the two lengths ask
    /// for, and the durations of every beam fill the output length of its
    /// row.
    pub open spec fn wf(self) -> bool {
        &&& 0 <= self.beam_width <= i32::MAX
        &&& 0 <= self.max_t <= i32::MAX
        &&& 0 <= self.max_u <= i32::MAX
        &&& self.duration.len() == self.rows() * (self.beam_width * self.max_t)
        &&& self.buffer.len() == self.rows() * (self.beam_width * self.max_u)
        &&& forall|b: int| 0 <= b < self.rows() ==> #[trigger] self.row_fills(b)
    }

    /// The output entries of the beams of row `b` once they are written.
    pub open spec fn written_row(self, b: int) -> Seq<i32> {
        written_beams(
            self.durations_of(b),
            self.buffer_of(b),
            self.output_length[b] as int,
            self.beam_width,
            self.max_t,
            self.max_u,
        )
    }

    /// The output buffer once it is written.
    pub open spec fn written(self) -> Seq<i32> {
        Seq::new(self.rows() as nat, |b: int| self.written_row(b)).flatten()
    }
}

/// Whether the durations of every beam of a row fill `output_length`.
pub open spec fn beams_fill(
    duration: Seq<i32>,
    output_length: int,
    beam_width: int,
    max_t: int,
) -> bool {
    forall|w: int|
        0 <= w < beam_width ==> durations_fill(#[trigger] row_of(duration, max_t, w), output_length)
}

/// The output entries of the beams of a row once they are written: of every
/// beam the first `output_length` entries hold the source frames that its
/// durations give, and the others are as they were.
pub open spec fn written_beams(
    duration: Seq<i32>,
    buffer: Seq<i32>,
    output_length: int,
    beam_width: int,
    max_t: int,
    max_u: int,
) -> Seq<i32> {
    Seq::new(
        beam_width as nat,
        |w: int|
            overwritten(row_of(buffer, max_u, w), upsampled(row_of(duration, max_t, w)), output_length),
    ).flatten()
}

/// The batch that the flat buffers describe.
pub open spec fn upsampling_of(
    duration: Seq<i32>,
    output_length: Seq<i32>,
    buffer: Seq<i32>,
    beam_width: i32,
    max_t: i32,
    max_u: i32,
) -> Upsampling {
    Upsampling {
        duration,
        output_length,
        buffer,
        beam_width: beam_width as int,
        max_t: max_t as int,
        max_u: max_u as int,
    }
}

/// Writes the source frames of every beam of one row, the beams in
/// parallel.
fn upsample_row(
    duration: &[i32],
    buffer: &[i32],
    output_length: i32,
    beam_width: i32,
    max_t: i32,
    max_u: i32,
) -> (written: Vec<i32>)
    requires
        0 <= beam_width,
        0 <= max_t,
        0 <= max_u,
        duration@.len() == beam_width * max_t,
        buffer@.len() == beam_width * max_u,
        beams_fill(duration@, output_length as int, beam_width as int, max_t as int),
    ensures
        written@ == written_beams(
            duration@,
            buffer@,
            output_length as int,
            beam_width as int,
            max_t as int,
            max_u as int,
        ),
        written@.len() == beam_width * max_u,
{
    let beams: usize = beam_width as usize;
    let duration_rows = BatchView::new(duration, max_t as usize, beams);
    let buffer_rows = BatchView::new(buffer, max_u as usize, beams);
    let write = |w: usize| -> (row: Vec<i32>)
        requires
            w < beams,
        ensures
            row@ == overwritten(
                row_of(buffer@, max_u as int, w as int),
                upsampled(row_of(duration@, max_t as int, w as int)),
                output_length as int,
            ),
        {
            assert(durations_fill(
                row_of(duration@, max_t as int, w as int),
                output_length as int,
            ));
            let frames: Vec<i32> = upsample(duration_rows.batch(w));
            overwrite(buffer_rows.batch(w), &frames, output_length)
        };
    let rows: Vec<Vec<i32>> = par_map_range(beams, write);
    let written = gather(&rows);
    proof {
        let by_beam = Seq::new(
            beam_width as nat,
            |w: int|
                overwritten(
                    row_of(buffer@, max_u as int, w),
                    upsampled(row_of(duration@, max_t as int, w)),
                    output_length as int,
                ),
        );
        assert(rows@.map_values(|part: Vec<i32>| part@) =~= by_beam);
        assert forall|w: int| 0 <= w < by_beam.len() implies (#[trigger] by_beam[w]).len()
            == max_u by {
            lemma_row_bounds(beam_width as int, max_u as int, w);
        }
        lemma_flatten_uniform_len(by_beam, max_u as nat);
    }
    written
}

/// Writes for every beam of every row the source frame of each output frame
/// into the first `output_length` entries of its slice of
/// `upsampled_source_indexes`, rows and beams in parallel. What follows in
/// the slice stays as it is.
pub fn upsample_source_indexes(
    duration: &[i32],
    output_length: &[i32],
    beam_width: i32,
    max_t: i32,
    max_u: i32,
    upsampled_source_indexes: &mut [i32],
)
    requires
        upsampling_of(
            duration@,
            output_length@,
            old(upsampled_source_indexes)@,
            beam_width,
            max_t,
            max_u,
        ).wf(),
    ensures
        final(upsampled_source_indexes)@ == upsampling_of(
            duration@,
            output_length@,
            old(upsampled_source_indexes)@,
            beam_width,
            max_t,
            max_u,
        ).written(),
{
    let ghost batch = upsampling_of(
        duration@,
        output_length@,
        upsampled_source_indexes@,
        beam_width,
        max_t,
        max_u,
    );
    let ghost by_row = Seq::new(batch.rows() as nat, |b: int| batch.written_row(b));
    let rows: usize = output_length.len();
    let buffer: Vec<i32> = slice_to_vec(upsampled_source_indexes);
    let mut written: Vec<i32> = Vec::new();
    if rows > 0 {
        let total: usize = duration.len();
        let size: usize = buffer.len();
        assert(0 <= beam_width * max_t <= rows * (beam_width * max_t)) by (nonlinear_arith)
            requires
                1 <= rows,
                0 <= max_t,
                0 <= beam_width,
        ;
        assert(0 <= beam_width * max_u <= rows * (beam_width * max_u)) by (nonlinear_arith)
            requires
                1 <= rows,
                0 <= max_u,
                0 <= beam_width,
        ;
        let duration_rows = BatchView::new(duration, beam_width as usize * max_t as usize, rows);
        let buffer_rows = BatchView::new(buffer.as_slice(), beam_width as usize * max_u as usize, rows);
        let write = |b: usize| -> (row: Vec<i32>)
            requires
                b < rows,
            ensures
                row@ == upsampling_of(
                    duration@,
                    output_length@,
                    buffer@,
                    beam_width,
                    max_t,
                    max_u,
                ).written_row(b as int),
            {
                assert(upsampling_of(
                    duration@,
                    output_length@,
                    buffer@,
                    beam_width,
                    max_t,
                    max_u,
                ).row_fills(b as int));
                upsample_row(
                    duration_rows.batch(b),
                    buffer_rows.batch(b),
                    output_length[b],
                    beam_width,
                    max_t,
                    max_u,
                )
            };
        let written_rows: Vec<Vec<i32>> = par_map_range(rows, write);
        written = gather(&written_rows);
        proof {
            assert(written_rows@.map_values(|part: Vec<i32>| part@) =~= by_row);
        }
    } else {
        assert(by_row =~= Seq::<Seq<i32>>::empty());
    }
    proof {
        let stride = (beam_width * max_u) as nat;
        assert forall|b: int| 0 <= b < by_row.len() implies (#[trigger] by_row[b]).len()
            == stride by {
            let by_beam = Seq::new(
                beam_width as nat,
                |w: int|
                    overwritten(
                        row_of(batch.buffer_of(b), max_u as int, w),
                        upsampled(row_of(batch.durations_of(b), max_t as int, w)),
                        batch.output_length[b] as int,
                    ),
            );
            lemma_row_bounds(batch.rows(), beam_width * max_u, b);
            assert forall|w: int| 0 <= w < by_beam.len() implies (#[trigger] by_beam[w]).len()
                == max_u by {
                lemma_row_bounds(beam_width as int, max_u as int, w);
            }
            lemma_flatten_uniform_len(by_beam, max_u as nat);
        }
        lemma_flatten_uniform_len(by_row, stride);
    }
    copy_into(upsampled_source_indexes, &written);
}

} // verus!
