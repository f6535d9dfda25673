//! The transition beam expander: at every step a beam either emits an output
//! unit at its input frame or shifts to the next input frame.
use crate::batch::lemma_positions_of_row;
use crate::batch::non_negative;
use crate::batch::lemma_row_bounds;
use crate::batch::positions;
use crate::batch::row_of;
use crate::batch::to_positions;
use crate::batch::BatchView;
use crate::parallel::par_map_range;
use crate::rank::all_of;
use crate::rank::gather;
use crate::rank::lemma_flatten_all;
use crate::rank::lemma_flatten_uniform_len;
use crate::rank::lemma_reduced_all;
use crate::rank::reduce;
use crate::rank::reduced;
use crate::rank::Candidate;
use vstd::prelude::*;

verus! {

/// The two moves of a beam.
#[derive(Debug, PartialEq, Eq, Structural, Copy, Clone)]
pub enum Transition {
    /// Stay at the input frame and advance the output index.
    Emit,
    /// Advance the input frame and the output index.
    Shift,
}

impl Transition {
    /// The class id that stands for the move in flat buffers.
    pub open spec fn id(self) -> i32 {
        match self {
            Transition::Emit => 0,
            Transition::Shift => 1,
        }
    }

    /// The class id that stands for the move in flat buffers.
    pub fn class_id(self) -> (id: i32)
        ensures
            id == self.id(),
    {
        match self {
            Transition::Emit => 0,
            Transition::Shift => 1,
        }
    }
}

/// What a decoding table holds: for every beam of one row the cumulative
/// score of each of its two moves, the score it has reached so far, and
/// whether it is finished.
///
/// A score is an integer key: of two scores the larger is the better one.
/// `input[2 * w]` is the score that beam `w` has after Emit, `input[2 * w + 1]`
/// the score it has after Shift.
pub struct DecodingRow {
    pub input: Seq<i32>,
    pub log_prob_history: Seq<i32>,
    pub is_finished: Seq<bool>,
    pub transition_size: usize,
    pub input_length: usize,
    pub beam_width: usize,
    pub max_beam_width: usize,
}

impl DecodingRow {
    /// There are two moves, and the buffers have the shape that the beam width
    /// asks for.
    pub open spec fn wf(self) -> bool {
        &&& self.transition_size == 2
        &&& self.input.len() == self.beam_width * 2
        &&& self.log_prob_history.len() == self.beam_width
        &&& self.is_finished.len() == self.beam_width
    }

    /// Whether `t` is a frame of the input.
    pub open spec fn defined_at(self, t: usize) -> bool {
        t < self.input_length
    }

    /// The moves open to beam `w` at frame `t` with the score each leads to,
    /// or `None` where the beam has no successor: past the input, or finished.
    pub open spec fn branches(self, w: int, t: usize) -> Option<Seq<(Transition, i32)>> {
        if !self.defined_at(t) || self.is_finished[w] {
            None
        } else {
            Some(
                seq![
                    (Transition::Emit, self.input[2 * w]),
                    (Transition::Shift, self.input[2 * w + 1]),
                ],
            )
        }
    }
}

/// A read-only window over the buffers of one row.
pub struct BeamSearchDecodingTable<'a> {
    pub input: &'a [i32],
    pub log_prob_history: &'a [i32],
    pub is_finished: &'a [bool],
    pub transition_size: usize,
    pub input_length: usize,
    pub beam_width: usize,
    pub max_beam_width: usize,
}

impl<'a> View for BeamSearchDecodingTable<'a> {
    type V = DecodingRow;

    open spec fn view(&self) -> DecodingRow {
        DecodingRow {
            input: self.input@,
            log_prob_history: self.log_prob_history@,
            is_finished: self.is_finished@,
            transition_size: self.transition_size,
            input_length: self.input_length,
            beam_width: self.beam_width,
            max_beam_width: self.max_beam_width,
        }
    }
}

impl<'a> BeamSearchDecodingTable<'a> {
    /// The buffers have the shape that the view asks for.
    pub open spec fn wf(&self) -> bool {
        self@.wf()
    }

    /// Binds the buffers of one row.
    pub fn new(
        input: &'a [i32],
        log_prob_history: &'a [i32],
        is_finished: &'a [bool],
        input_length: usize,
        beam_width: usize,
        max_beam_width: usize,
    ) -> (table: BeamSearchDecodingTable<'a>)
        requires
            input@.len() == beam_width * 2,
            log_prob_history@.len() == beam_width,
            is_finished@.len() == beam_width,
        ensures
            table.wf(),
            table@ == (DecodingRow {
                input: input@,
                log_prob_history: log_prob_history@,
                is_finished: is_finished@,
                transition_size: 2,
                input_length,
                beam_width,
                max_beam_width,
            }),
    {
        BeamSearchDecodingTable {
            input,
            log_prob_history,
            is_finished,
            transition_size: 2,
            input_length,
            beam_width,
            max_beam_width,
        }
    }

    /// The scores of the two moves of beam `w`.
    pub fn beam_branch(&self, w: usize) -> (branch: &'a [i32])
        requires
            self.wf(),
            w < self.beam_width,
        ensures
            branch@ == self.input@.subrange(2 * w, 2 * w + 2),
    {
        let size: usize = self.transition_size;
        assert(w * 2 + 2 <= self.input.len());
        let start: usize = w * size;
        &self.input[start..start + size]
    }

    /// Whether `t` is a frame of the input.
    pub fn is_defined_at(&self, t: usize) -> (defined: bool)
        ensures
            defined == self@.defined_at(t),
    {
        t < self.input_length
    }

    /// Lists the moves of beam `w` at frame `t`, or returns `None` where the
    /// beam has no successor.
    pub fn decode_beam_at(&self, w: usize, t: usize, _u: usize) -> (moves: Option<
        Vec<(Transition, i32)>,
    >)
        requires
            self.wf(),
            w < self.beam_width,
        ensures
            moves is Some <==> self@.branches(w as int, t) is Some,
            moves is Some ==> moves->0@ == self@.branches(w as int, t)->0,
    {
        if !self.is_defined_at(t) {
            return None;
        }
        if self.is_finished[w] {
            return None;
        }
        let branch = self.beam_branch(w);
        let mut moves: Vec<(Transition, i32)> = Vec::with_capacity(2);
        moves.push((Transition::Emit, branch[0]));
        moves.push((Transition::Shift, branch[1]));
        assert(moves@ =~= self@.branches(w as int, t)->0);
        Some(moves)
    }
}

/// A successor that a beam proposes for the next step.
#[derive(Debug, PartialEq, Eq, Structural, Copy, Clone)]
pub struct DecodeResult {
    pub prediction: i32,
    pub log_prob: i32,
    pub next_t: usize,
    pub next_u: usize,
    pub is_finished: bool,
    pub parent_branch: usize,
}

impl Candidate for DecodeResult {
    type Outcome = (i32, i32, usize, usize, bool);

    open spec fn score(&self) -> i32 {
        self.log_prob
    }

    open spec fn outcome(&self) -> (i32, i32, usize, usize, bool) {
        (self.prediction, self.log_prob, self.next_t, self.next_u, self.is_finished)
    }

    fn rank_key(&self) -> (key: i32) {
        self.log_prob
    }

    fn eq_ignore_parent(&self, other: &DecodeResult) -> (same: bool) {
        self.prediction == other.prediction && self.log_prob == other.log_prob && self.next_t
            == other.next_t && self.next_u == other.next_u && self.is_finished == other.is_finished
    }
}

/// The candidate that carries a beam without successor forward: its state
/// as it is, marked finished.
pub open spec fn pass_through(w: usize, t: usize, u: usize, log_prob_history: i32) -> DecodeResult {
    DecodeResult {
        prediction: Transition::Emit.id(),
        log_prob: log_prob_history,
        next_t: t,
        next_u: u,
        is_finished: true,
        parent_branch: w,
    }
}

/// The successor of beam `w`, at frame `t` and output index `u`, for the move
/// `prediction` that leads to the score `log_prob`, in an input of
/// `input_length` frames. `emit_score` is the score that Emit leads the beam
/// to.
///
/// At the last frame Emit finishes the beam where it stands. Shift is not open
/// there: it becomes an Emit that finishes the beam, and it has the score of
/// Emit; the score of Shift is not used. At any other frame Emit advances the
/// output index, and Shift the frame too.
pub open spec fn successor(
    input_length: usize,
    w: usize,
    t: usize,
    u: usize,
    emit_score: i32,
    prediction: Transition,
    log_prob: i32,
) -> DecodeResult {
    if t + 1 == input_length {
        DecodeResult {
            prediction: Transition::Emit.id(),
            log_prob: if prediction == Transition::Emit {
                log_prob
            } else {
                emit_score
            },
            next_t: t,
            next_u: u,
            is_finished: true,
            parent_branch: w,
        }
    } else {
        DecodeResult {
            prediction: prediction.id(),
            log_prob,
            next_t: if prediction == Transition::Shift {
                (t + 1) as usize
            } else {
                t
            },
            next_u: (u + 1) as usize,
            is_finished: false,
            parent_branch: w,
        }
    }
}

/// All that beam `w` proposes: one pass-through candidate where it has no
/// successor, else one successor for Emit and one for Shift, in this order.
pub open spec fn successors(
    input_length: usize,
    h: DecodingRow,
    w: usize,
    t: usize,
    u: usize,
    log_prob_history: i32,
) -> Seq<DecodeResult> {
    match h.branches(w as int, t) {
        None => seq![pass_through(w, t, u, log_prob_history)],
        Some(moves) => moves.map_values(
            |m: (Transition, i32)| successor(input_length, w, t, u, h.input[2 * w], m.0, m.1),
        ),
    }
}

/// Whether beam `w` moves on from frame `t`: it has successors, and `t` is
/// not the last frame, so that its output index is advanced.
pub open spec fn advances(input_length: usize, h: DecodingRow, w: int, t: usize) -> bool {
    h.branches(w, t) is Some && t + 1 != input_length
}

/// The Emit that finishes beam `w` at frame `t` and output index `u`, with the
/// score that Emit leads the beam to.
pub open spec fn emit_finish(h: DecodingRow, w: usize, t: usize, u: usize) -> DecodeResult {
    DecodeResult {
        prediction: Transition::Emit.id(),
        log_prob: h.input[2 * w],
        next_t: t,
        next_u: u,
        is_finished: true,
        parent_branch: w,
    }
}

/// The candidates of a row: what beam 0 proposes, then beam 1, and so on.
pub open spec fn row_candidates(
    input_length: usize,
    h: DecodingRow,
    start_t: Seq<usize>,
    u: Seq<usize>,
) -> Seq<DecodeResult> {
    Seq::new(
        h.beam_width as nat,
        |w: int| successors(input_length, h, w as usize, start_t[w], u[w], h.log_prob_history[w]),
    ).flatten()
}

/// Whether a row can be searched: the per-beam positions have the width of
/// the table, the output index of no beam that moves on is at the end of its
/// range, and there is a beam to fill the output from.
pub open spec fn row_ready(
    input_length: usize,
    h: DecodingRow,
    start_t: Seq<usize>,
    u: Seq<usize>,
) -> bool {
    &&& h.wf()
    &&& start_t.len() == h.beam_width
    &&& u.len() == h.beam_width
    &&& forall|w: int|
        0 <= w < u.len() && advances(input_length, h, w, start_t[w]) ==> #[trigger] u[w]
            < usize::MAX
    &&& (h.beam_width > 0 || h.max_beam_width == 0)
}

/// The inputs of one step for a whole batch, row after row in flat buffers.
pub struct DecodingBatch {
    pub h: Seq<i32>,
    pub log_prob_history: Seq<i32>,
    pub is_finished: Seq<bool>,
    pub t: Seq<i32>,
    pub u: Seq<i32>,
    pub batch_size: int,
    pub beam_width: int,
    pub max_beam_width: int,
}

impl DecodingBatch {
    /// The buffers have the shape that the batch size and the beam width ask
    /// for, no position is negative, every beam that moves on has room to,
    /// and there is a beam to fill the output from.
    pub open spec fn wf(self, input_length: usize) -> bool {
        &&& 0 <= self.batch_size <= i32::MAX
        &&& 0 <= self.beam_width <= i32::MAX
        &&& 0 <= self.max_beam_width <= i32::MAX
        &&& self.h.len() == self.batch_size * (self.beam_width * 2)
        &&& self.log_prob_history.len() == self.batch_size * self.beam_width
        &&& self.is_finished.len() == self.batch_size * self.beam_width
        &&& self.t.len() == self.batch_size * self.beam_width
        &&& self.u.len() == self.batch_size * self.beam_width
        &&& non_negative(self.t)
        &&& non_negative(self.u)
        &&& forall|b: int|
            0 <= b < self.batch_size ==> #[trigger] self.room_to_advance(input_length, b)
        &&& (self.beam_width > 0 || self.max_beam_width == 0)
    }

    /// Whether every beam of row `b` that moves on can have its frame and its
    /// output index advanced by one and written back as signed integers.
    pub open spec fn room_to_advance(self, input_length: usize, b: int) -> bool {
        forall|w: int|
            0 <= w < self.beam_width && advances(
                input_length,
                self.row(input_length, b),
                w,
                self.start_t(b)[w],
            ) ==> (#[trigger] self.start_u(b)[w]) < i32::MAX && self.start_t(b)[w] < i32::MAX
    }

    /// The table of row `b`, for an input of `input_length` frames.
    pub open spec fn row(self, input_length: usize, b: int) -> DecodingRow {
        DecodingRow {
            input: row_of(self.h, self.beam_width * 2, b),
            log_prob_history: row_of(self.log_prob_history, self.beam_width, b),
            is_finished: row_of(self.is_finished, self.beam_width, b),
            transition_size: 2,
            input_length,
            beam_width: self.beam_width as usize,
            max_beam_width: self.max_beam_width as usize,
        }
    }

    /// The frame that each beam of row `b` stands at.
    pub open spec fn start_t(self, b: int) -> Seq<usize> {
        positions(row_of(self.t, self.beam_width, b))
    }

    /// The output index that each beam of row `b` stands at.
    pub open spec fn start_u(self, b: int) -> Seq<usize> {
        positions(row_of(self.u, self.beam_width, b))
    }

    /// What row `b` keeps after one step.
    pub open spec fn decoded_row(self, input_length: usize, b: int) -> Seq<DecodeResult> {
        reduced(
            row_candidates(input_length, self.row(input_length, b), self.start_t(b), self.start_u(b)),
            self.max_beam_width as nat,
        )
    }

    /// What the rows keep after one step, row after row.
    pub open spec fn decoded(self, input_length: usize) -> Seq<DecodeResult> {
        Seq::new(self.batch_size as nat, |b: int| self.decoded_row(input_length, b)).flatten()
    }
}

/// The class ids of `results`, entry by entry.
pub open spec fn predictions(results: Seq<DecodeResult>) -> Seq<i32> {
    Seq::new(results.len(), |i: int| results[i].prediction)
}

/// The scores of `results`, entry by entry.
pub open spec fn scores_of(results: Seq<DecodeResult>) -> Seq<i32> {
    Seq::new(results.len(), |i: int| results[i].log_prob)
}

/// The next frames of `results`, entry by entry.
pub open spec fn next_frames(results: Seq<DecodeResult>) -> Seq<i32> {
    Seq::new(results.len(), |i: int| results[i].next_t as i32)
}

/// The next output indices of `results`, entry by entry.
pub open spec fn next_outputs(results: Seq<DecodeResult>) -> Seq<i32> {
    Seq::new(results.len(), |i: int| results[i].next_u as i32)
}

/// The finished flags of `results`, entry by entry.
pub open spec fn finished_flags(results: Seq<DecodeResult>) -> Seq<bool> {
    Seq::new(results.len(), |i: int| results[i].is_finished)
}

/// The beams that `results` came from, entry by entry.
pub open spec fn parent_branches(results: Seq<DecodeResult>) -> Seq<i32> {
    Seq::new(results.len(), |i: int| results[i].parent_branch as i32)
}

/// Whether the output buffers hold `results` column by column: each buffer
/// one field of every result, in the order of the results.
pub open spec fn decode_writes(
    results: Seq<DecodeResult>,
    prediction: Seq<i32>,
    log_probs: Seq<i32>,
    next_t: Seq<i32>,
    next_u: Seq<i32>,
    next_is_finished: Seq<bool>,
    beam_branch: Seq<i32>,
) -> bool {
    &&& prediction == predictions(results)
    &&& log_probs == scores_of(results)
    &&& next_t == next_frames(results)
    &&& next_u == next_outputs(results)
    &&& next_is_finished == finished_flags(results)
    &&& beam_branch == parent_branches(results)
}

/// The test that the positions and the parent of a candidate can be written
/// as signed integers without loss.
pub open spec fn fits_buffers() -> spec_fn(DecodeResult) -> bool {
    |c: DecodeResult| c.next_t <= i32::MAX && c.next_u <= i32::MAX && c.parent_branch <= i32::MAX
}

/// The test that a candidate stands at a frame of an input of `input_length`
/// frames.
pub open spec fn within_input(input_length: usize) -> spec_fn(DecodeResult) -> bool {
    |c: DecodeResult| c.next_t < input_length
}

/// The test that a candidate ends its beam with an Emit at frame `t`.
pub open spec fn finishes_at(t: usize) -> spec_fn(DecodeResult) -> bool {
    |c: DecodeResult| c.is_finished && c.prediction == Transition::Emit.id() && c.next_t == t
}

/// The batch that the flat buffers of one step describe.
pub open spec fn batch_of(
    h: Seq<i32>,
    log_prob_history: Seq<i32>,
    is_finished: Seq<bool>,
    t: Seq<i32>,
    u: Seq<i32>,
    batch_size: int,
    beam_width: i32,
    max_beam_width: i32,
) -> DecodingBatch {
    DecodingBatch {
        h,
        log_prob_history,
        is_finished,
        t,
        u,
        batch_size,
        beam_width: beam_width as int,
        max_beam_width: max_beam_width as int,
    }
}

/// Decoder settings of the transition expander.
pub struct SsntTtsCpu {
    pub batch_size: i32,
    pub input_length: usize,
    pub max_u: usize,
    pub transition_size: usize,
}

impl SsntTtsCpu {
    /// A decoder for `batch_size` rows whose inputs are `input_length` frames
    /// long.
    pub fn new(batch_size: i32, input_length: usize, max_u: usize) -> (cpu: SsntTtsCpu)
        ensures
            cpu.batch_size == batch_size,
            cpu.input_length == input_length,
            cpu.max_u == max_u,
            cpu.transition_size == 2,
    {
        SsntTtsCpu { batch_size, input_length, max_u, transition_size: 2 }
    }

    /// Builds the successor of beam `w` for one move.
    fn successor_of(
        &self,
        w: usize,
        t: usize,
        u: usize,
        emit_score: i32,
        prediction: Transition,
        log_prob: i32,
    ) -> (candidate: DecodeResult)
        requires
            t < usize::MAX,
            t + 1 != self.input_length ==> u < usize::MAX,
        ensures
            candidate == successor(
                self.input_length,
                w,
                t,
                u,
                emit_score,
                prediction,
                log_prob,
            ),
    {
        let at_last_frame: bool = t + 1 == self.input_length;
        if prediction == Transition::Emit && at_last_frame {
            DecodeResult {
                prediction: prediction.class_id(),
                log_prob,
                next_t: t,
                next_u: u,
                is_finished: true,
                parent_branch: w,
            }
        } else if prediction == Transition::Shift && at_last_frame {
            // Shift is not open at the last frame: the beam finishes with an
            // Emit, at the score of Emit.
            DecodeResult {
                prediction: Transition::Emit.class_id(),
                log_prob: emit_score,
                next_t: t,
                next_u: u,
                is_finished: true,
                parent_branch: w,
            }
        } else if prediction == Transition::Shift {
            DecodeResult {
                prediction: prediction.class_id(),
                log_prob,
                next_t: t + 1,
                next_u: u + 1,
                is_finished: false,
                parent_branch: w,
            }
        } else {
            DecodeResult {
                prediction: prediction.class_id(),
                log_prob,
                next_t: t,
                next_u: u + 1,
                is_finished: false,
                parent_branch: w,
            }
        }
    }
}

/// One ply of the transition beam search.
pub trait SsntTts {
    /// The number of input frames that the decoder takes a row to have.
    spec fn input_frames(&self) -> usize;

    /// The number of rows that the decoder takes a batch to have.
    spec fn rows(&self) -> int;

    /// Runs one step of the search on every row of a batch, the rows in
    /// parallel, and writes what each row keeps into its slice of the output
    /// buffers: row after row, `max_beam_width` entries each.
    fn beam_search_decode(
        &self,
        h: &[i32],
        log_prob_history: &[i32],
        is_finished: &[bool],
        t: &[i32],
        u: &[i32],
        beam_width: i32,
        max_beam_width: i32,
        prediction: &mut [i32],
        log_probs: &mut [i32],
        next_t: &mut [i32],
        next_u: &mut [i32],
        next_is_finished: &mut [bool],
        beam_branch: &mut [i32],
    )
        requires
            batch_of(
                h@,
                log_prob_history@,
                is_finished@,
                t@,
                u@,
                self.rows(),
                beam_width,
                max_beam_width,
            ).wf(self.input_frames()),
            old(prediction)@.len() == self.rows() * max_beam_width,
            old(log_probs)@.len() == self.rows() * max_beam_width,
            old(next_t)@.len() == self.rows() * max_beam_width,
            old(next_u)@.len() == self.rows() * max_beam_width,
            old(next_is_finished)@.len() == self.rows() * max_beam_width,
            old(beam_branch)@.len() == self.rows() * max_beam_width,
        ensures
            decode_writes(
                batch_of(
                    h@,
                    log_prob_history@,
                    is_finished@,
                    t@,
                    u@,
                    self.rows(),
                    beam_width,
                    max_beam_width,
                ).decoded(self.input_frames()),
                final(prediction)@,
                final(log_probs)@,
                final(next_t)@,
                final(next_u)@,
                final(next_is_finished)@,
                final(beam_branch)@,
            ),
    ;

    /// Ranks what the beams of one row propose and keeps `max_beam_width` of
    /// it.
    fn beam_search_kernel<'a>(
        &self,
        h: &BeamSearchDecodingTable<'a>,
        start_t: &[usize],
        u: &[usize],
    ) -> (results: Vec<DecodeResult>)
        requires
            h.wf(),
            row_ready(self.input_frames(), h@, start_t@, u@),
        ensures
            results@ == reduced(
                row_candidates(self.input_frames(), h@, start_t@, u@),
                h.max_beam_width as nat,
            ),
            results.len() == h.max_beam_width,
    ;

    /// Lists what beam `w` proposes at frame `t` and output index `u`.
    ///
    /// Whether the beam is finished is read from the table; `is_finished` is
    /// not consulted.
    fn beam_search_kernel_internal<'a>(
        &self,
        h: &BeamSearchDecodingTable<'a>,
        w: usize,
        t: usize,
        u: usize,
        log_prob_history: i32,
        is_finished: bool,
    ) -> (results: Vec<DecodeResult>)
        requires
            h.wf(),
            w < h.beam_width,
            advances(self.input_frames(), h@, w as int, t) ==> u < usize::MAX,
        ensures
            results@ == successors(self.input_frames(), h@, w, t, u, log_prob_history),
    ;
}

impl SsntTts for SsntTtsCpu {
    open spec fn input_frames(&self) -> usize {
        self.input_length
    }

    open spec fn rows(&self) -> int {
        self.batch_size as int
    }

    fn beam_search_decode(
        &self,
        h: &[i32],
        log_prob_history: &[i32],
        is_finished: &[bool],
        t: &[i32],
        u: &[i32],
        beam_width: i32,
        max_beam_width: i32,
        prediction: &mut [i32],
        log_probs: &mut [i32],
        next_t: &mut [i32],
        next_u: &mut [i32],
        next_is_finished: &mut [bool],
        beam_branch: &mut [i32],
    ) {
        let ghost batch = batch_of(
            h@,
            log_prob_history@,
            is_finished@,
            t@,
            u@,
            self.batch_size as int,
            beam_width,
            max_beam_width,
        );
        let rows: usize = self.batch_size as usize;
        let width: usize = beam_width as usize;
        let capacity: usize = max_beam_width as usize;
        let h_rows = BatchView::new(h, width * 2, rows);
        let history_rows = BatchView::new(log_prob_history, width, rows);
        let finished_rows = BatchView::new(is_finished, width, rows);
        let t_rows = BatchView::new(t, width, rows);
        let u_rows = BatchView::new(u, width, rows);
        let decode_row = |b: usize| -> (kept: Vec<DecodeResult>)
            requires
                b < rows,
            ensures
                kept@ == batch_of(
                    h@,
                    log_prob_history@,
                    is_finished@,
                    t@,
                    u@,
                    self.batch_size as int,
                    beam_width,
                    max_beam_width,
                ).decoded_row(self.input_length, b as int),
            {
                proof {
                    let batch = batch_of(
                        h@,
                        log_prob_history@,
                        is_finished@,
                        t@,
                        u@,
                        self.batch_size as int,
                        beam_width,
                        max_beam_width,
                    );
                    lemma_batch_row_ready(batch, self.input_length, b as int);
                    lemma_row_bounds(rows as int, width as int, b as int);
                }
                let table = BeamSearchDecodingTable::new(
                    h_rows.batch(b),
                    history_rows.batch(b),
                    finished_rows.batch(b),
                    self.input_length,
                    width,
                    capacity,
                );
                let start_t: Vec<usize> = to_positions(t_rows.batch(b));
                let start_u: Vec<usize> = to_positions(u_rows.batch(b));
                self.beam_search_kernel(&table, start_t.as_slice(), start_u.as_slice())
            };
        let kept: Vec<Vec<DecodeResult>> = par_map_range(rows, decode_row);
        let flat: Vec<DecodeResult> = gather(&kept);
        proof {
            let by_row = Seq::new(rows as nat, |b: int| batch.decoded_row(self.input_length, b));
            assert(kept@.map_values(|part: Vec<DecodeResult>| part@) =~= by_row);
            lemma_flatten_uniform_len(by_row, capacity as nat);
            assert forall|b: int| 0 <= b < by_row.len() implies all_of(
                #[trigger] by_row[b],
                fits_buffers(),
            ) by {
                lemma_batch_row_ready(batch, self.input_length, b);
                lemma_row_fits_buffers(
                    self.input_length,
                    batch.row(self.input_length, b),
                    batch.start_t(b),
                    batch.start_u(b),
                );
            }
            lemma_flatten_all(by_row, fits_buffers());
        }
        let mut k: usize = 0;
        while k < flat.len()
            invariant
                k <= flat.len(),
                all_of(flat@, fits_buffers()),
                prediction@.len() == flat.len(),
                log_probs@.len() == flat.len(),
                next_t@.len() == flat.len(),
                next_u@.len() == flat.len(),
                next_is_finished@.len() == flat.len(),
                beam_branch@.len() == flat.len(),
                forall|j: int| 0 <= j < k ==> prediction@[j] == flat[j].prediction,
                forall|j: int| 0 <= j < k ==> log_probs@[j] == flat[j].log_prob,
                forall|j: int| 0 <= j < k ==> next_t@[j] == flat[j].next_t as i32,
                forall|j: int| 0 <= j < k ==> next_u@[j] == flat[j].next_u as i32,
                forall|j: int| 0 <= j < k ==> next_is_finished@[j] == flat[j].is_finished,
                forall|j: int| 0 <= j < k ==> beam_branch@[j] == flat[j].parent_branch as i32,
            decreases flat.len() - k,
        {
            let result: DecodeResult = flat[k];
            assert(fits_buffers()(flat@[k as int]));
            prediction[k] = result.prediction;
            log_probs[k] = result.log_prob;
            next_t[k] = result.next_t as i32;
            next_u[k] = result.next_u as i32;
            beam_branch[k] = result.parent_branch as i32;
            next_is_finished[k] = result.is_finished;
            k += 1;
        }
        assert(prediction@ =~= predictions(flat@));
        assert(log_probs@ =~= scores_of(flat@));
        assert(next_t@ =~= next_frames(flat@));
        assert(next_u@ =~= next_outputs(flat@));
        assert(next_is_finished@ =~= finished_flags(flat@));
        assert(beam_branch@ =~= parent_branches(flat@));
    }

    fn beam_search_kernel<'a>(
        &self,
        h: &BeamSearchDecodingTable<'a>,
        start_t: &[usize],
        u: &[usize],
    ) -> (results: Vec<DecodeResult>) {
        let expand = |w: usize| -> (proposed: Vec<DecodeResult>)
            requires
                w < h.beam_width,
            ensures
                proposed@ == successors(
                    self.input_length,
                    h@,
                    w,
                    start_t@[w as int],
                    u@[w as int],
                    h.log_prob_history@[w as int],
                ),
            {
                self.beam_search_kernel_internal(
                    h,
                    w,
                    start_t[w],
                    u[w],
                    h.log_prob_history[w],
                    h.is_finished[w],
                )
            };
        let proposed: Vec<Vec<DecodeResult>> = par_map_range(h.beam_width, expand);
        let candidates: Vec<DecodeResult> = gather(&proposed);
        proof {
            let by_beam = Seq::new(
                h.beam_width as nat,
                |w: int|
                    successors(
                        self.input_length,
                        h@,
                        w as usize,
                        start_t@[w],
                        u@[w],
                        h.log_prob_history@[w],
                    ),
            );
            assert(proposed@.map_values(|part: Vec<DecodeResult>| part@) =~= by_beam);
            if h.beam_width > 0 {
                lemma_row_has_candidates(self.input_length, h@, start_t@, u@);
            }
        }
        reduce(&candidates, h.max_beam_width)
    }

    fn beam_search_kernel_internal<'a>(
        &self,
        h: &BeamSearchDecodingTable<'a>,
        w: usize,
        t: usize,
        u: usize,
        log_prob_history: i32,
        is_finished: bool,
    ) -> (results: Vec<DecodeResult>) {
        match h.decode_beam_at(w, t, u) {
            None => {
                let mut results: Vec<DecodeResult> = Vec::with_capacity(1);
                results.push(
                    DecodeResult {
                        prediction: Transition::Emit.class_id(),
                        log_prob: log_prob_history,
                        next_t: t,
                        next_u: u,
                        is_finished: true,
                        parent_branch: w,
                    },
                );
                assert(results@ =~= seq![pass_through(w, t, u, log_prob_history)]);
                results
            },
            Some(moves) => {
                let emit_score: i32 = moves[0].1;
                let mut results: Vec<DecodeResult> = Vec::with_capacity(moves.len());
                let mut i: usize = 0;
                while i < moves.len()
                    invariant
                        i <= moves.len(),
                        t < h.input_length,
                        t + 1 != self.input_length ==> u < usize::MAX,
                        results.len() == i,
                        forall|j: int|
                            0 <= j < i ==> results[j] == successor(
                                self.input_length,
                                w,
                                t,
                                u,
                                emit_score,
                                moves[j].0,
                                moves[j].1,
                            ),
                    decreases moves.len() - i,
                {
                    let (prediction, log_prob) = moves[i];
                    results.push(self.successor_of(w, t, u, emit_score, prediction, log_prob));
                    i += 1;
                }
                assert(results@ =~= successors(self.input_length, h@, w, t, u, log_prob_history));
                results
            },
        }
    }
}

/// What holds of everything that every beam proposes holds of every entry
/// that the row keeps.
pub proof fn lemma_row_all(
    input_length: usize,
    h: DecodingRow,
    start_t: Seq<usize>,
    u: Seq<usize>,
    p: spec_fn(DecodeResult) -> bool,
)
    requires
        h.beam_width > 0 || h.max_beam_width == 0,
        forall|w: int|
            0 <= w < h.beam_width ==> all_of(
                #[trigger] successors(
                    input_length,
                    h,
                    w as usize,
                    start_t[w],
                    u[w],
                    h.log_prob_history[w],
                ),
                p,
            ),
    ensures
        all_of(
            reduced(row_candidates(input_length, h, start_t, u), h.max_beam_width as nat),
            p,
        ),
{
    let by_beam = Seq::new(
        h.beam_width as nat,
        |w: int| successors(input_length, h, w as usize, start_t[w], u[w], h.log_prob_history[w]),
    );
    assert forall|w: int| 0 <= w < by_beam.len() implies all_of(#[trigger] by_beam[w], p) by {
        assert(all_of(
            successors(input_length, h, w as usize, start_t[w], u[w], h.log_prob_history[w]),
            p,
        ));
    }
    lemma_flatten_all(by_beam, p);
    if h.beam_width > 0 {
        lemma_row_has_candidates(input_length, h, start_t, u);
    }
    lemma_reduced_all(row_candidates(input_length, h, start_t, u), h.max_beam_width as nat, p);
}

/// Every row of a well-formed batch is ready to be searched, and its
/// positions are those of the buffers.
pub proof fn lemma_batch_row_ready(batch: DecodingBatch, input_length: usize, b: int)
    requires
        batch.wf(input_length),
        0 <= b < batch.batch_size,
    ensures
        row_ready(input_length, batch.row(input_length, b), batch.start_t(b), batch.start_u(b)),
        batch.row(input_length, b).beam_width == batch.beam_width,
        forall|w: int| 0 <= w < batch.beam_width ==> #[trigger] batch.start_t(b)[w] <= i32::MAX,
        forall|w: int| 0 <= w < batch.beam_width ==> #[trigger] batch.start_u(b)[w] <= i32::MAX,
        forall|w: int|
            0 <= w < batch.beam_width && advances(
                input_length,
                batch.row(input_length, b),
                w,
                batch.start_t(b)[w],
            ) ==> (#[trigger] batch.start_u(b)[w]) < i32::MAX && batch.start_t(b)[w] < i32::MAX,
{
    lemma_row_bounds(batch.batch_size, batch.beam_width, b);
    lemma_row_bounds(batch.batch_size, batch.beam_width * 2, b);
    assert(batch.room_to_advance(input_length, b));
    assert forall|w: int| 0 <= w < batch.beam_width implies #[trigger] batch.start_t(b)[w]
        <= i32::MAX by {
        lemma_positions_of_row(batch.t, batch.batch_size, batch.beam_width, b, w);
    }
    assert forall|w: int| 0 <= w < batch.beam_width implies #[trigger] batch.start_u(b)[w]
        <= i32::MAX by {
        lemma_positions_of_row(batch.u, batch.batch_size, batch.beam_width, b, w);
    }
}

/// Every entry that a row keeps can be written into buffers of signed
/// integers, where the positions it started from can, and every beam that
/// moves on has room to.
pub proof fn lemma_row_fits_buffers(
    input_length: usize,
    h: DecodingRow,
    start_t: Seq<usize>,
    u: Seq<usize>,
)
    requires
        h.beam_width > 0 || h.max_beam_width == 0,
        h.beam_width <= i32::MAX,
        start_t.len() == h.beam_width,
        u.len() == h.beam_width,
        forall|w: int| 0 <= w < h.beam_width ==> #[trigger] start_t[w] <= i32::MAX,
        forall|w: int| 0 <= w < h.beam_width ==> #[trigger] u[w] <= i32::MAX,
        forall|w: int|
            0 <= w < h.beam_width && advances(input_length, h, w, start_t[w]) ==> (#[trigger] u[w])
                < i32::MAX && start_t[w] < i32::MAX,
    ensures
        all_of(
            reduced(row_candidates(input_length, h, start_t, u), h.max_beam_width as nat),
            fits_buffers(),
        ),
{
    assert forall|w: int| 0 <= w < h.beam_width implies all_of(
        #[trigger] successors(
            input_length,
            h,
            w as usize,
            start_t[w],
            u[w],
            h.log_prob_history[w],
        ),
        fits_buffers(),
    ) by {
        assert(start_t[w] <= i32::MAX);
        assert(u[w] <= i32::MAX);
        if advances(input_length, h, w, start_t[w]) {
            assert(u[w] < i32::MAX && start_t[w] < i32::MAX);
        }
    }
    lemma_row_all(input_length, h, start_t, u, fits_buffers());
}

/// At the last frame of the input every successor of a beam ends it: Emit
/// finishes the beam where it stands, and so does an attempted Shift, which
/// is the same Emit with the same score.
pub proof fn lemma_last_frame_finishes(
    input_length: usize,
    h: DecodingRow,
    w: usize,
    t: usize,
    u: usize,
    log_prob_history: i32,
)
    requires
        t + 1 == input_length,
    ensures
        all_of(successors(input_length, h, w, t, u, log_prob_history), finishes_at(t)),
        h.branches(w as int, t) is Some ==> successors(input_length, h, w, t, u, log_prob_history)
            == seq![emit_finish(h, w, t, u), emit_finish(h, w, t, u)],
{
    if h.branches(w as int, t) is Some {
        assert(successors(input_length, h, w, t, u, log_prob_history) =~= seq![
            emit_finish(h, w, t, u),
            emit_finish(h, w, t, u),
        ]);
    }
}

/// Before the last frame a beam that has successors proposes an Emit that
/// stays at the frame and a Shift that moves to the next, each with its own
/// score, and both advance the output index.
pub proof fn lemma_before_last_frame(
    input_length: usize,
    h: DecodingRow,
    w: usize,
    t: usize,
    u: usize,
    log_prob_history: i32,
)
    requires
        advances(input_length, h, w as int, t),
    ensures
        successors(input_length, h, w, t, u, log_prob_history) == seq![
            (DecodeResult {
                prediction: Transition::Emit.id(),
                log_prob: h.input[2 * w],
                next_t: t,
                next_u: (u + 1) as usize,
                is_finished: false,
                parent_branch: w,
            }),
            (DecodeResult {
                prediction: Transition::Shift.id(),
                log_prob: h.input[2 * w + 1],
                next_t: (t + 1) as usize,
                next_u: (u + 1) as usize,
                is_finished: false,
                parent_branch: w,
            }),
        ],
{
    assert(successors(input_length, h, w, t, u, log_prob_history) =~= seq![
        (DecodeResult {
            prediction: Transition::Emit.id(),
            log_prob: h.input[2 * w],
            next_t: t,
            next_u: (u + 1) as usize,
            is_finished: false,
            parent_branch: w,
        }),
        (DecodeResult {
            prediction: Transition::Shift.id(),
            log_prob: h.input[2 * w + 1],
            next_t: (t + 1) as usize,
            next_u: (u + 1) as usize,
            is_finished: false,
            parent_branch: w,
        }),
    ]);
}

/// The test that a candidate came from frame `t` by a move that an input of
/// `input_length` frames allows: it stays at the frame or moves to the next,
/// it stays inside the input, and it is a Shift only where it moved on from a
/// frame before the last.
pub open spec fn moves_within(input_length: usize, t: usize) -> spec_fn(DecodeResult) -> bool {
    |c: DecodeResult|
        t <= c.next_t <= t + 1 && c.next_t < input_length && (c.prediction
            == Transition::Shift.id() ==> t + 1 < input_length && c.next_t == t + 1)
}

/// No successor of a beam that stands at a frame of the input leaves the
/// input: a Shift never moves past the last frame.
pub proof fn lemma_successors_within_input(
    input_length: usize,
    h: DecodingRow,
    w: usize,
    t: usize,
    u: usize,
    log_prob_history: i32,
)
    requires
        t < input_length,
    ensures
        all_of(successors(input_length, h, w, t, u, log_prob_history), within_input(input_length)),
        all_of(
            successors(input_length, h, w, t, u, log_prob_history),
            moves_within(input_length, t),
        ),
{
}

/// The test that a candidate is one of the successors of the beam that it
/// names as its parent.
pub open spec fn descends(
    input_length: usize,
    h: DecodingRow,
    start_t: Seq<usize>,
    u: Seq<usize>,
) -> spec_fn(DecodeResult) -> bool {
    |c: DecodeResult|
        c.parent_branch < h.beam_width && successors(
            input_length,
            h,
            c.parent_branch,
            start_t[c.parent_branch as int],
            u[c.parent_branch as int],
            h.log_prob_history[c.parent_branch as int],
        ).contains(c)
}

/// Every successor of beam `w` names `w` as its parent.
pub proof fn lemma_successors_name_parent(
    input_length: usize,
    h: DecodingRow,
    w: usize,
    t: usize,
    u: usize,
    log_prob_history: i32,
    i: int,
)
    requires
        0 <= i < successors(input_length, h, w, t, u, log_prob_history).len(),
    ensures
        successors(input_length, h, w, t, u, log_prob_history)[i].parent_branch == w,
{
}

/// Every entry that a row keeps is a successor of the beam that it names as
/// its parent.
pub proof fn lemma_row_descends(
    input_length: usize,
    h: DecodingRow,
    start_t: Seq<usize>,
    u: Seq<usize>,
)
    requires
        h.beam_width > 0 || h.max_beam_width == 0,
    ensures
        all_of(
            reduced(row_candidates(input_length, h, start_t, u), h.max_beam_width as nat),
            descends(input_length, h, start_t, u),
        ),
{
    let p = descends(input_length, h, start_t, u);
    assert forall|w: int| 0 <= w < h.beam_width implies all_of(
        #[trigger] successors(
            input_length,
            h,
            w as usize,
            start_t[w],
            u[w],
            h.log_prob_history[w],
        ),
        p,
    ) by {
        let proposed = successors(
            input_length,
            h,
            w as usize,
            start_t[w],
            u[w],
            h.log_prob_history[w],
        );
        assert forall|i: int| 0 <= i < proposed.len() implies p(#[trigger] proposed[i]) by {
            lemma_successors_name_parent(
                input_length,
                h,
                w as usize,
                start_t[w],
                u[w],
                h.log_prob_history[w],
                i,
            );
            assert(proposed.contains(proposed[i]));
        }
    }
    lemma_row_all(input_length, h, start_t, u, p);
}

/// Where every beam of a row stands at a frame of the input, so does every
/// entry that the row keeps.
pub proof fn lemma_row_within_input(
    input_length: usize,
    h: DecodingRow,
    start_t: Seq<usize>,
    u: Seq<usize>,
)
    requires
        h.beam_width > 0 || h.max_beam_width == 0,
        forall|w: int| 0 <= w < h.beam_width ==> #[trigger] start_t[w] < input_length,
    ensures
        all_of(
            reduced(row_candidates(input_length, h, start_t, u), h.max_beam_width as nat),
            within_input(input_length),
        ),
{
    assert forall|w: int| 0 <= w < h.beam_width implies all_of(
        #[trigger] successors(
            input_length,
            h,
            w as usize,
            start_t[w],
            u[w],
            h.log_prob_history[w],
        ),
        within_input(input_length),
    ) by {
        lemma_successors_within_input(
            input_length,
            h,
            w as usize,
            start_t[w],
            u[w],
            h.log_prob_history[w],
        );
    }
    lemma_row_all(input_length, h, start_t, u, within_input(input_length));
}

/// A finished beam proposes nothing new: it is carried forward as it is.
pub proof fn lemma_finished_beam_is_carried(
    input_length: usize,
    h: DecodingRow,
    w: usize,
    t: usize,
    u: usize,
    log_prob_history: i32,
)
    requires
        h.is_finished[w as int] || t >= h.input_length,
    ensures
        successors(input_length, h, w, t, u, log_prob_history) == seq![
            pass_through(w, t, u, log_prob_history),
        ],
        pass_through(w, t, u, log_prob_history).is_finished,
        pass_through(w, t, u, log_prob_history).log_prob == log_prob_history,
        pass_through(w, t, u, log_prob_history).next_t == t,
        pass_through(w, t, u, log_prob_history).next_u == u,
{
}

/// A row with a beam has a candidate: every beam proposes at least one.
pub proof fn lemma_row_has_candidates(
    input_length: usize,
    h: DecodingRow,
    start_t: Seq<usize>,
    u: Seq<usize>,
)
    requires
        h.beam_width > 0,
    ensures
        row_candidates(input_length, h, start_t, u).len() > 0,
{
    let by_beam = Seq::new(
        h.beam_width as nat,
        |w: int| successors(input_length, h, w as usize, start_t[w], u[w], h.log_prob_history[w]),
    );
    by_beam.lemma_flatten_length_ge_single_element_length(0);
}

} // verus!
