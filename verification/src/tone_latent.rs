//! The tone-latent beam expander: at every input frame a beam picks one of a
//! fixed set of tone classes, and every class is open to it.
use crate::batch::lemma_positions_of_row;
use crate::batch::non_negative;
use crate::batch::lemma_row_bounds;
use crate::batch::positions;
use crate::batch::row_of;
use crate::batch::to_positions;
use crate::batch::BatchView;
use crate::parallel::par_map_range;
use crate::rank::all_of;
use crate::rank::gather;
use crate::rank::lemma_flatten_all;
use crate::rank::lemma_flatten_uniform_len;
use crate::rank::lemma_reduced_all;
use crate::rank::reduce;
use crate::rank::reduced;
use crate::rank::Candidate;
use vstd::prelude::*;

verus! {

/// One tone class of a beam at a frame.
#[derive(Debug, PartialEq, Eq, Structural, Copy, Clone)]
pub struct DecodingTable {
    pub log_prob: i32,
    pub tone_class: i32,
    pub is_finished: bool,
}

/// A successor that a beam proposes for the next step.
#[derive(Debug, PartialEq, Eq, Structural, Copy, Clone)]
pub struct DecodeResult {
    pub prediction: i32,
    pub log_prob: i32,
    pub next_t: usize,
    pub next_u: usize,
    pub is_finished: bool,
    pub parent_branch: usize,
}

impl Candidate for DecodeResult {
    type Outcome = (i32, i32, usize, usize, bool);

    open spec fn score(&self) -> i32 {
        self.log_prob
    }

    open spec fn outcome(&self) -> (i32, i32, usize, usize, bool) {
        (self.prediction, self.log_prob, self.next_t, self.next_u, self.is_finished)
    }

    fn rank_key(&self) -> (key: i32) {
        self.log_prob
    }

    fn eq_ignore_parent(&self, other: &DecodeResult) -> (same: bool) {
        self.prediction == other.prediction && self.log_prob == other.log_prob && self.next_t
            == other.next_t && self.next_u == other.next_u && self.is_finished == other.is_finished
    }
}

/// What a decoding table holds: for every beam of one row the cumulative
/// score of each tone class, the score it has reached so far, and whether it
/// is finished.
///
/// A score is an integer key: of two scores the larger is the better one.
/// `input[w * tone_class_size + c]` is the score that beam `w` has after it
/// picks class `c`.
pub struct DecodingRow {
    pub input: Seq<i32>,
    pub log_prob_history: Seq<i32>,
    pub is_finished: Seq<bool>,
    pub tone_class_size: usize,
    pub input_length: usize,
    pub beam_width: usize,
    pub max_beam_width: usize,
    pub empty_tone_id: i32,
}

impl DecodingRow {
    /// The buffers have the shape that the beam width and the number of
    /// classes ask for, and class ids are in the range of a signed integer.
    pub open spec fn wf(self) -> bool {
        &&& self.input.len() == self.beam_width * self.tone_class_size
        &&& self.log_prob_history.len() == self.beam_width
        &&& self.is_finished.len() == self.beam_width
        &&& self.tone_class_size <= i32::MAX
    }

    /// Whether `t` is a frame of the input.
    pub open spec fn defined_at(self, t: usize) -> bool {
        t < self.input_length
    }

    /// What class `class` means for beam `w`.
    pub open spec fn choice(self, w: int, class: int) -> DecodingTable {
        DecodingTable {
            log_prob: self.input[w * self.tone_class_size + class],
            tone_class: class as i32,
            is_finished: false,
        }
    }

    /// The classes of beam `w` at frame `t`, in the order of their ids, or
    /// `None` where the beam has no successor: past the input, or finished.
    pub open spec fn branches(self, w: int, t: usize) -> Option<Seq<DecodingTable>> {
        if !self.defined_at(t) || self.is_finished[w] {
            None
        } else {
            Some(Seq::new(self.tone_class_size as nat, |class: int| self.choice(w, class)))
        }
    }
}

/// A read-only window over the buffers of one row.
pub struct BeamSearchDecodingTable<'a> {
    pub input: &'a [i32],
    pub log_prob_history: &'a [i32],
    pub is_finished: &'a [bool],
    pub tone_class_size: usize,
    pub input_length: usize,
    pub beam_width: usize,
    pub max_beam_width: usize,
    pub empty_tone_id: i32,
}

impl<'a> View for BeamSearchDecodingTable<'a> {
    type V = DecodingRow;

    open spec fn view(&self) -> DecodingRow {
        DecodingRow {
            input: self.input@,
            log_prob_history: self.log_prob_history@,
            is_finished: self.is_finished@,
            tone_class_size: self.tone_class_size,
            input_length: self.input_length,
            beam_width: self.beam_width,
            max_beam_width: self.max_beam_width,
            empty_tone_id: self.empty_tone_id,
        }
    }
}

impl<'a> BeamSearchDecodingTable<'a> {
    /// The buffers have the shape and the ranges that the view asks for.
    pub open spec fn wf(&self) -> bool {
        self@.wf()
    }

    /// Binds the buffers of one row.
    pub fn new(
        input: &'a [i32],
        log_prob_history: &'a [i32],
        is_finished: &'a [bool],
        tone_class_size: usize,
        input_length: usize,
        beam_width: usize,
        max_beam_width: usize,
        empty_tone_id: i32,
    ) -> (table: BeamSearchDecodingTable<'a>)
        requires
            input@.len() == beam_width * tone_class_size,
            log_prob_history@.len() == beam_width,
            is_finished@.len() == beam_width,
            tone_class_size <= i32::MAX,
        ensures
            table.wf(),
            table@ == (DecodingRow {
                input: input@,
                log_prob_history: log_prob_history@,
                is_finished: is_finished@,
                tone_class_size,
                input_length,
                beam_width,
                max_beam_width,
                empty_tone_id,
            }),
    {
        BeamSearchDecodingTable {
            input,
            log_prob_history,
            is_finished,
            tone_class_size,
            input_length,
            beam_width,
            max_beam_width,
            empty_tone_id,
        }
    }

    /// The scores of the classes of beam `w`.
    pub fn beam_branch(&self, w: usize) -> (branch: &'a [i32])
        requires
            self.wf(),
            w < self.beam_width,
        ensures
            branch@ == row_of(self.input@, self.tone_class_size as int, w as int),
            branch@.len() == self.tone_class_size,
    {
        let total: usize = self.input.len();
        proof {
            lemma_row_bounds(self.beam_width as int, self.tone_class_size as int, w as int);
        }
        let size: usize = self.tone_class_size;
        let start: usize = w * size;
        &self.input[start..start + size]
    }

    /// Whether `t` is a frame of the input.
    pub fn is_defined_at(&self, t: usize) -> (defined: bool)
        ensures
            defined == self@.defined_at(t),
    {
        t < self.input_length
    }

    /// Lists the classes of beam `w` at frame `t`, or returns `None` where the
    /// beam has no successor.
    pub fn decode_beam_at(&self, w: usize, t: usize) -> (choices: Option<Vec<DecodingTable>>)
        requires
            self.wf(),
            w < self.beam_width,
        ensures
            choices is Some <==> self@.branches(w as int, t) is Some,
            choices is Some ==> choices->0@ == self@.branches(w as int, t)->0,
    {
        if !self.is_defined_at(t) {
            return None;
        }
        if self.is_finished[w] {
            return None;
        }
        let branch: &[i32] = self.beam_branch(w);
        let mut choices: Vec<DecodingTable> = Vec::with_capacity(self.tone_class_size);
        let mut i: usize = 0;
        while i < self.tone_class_size
            invariant
                self.wf(),
                w < self.beam_width,
                i <= self.tone_class_size,
                branch@ == row_of(self.input@, self.tone_class_size as int, w as int),
                branch@.len() == self.tone_class_size,
                choices.len() == i,
                forall|j: int| 0 <= j < i ==> choices[j] == self@.choice(w as int, j),
            decreases self.tone_class_size - i,
        {
            proof {
                lemma_row_bounds(self.beam_width as int, self.tone_class_size as int, w as int);
            }
            choices.push(DecodingTable { log_prob: branch[i], tone_class: i as i32, is_finished: false });
            i += 1;
        }
        assert(choices@ =~= self@.branches(w as int, t)->0);
        Some(choices)
    }
}

/// The candidate that carries a beam without successor forward: its state
/// as it is, marked finished, under the class id that stands for no tone.
pub open spec fn pass_through(
    empty_tone_id: i32,
    w: usize,
    t: usize,
    u: usize,
    log_prob_history: i32,
) -> DecodeResult {
    DecodeResult {
        prediction: empty_tone_id,
        log_prob: log_prob_history,
        next_t: t,
        next_u: u,
        is_finished: true,
        parent_branch: w,
    }
}

/// The successor of beam `w`, at frame `t` and output index `u`, for a tone
/// class: it advances the frame and the output index, and does not finish the
/// beam.
pub open spec fn successor(w: usize, t: usize, u: usize, choice: DecodingTable) -> DecodeResult {
    DecodeResult {
        prediction: choice.tone_class,
        log_prob: choice.log_prob,
        next_t: if choice.is_finished {
            t
        } else {
            (t + 1) as usize
        },
        next_u: if choice.is_finished {
            u
        } else {
            (u + 1) as usize
        },
        is_finished: choice.is_finished,
        parent_branch: w,
    }
}

/// All that beam `w` proposes: one pass-through candidate where it has no
/// successor, else one successor for every class, in the order of the class
/// ids.
pub open spec fn successors(
    empty_tone_id: i32,
    h: DecodingRow,
    w: usize,
    t: usize,
    u: usize,
    log_prob_history: i32,
) -> Seq<DecodeResult> {
    match h.branches(w as int, t) {
        None => seq![pass_through(empty_tone_id, w, t, u, log_prob_history)],
        Some(choices) => choices.map_values(|choice: DecodingTable| successor(w, t, u, choice)),
    }
}

/// The candidates of a row: what beam 0 proposes, then beam 1, and so on.
pub open spec fn row_candidates(
    empty_tone_id: i32,
    h: DecodingRow,
    start_t: Seq<usize>,
    u: Seq<usize>,
) -> Seq<DecodeResult> {
    Seq::new(
        h.beam_width as nat,
        |w: int| successors(empty_tone_id, h, w as usize, start_t[w], u[w], h.log_prob_history[w]),
    ).flatten()
}

/// Whether beam `w` moves on from frame `t`: it stands at a frame of the input
/// and is not finished, so that what it picks advances its output index.
pub open spec fn advances(h: DecodingRow, w: int, t: usize) -> bool {
    t < h.input_length && !h.is_finished[w]
}

/// Whether a row can be searched: the per-beam positions have the width of
/// the table, the output index of no beam that moves on is at the end of its
/// range, and some beam proposes a candidate to fill the output from.
pub open spec fn row_ready(
    empty_tone_id: i32,
    h: DecodingRow,
    start_t: Seq<usize>,
    u: Seq<usize>,
) -> bool {
    &&& h.wf()
    &&& start_t.len() == h.beam_width
    &&& u.len() == h.beam_width
    &&& forall|w: int| 0 <= w < u.len() && advances(h, w, start_t[w]) ==> #[trigger] u[w] < usize::MAX
    &&& (row_candidates(empty_tone_id, h, start_t, u).len() > 0 || h.max_beam_width == 0)
}

/// The inputs of one step for a whole batch, row after row in flat buffers.
pub struct DecodingBatch {
    pub h: Seq<i32>,
    pub log_prob_history: Seq<i32>,
    pub is_finished: Seq<bool>,
    pub t: Seq<i32>,
    pub u: Seq<i32>,
    pub input_length: Seq<i32>,
    pub tone_class_size: usize,
    pub empty_tone_id: i32,
    pub batch_size: int,
    pub beam_width: int,
    pub max_beam_width: int,
}

impl DecodingBatch {
    /// The buffers have the shape that the batch size, the beam width and the
    /// number of classes ask for; no length and no position is negative; and
    /// every beam that moves on has room to.
    pub open spec fn wf(self) -> bool {
        &&& 0 <= self.batch_size <= i32::MAX
        &&& 0 <= self.beam_width <= i32::MAX
        &&& 0 <= self.max_beam_width <= i32::MAX
        &&& self.tone_class_size <= i32::MAX
        &&& self.h.len() == self.batch_size * (self.beam_width * self.tone_class_size)
        &&& self.log_prob_history.len() == self.batch_size * self.beam_width
        &&& self.is_finished.len() == self.batch_size * self.beam_width
        &&& self.t.len() == self.batch_size * self.beam_width
        &&& self.u.len() == self.batch_size * self.beam_width
        &&& self.input_length.len() == self.batch_size
        &&& forall|b: int| 0 <= b < self.batch_size ==> 0 <= #[trigger] self.input_length[b]
        &&& non_negative(self.t)
        &&& non_negative(self.u)
        &&& forall|b: int| 0 <= b < self.batch_size ==> #[trigger] self.room_to_advance(b)
    }

    /// Whether every beam of row `b` that moves on can have its output index
    /// advanced by one and written back as a signed integer.
    pub open spec fn room_to_advance(self, b: int) -> bool {
        forall|w: int|
            0 <= w < self.beam_width && advances(self.row(b), w, self.start_t(b)[w]) ==> (
            #[trigger] self.start_u(b)[w]) < i32::MAX
    }

    /// The table of row `b`.
    pub open spec fn row(self, b: int) -> DecodingRow {
        DecodingRow {
            input: row_of(self.h, self.beam_width * self.tone_class_size, b),
            log_prob_history: row_of(self.log_prob_history, self.beam_width, b),
            is_finished: row_of(self.is_finished, self.beam_width, b),
            tone_class_size: self.tone_class_size,
            input_length: self.input_length[b] as usize,
            beam_width: self.beam_width as usize,
            max_beam_width: self.max_beam_width as usize,
            empty_tone_id: self.empty_tone_id,
        }
    }

    /// The frame that each beam of row `b` stands at.
    pub open spec fn start_t(self, b: int) -> Seq<usize> {
        positions(row_of(self.t, self.beam_width, b))
    }

    /// The output index that each beam of row `b` stands at.
    pub open spec fn start_u(self, b: int) -> Seq<usize> {
        positions(row_of(self.u, self.beam_width, b))
    }

    /// Whether every row has a candidate to fill its output from.
    pub open spec fn searchable(self) -> bool {
        self.max_beam_width == 0 || forall|b: int|
            0 <= b < self.batch_size ==> (#[trigger] row_candidates(
                self.empty_tone_id,
                self.row(b),
                self.start_t(b),
                self.start_u(b),
            )).len() > 0
    }

    /// What row `b` keeps after one step.
    pub open spec fn decoded_row(self, b: int) -> Seq<DecodeResult> {
        reduced(
            row_candidates(self.empty_tone_id, self.row(b), self.start_t(b), self.start_u(b)),
            self.max_beam_width as nat,
        )
    }

    /// What the rows keep after one step, row after row.
    pub open spec fn decoded(self) -> Seq<DecodeResult> {
        Seq::new(self.batch_size as nat, |b: int| self.decoded_row(b)).flatten()
    }
}

/// The class ids of `results`, entry by entry.
pub open spec fn predictions(results: Seq<DecodeResult>) -> Seq<i32> {
    Seq::new(results.len(), |i: int| results[i].prediction)
}

/// The scores of `results`, entry by entry.
pub open spec fn scores_of(results: Seq<DecodeResult>) -> Seq<i32> {
    Seq::new(results.len(), |i: int| results[i].log_prob)
}

/// The next frames of `results`, entry by entry.
pub open spec fn next_frames(results: Seq<DecodeResult>) -> Seq<i32> {
    Seq::new(results.len(), |i: int| results[i].next_t as i32)
}

/// The next output indices of `results`, entry by entry.
pub open spec fn next_outputs(results: Seq<DecodeResult>) -> Seq<i32> {
    Seq::new(results.len(), |i: int| results[i].next_u as i32)
}

/// The finished flags of `results`, entry by entry.
pub open spec fn finished_flags(results: Seq<DecodeResult>) -> Seq<bool> {
    Seq::new(results.len(), |i: int| results[i].is_finished)
}

/// The beams that `results` came from, entry by entry.
pub open spec fn parent_branches(results: Seq<DecodeResult>) -> Seq<i32> {
    Seq::new(results.len(), |i: int| results[i].parent_branch as i32)
}

/// Whether the output buffers hold `results` column by column: each buffer
/// one field of every result, in the order of the results.
pub open spec fn decode_writes(
    results: Seq<DecodeResult>,
    prediction: Seq<i32>,
    log_probs: Seq<i32>,
    next_t: Seq<i32>,
    next_u: Seq<i32>,
    next_is_finished: Seq<bool>,
    beam_branch: Seq<i32>,
) -> bool {
    &&& prediction == predictions(results)
    &&& log_probs == scores_of(results)
    &&& next_t == next_frames(results)
    &&& next_u == next_outputs(results)
    &&& next_is_finished == finished_flags(results)
    &&& beam_branch == parent_branches(results)
}

/// The test that the positions and the parent of a candidate can be written
/// as signed integers without loss.
pub open spec fn fits_buffers() -> spec_fn(DecodeResult) -> bool {
    |c: DecodeResult| c.next_t <= i32::MAX && c.next_u <= i32::MAX && c.parent_branch <= i32::MAX
}

/// The test that a candidate either moved on by one frame and one output
/// unit from `(t, u)` without finishing, or stayed there and finished.
pub open spec fn steps_from(t: usize, u: usize) -> spec_fn(DecodeResult) -> bool {
    |c: DecodeResult|
        if c.is_finished {
            c.next_t == t && c.next_u == u
        } else {
            c.next_t == t + 1 && c.next_u == u + 1
        }
}

/// The batch that the flat buffers of one step describe.
pub open spec fn batch_of(
    h: Seq<i32>,
    log_prob_history: Seq<i32>,
    is_finished: Seq<bool>,
    t: Seq<i32>,
    u: Seq<i32>,
    input_length: Seq<i32>,
    tone_class_size: usize,
    empty_tone_id: i32,
    batch_size: i32,
    beam_width: i32,
    max_beam_width: i32,
) -> DecodingBatch {
    DecodingBatch {
        h,
        log_prob_history,
        is_finished,
        t,
        u,
        input_length,
        tone_class_size,
        empty_tone_id,
        batch_size: batch_size as int,
        beam_width: beam_width as int,
        max_beam_width: max_beam_width as int,
    }
}

/// Every row of a well-formed batch has a well-formed table and positions of
/// the width of the table that can be advanced.
pub proof fn lemma_batch_row_wf(batch: DecodingBatch, b: int)
    requires
        batch.wf(),
        0 <= b < batch.batch_size,
    ensures
        batch.row(b).wf(),
        batch.row(b).input_length <= i32::MAX,
        batch.row(b).beam_width == batch.beam_width,
        batch.start_t(b).len() == batch.beam_width,
        batch.start_u(b).len() == batch.beam_width,
        forall|w: int| 0 <= w < batch.beam_width ==> #[trigger] batch.start_t(b)[w] <= i32::MAX,
        forall|w: int| 0 <= w < batch.beam_width ==> #[trigger] batch.start_u(b)[w] <= i32::MAX,
        forall|w: int|
            0 <= w < batch.beam_width && advances(batch.row(b), w, batch.start_t(b)[w]) ==> (
            #[trigger] batch.start_u(b)[w]) < i32::MAX,
{
    assert(batch.room_to_advance(b));
    lemma_row_bounds(batch.batch_size, batch.beam_width, b);
    assert(0 <= batch.beam_width * batch.tone_class_size) by (nonlinear_arith)
        requires
            0 <= batch.beam_width,
            0 <= batch.tone_class_size,
    ;
    lemma_row_bounds(batch.batch_size, batch.beam_width * batch.tone_class_size, b);
    assert forall|w: int| 0 <= w < batch.beam_width implies #[trigger] batch.start_t(b)[w]
        <= i32::MAX by {
        lemma_positions_of_row(batch.t, batch.batch_size, batch.beam_width, b, w);
    }
    assert forall|w: int| 0 <= w < batch.beam_width implies #[trigger] batch.start_u(b)[w]
        <= i32::MAX by {
        lemma_positions_of_row(batch.u, batch.batch_size, batch.beam_width, b, w);
    }
}

/// Decoder settings of the tone-latent expander.
pub struct ToneLatentCpu {
    pub batch_size: i32,
    pub tone_class_size: usize,
    pub empty_tone_id: i32,
}

impl ToneLatentCpu {
    /// A decoder for `batch_size` rows over `tone_class_size` tone classes.
    /// `empty_tone_id` is the class id written for a beam that is carried
    /// forward.
    pub fn new(batch_size: i32, tone_class_size: usize, empty_tone_id: i32) -> (cpu: ToneLatentCpu)
        ensures
            cpu.batch_size == batch_size,
            cpu.tone_class_size == tone_class_size,
            cpu.empty_tone_id == empty_tone_id,
    {
        ToneLatentCpu { batch_size, tone_class_size, empty_tone_id }
    }

    /// Whether some beam of the row proposes a candidate, so that the output
    /// of the row can be filled.
    pub fn has_candidates<'a>(
        &self,
        h: &BeamSearchDecodingTable<'a>,
        start_t: &[usize],
        u: &[usize],
    ) -> (found: bool)
        requires
            h.wf(),
            start_t@.len() == h.beam_width,
            u@.len() == h.beam_width,
            forall|w: int|
                0 <= w < u@.len() && advances(h@, w, start_t@[w]) ==> #[trigger] u@[w]
                    < usize::MAX,
        ensures
            found == (row_candidates(self.empty_tone_id, h@, start_t@, u@).len() > 0),
    {
        let ghost by_beam = Seq::new(
            h.beam_width as nat,
            |w: int|
                successors(
                    self.empty_tone_id,
                    h@,
                    w as usize,
                    start_t@[w],
                    u@[w],
                    h@.log_prob_history[w],
                ),
        );
        let mut w: usize = 0;
        assert(by_beam.take(0) =~= Seq::<Seq<DecodeResult>>::empty());
        while w < h.beam_width
            invariant
                h.wf(),
                w <= h.beam_width,
                start_t@.len() == h.beam_width,
                u@.len() == h.beam_width,
                forall|k: int|
                    0 <= k < u@.len() && advances(h@, k, start_t@[k]) ==> #[trigger] u@[k]
                        < usize::MAX,
                by_beam == Seq::new(
                    h.beam_width as nat,
                    |w: int|
                        successors(
                            self.empty_tone_id,
                            h@,
                            w as usize,
                            start_t@[w],
                            u@[w],
                            h@.log_prob_history[w],
                        ),
                ),
                by_beam.take(w as int).flatten().len() == 0,
            decreases h.beam_width - w,
        {
            let proposed = self.beam_search_kernel_internal(
                h,
                w,
                start_t[w],
                u[w],
                h.log_prob_history[w],
            );
            if proposed.len() > 0 {
                proof {
                    assert(by_beam[w as int] == proposed@);
                    by_beam.lemma_flatten_length_ge_single_element_length(w as int);
                    by_beam.lemma_flatten_and_flatten_alt_are_equivalent();
                }
                return true;
            }
            proof {
                assert(by_beam.take(w + 1) =~= by_beam.take(w as int).push(by_beam[w as int]));
                by_beam.take(w as int).lemma_flatten_push(by_beam[w as int]);
            }
            w += 1;
        }
        assert(by_beam.take(h.beam_width as int) =~= by_beam);
        false
    }
}

/// One ply of the tone-latent beam search.
pub trait ToneLatent {
    /// The class id that the decoder writes for a beam that is carried
    /// forward.
    spec fn empty_tone(&self) -> i32;

    /// The number of tone classes that the decoder takes a row to have.
    spec fn classes(&self) -> usize;

    /// Runs one step of the search on every row of a batch, the rows in
    /// parallel, and writes what each row keeps into its slice of the output
    /// buffers: row after row, `max_beam_width` entries each.
    fn beam_search_decode(
        &self,
        h: &[i32],
        log_prob_history: &[i32],
        is_finished: &[bool],
        t: &[i32],
        u: &[i32],
        input_length: &[i32],
        batch_size: i32,
        beam_width: i32,
        max_beam_width: i32,
        prediction: &mut [i32],
        log_probs: &mut [i32],
        next_t: &mut [i32],
        next_u: &mut [i32],
        next_is_finished: &mut [bool],
        beam_branch: &mut [i32],
    )
        requires
            batch_of(
                h@,
                log_prob_history@,
                is_finished@,
                t@,
                u@,
                input_length@,
                self.classes(),
                self.empty_tone(),
                batch_size,
                beam_width,
                max_beam_width,
            ).wf(),
            batch_of(
                h@,
                log_prob_history@,
                is_finished@,
                t@,
                u@,
                input_length@,
                self.classes(),
                self.empty_tone(),
                batch_size,
                beam_width,
                max_beam_width,
            ).searchable(),
            old(prediction)@.len() == batch_size * max_beam_width,
            old(log_probs)@.len() == batch_size * max_beam_width,
            old(next_t)@.len() == batch_size * max_beam_width,
            old(next_u)@.len() == batch_size * max_beam_width,
            old(next_is_finished)@.len() == batch_size * max_beam_width,
            old(beam_branch)@.len() == batch_size * max_beam_width,
        ensures
            decode_writes(
                batch_of(
                    h@,
                    log_prob_history@,
                    is_finished@,
                    t@,
                    u@,
                    input_length@,
                    self.classes(),
                    self.empty_tone(),
                    batch_size,
                    beam_width,
                    max_beam_width,
                ).decoded(),
                final(prediction)@,
                final(log_probs)@,
                final(next_t)@,
                final(next_u)@,
                final(next_is_finished)@,
                final(beam_branch)@,
            ),
    ;

    /// Ranks what the beams of one row propose and keeps `max_beam_width` of
    /// it.
    fn beam_search_kernel<'a>(
        &self,
        h: &BeamSearchDecodingTable<'a>,
        start_t: &[usize],
        u: &[usize],
    ) -> (results: Vec<DecodeResult>)
        requires
            h.wf(),
            row_ready(self.empty_tone(), h@, start_t@, u@),
        ensures
            results@ == reduced(
                row_candidates(self.empty_tone(), h@, start_t@, u@),
                h.max_beam_width as nat,
            ),
            results.len() == h.max_beam_width,
    ;

    /// Lists what beam `w` proposes at frame `t` and output index `u`.
    fn beam_search_kernel_internal<'a>(
        &self,
        h: &BeamSearchDecodingTable<'a>,
        w: usize,
        t: usize,
        u: usize,
        log_prob_history: i32,
    ) -> (results: Vec<DecodeResult>)
        requires
            h.wf(),
            w < h.beam_width,
            advances(h@, w as int, t) ==> u < usize::MAX,
        ensures
            results@ == successors(self.empty_tone(), h@, w, t, u, log_prob_history),
    ;
}

impl ToneLatent for ToneLatentCpu {
    open spec fn empty_tone(&self) -> i32 {
        self.empty_tone_id
    }

    open spec fn classes(&self) -> usize {
        self.tone_class_size
    }

    fn beam_search_decode(
        &self,
        h: &[i32],
        log_prob_history: &[i32],
        is_finished: &[bool],
        t: &[i32],
        u: &[i32],
        input_length: &[i32],
        batch_size: i32,
        beam_width: i32,
        max_beam_width: i32,
        prediction: &mut [i32],
        log_probs: &mut [i32],
        next_t: &mut [i32],
        next_u: &mut [i32],
        next_is_finished: &mut [bool],
        beam_branch: &mut [i32],
    ) {
        let ghost batch = batch_of(
            h@,
            log_prob_history@,
            is_finished@,
            t@,
            u@,
            input_length@,
            self.tone_class_size,
            self.empty_tone_id,
            batch_size,
            beam_width,
            max_beam_width,
        );
        let rows: usize = batch_size as usize;
        let width: usize = beam_width as usize;
        let capacity: usize = max_beam_width as usize;
        let classes: usize = self.tone_class_size;
        if rows == 0 {
            assert(batch_size * max_beam_width == 0) by (nonlinear_arith)
                requires
                    batch_size == 0,
            ;
            assert(batch.decoded() =~= Seq::<DecodeResult>::empty());
            assert(prediction@ =~= predictions(batch.decoded()));
            assert(log_probs@ =~= scores_of(batch.decoded()));
            assert(next_t@ =~= next_frames(batch.decoded()));
            assert(next_u@ =~= next_outputs(batch.decoded()));
            assert(next_is_finished@ =~= finished_flags(batch.decoded()));
            assert(beam_branch@ =~= parent_branches(batch.decoded()));
            return ;
        }
        let total: usize = h.len();
        assert(width * classes <= rows * (width * classes)) by (nonlinear_arith)
            requires
                1 <= rows,
                0 <= width * classes,
        ;
        let h_rows = BatchView::new(h, width * classes, rows);
        let history_rows = BatchView::new(log_prob_history, width, rows);
        let finished_rows = BatchView::new(is_finished, width, rows);
        let t_rows = BatchView::new(t, width, rows);
        let u_rows = BatchView::new(u, width, rows);
        let decode_row = |b: usize| -> (kept: Vec<DecodeResult>)
            requires
                b < rows,
            ensures
                kept@ == batch_of(
                    h@,
                    log_prob_history@,
                    is_finished@,
                    t@,
                    u@,
                    input_length@,
                    self.tone_class_size,
                    self.empty_tone_id,
                    batch_size,
                    beam_width,
                    max_beam_width,
                ).decoded_row(b as int),
            {
                proof {
                    let batch = batch_of(
                        h@,
                        log_prob_history@,
                        is_finished@,
                        t@,
                        u@,
                        input_length@,
                        self.tone_class_size,
                        self.empty_tone_id,
                        batch_size,
                        beam_width,
                        max_beam_width,
                    );
                    lemma_batch_row_wf(batch, b as int);
                    lemma_row_bounds(rows as int, width as int, b as int);
                    assert(max_beam_width == 0 || row_candidates(
                        self.empty_tone_id,
                        batch.row(b as int),
                        batch.start_t(b as int),
                        batch.start_u(b as int),
                    ).len() > 0);
                }
                let table = BeamSearchDecodingTable::new(
                    h_rows.batch(b),
                    history_rows.batch(b),
                    finished_rows.batch(b),
                    classes,
                    input_length[b] as usize,
                    width,
                    capacity,
                    self.empty_tone_id,
                );
                let start_t: Vec<usize> = to_positions(t_rows.batch(b));
                let start_u: Vec<usize> = to_positions(u_rows.batch(b));
                self.beam_search_kernel(&table, start_t.as_slice(), start_u.as_slice())
            };
        let kept: Vec<Vec<DecodeResult>> = par_map_range(rows, decode_row);
        let flat: Vec<DecodeResult> = gather(&kept);
        proof {
            let by_row = Seq::new(rows as nat, |b: int| batch.decoded_row(b));
            assert(kept@.map_values(|part: Vec<DecodeResult>| part@) =~= by_row);
            lemma_flatten_uniform_len(by_row, capacity as nat);
            assert forall|b: int| 0 <= b < by_row.len() implies all_of(
                #[trigger] by_row[b],
                fits_buffers(),
            ) by {
                lemma_batch_row_wf(batch, b);
                assert(max_beam_width == 0 || row_candidates(
                    self.empty_tone_id,
                    batch.row(b),
                    batch.start_t(b),
                    batch.start_u(b),
                ).len() > 0);
                lemma_row_fits_buffers(
                    self.empty_tone_id,
                    batch.row(b),
                    batch.start_t(b),
                    batch.start_u(b),
                );
            }
            lemma_flatten_all(by_row, fits_buffers());
        }
        let mut k: usize = 0;
        while k < flat.len()
            invariant
                k <= flat.len(),
                all_of(flat@, fits_buffers()),
                prediction@.len() == flat.len(),
                log_probs@.len() == flat.len(),
                next_t@.len() == flat.len(),
                next_u@.len() == flat.len(),
                next_is_finished@.len() == flat.len(),
                beam_branch@.len() == flat.len(),
                forall|j: int| 0 <= j < k ==> prediction@[j] == flat[j].prediction,
                forall|j: int| 0 <= j < k ==> log_probs@[j] == flat[j].log_prob,
                forall|j: int| 0 <= j < k ==> next_t@[j] == flat[j].next_t as i32,
                forall|j: int| 0 <= j < k ==> next_u@[j] == flat[j].next_u as i32,
                forall|j: int| 0 <= j < k ==> next_is_finished@[j] == flat[j].is_finished,
                forall|j: int| 0 <= j < k ==> beam_branch@[j] == flat[j].parent_branch as i32,
            decreases flat.len() - k,
        {
            let result: DecodeResult = flat[k];
            assert(fits_buffers()(flat@[k as int]));
            prediction[k] = result.prediction;
            log_probs[k] = result.log_prob;
            next_t[k] = result.next_t as i32;
            next_u[k] = result.next_u as i32;
            beam_branch[k] = result.parent_branch as i32;
            next_is_finished[k] = result.is_finished;
            k += 1;
        }
        assert(prediction@ =~= predictions(flat@));
        assert(log_probs@ =~= scores_of(flat@));
        assert(next_t@ =~= next_frames(flat@));
        assert(next_u@ =~= next_outputs(flat@));
        assert(next_is_finished@ =~= finished_flags(flat@));
        assert(beam_branch@ =~= parent_branches(flat@));
    }

    fn beam_search_kernel<'a>(
        &self,
        h: &BeamSearchDecodingTable<'a>,
        start_t: &[usize],
        u: &[usize],
    ) -> (results: Vec<DecodeResult>) {
        let expand = |w: usize| -> (proposed: Vec<DecodeResult>)
            requires
                w < h.beam_width,
            ensures
                proposed@ == successors(
                    self.empty_tone_id,
                    h@,
                    w,
                    start_t@[w as int],
                    u@[w as int],
                    h.log_prob_history@[w as int],
                ),
            {
                self.beam_search_kernel_internal(h, w, start_t[w], u[w], h.log_prob_history[w])
            };
        let proposed: Vec<Vec<DecodeResult>> = par_map_range(h.beam_width, expand);
        let candidates: Vec<DecodeResult> = gather(&proposed);
        proof {
            let by_beam = Seq::new(
                h.beam_width as nat,
                |w: int|
                    successors(
                        self.empty_tone_id,
                        h@,
                        w as usize,
                        start_t@[w],
                        u@[w],
                        h.log_prob_history@[w],
                    ),
            );
            assert(proposed@.map_values(|part: Vec<DecodeResult>| part@) =~= by_beam);
        }
        reduce(&candidates, h.max_beam_width)
    }

    fn beam_search_kernel_internal<'a>(
        &self,
        h: &BeamSearchDecodingTable<'a>,
        w: usize,
        t: usize,
        u: usize,
        log_prob_history: i32,
    ) -> (results: Vec<DecodeResult>) {
        match h.decode_beam_at(w, t) {
            None => {
                let mut results: Vec<DecodeResult> = Vec::with_capacity(1);
                results.push(
                    DecodeResult {
                        prediction: self.empty_tone_id,
                        log_prob: log_prob_history,
                        next_t: t,
                        next_u: u,
                        is_finished: true,
                        parent_branch: w,
                    },
                );
                assert(results@ =~= successors(self.empty_tone_id, h@, w, t, u, log_prob_history));
                results
            },
            Some(choices) => {
                let mut results: Vec<DecodeResult> = Vec::with_capacity(choices.len());
                let mut i: usize = 0;
                while i < choices.len()
                    invariant
                        i <= choices.len(),
                        t < h.input_length,
                        u < usize::MAX,
                        results.len() == i,
                        forall|j: int| 0 <= j < i ==> results[j] == successor(w, t, u, choices[j]),
                    decreases choices.len() - i,
                {
                    let v: DecodingTable = choices[i];
                    results.push(
                        DecodeResult {
                            prediction: v.tone_class,
                            log_prob: v.log_prob,
                            next_t: if v.is_finished {
                                t
                            } else {
                                t + 1
                            },
                            next_u: if v.is_finished {
                                u
                            } else {
                                u + 1
                            },
                            is_finished: v.is_finished,
                            parent_branch: w,
                        },
                    );
                    i += 1;
                }
                assert(results@ =~= successors(self.empty_tone_id, h@, w, t, u, log_prob_history));
                results
            },
        }
    }
}

/// What holds of everything that every beam proposes holds of every entry
/// that the row keeps.
pub proof fn lemma_row_all(
    empty_tone_id: i32,
    h: DecodingRow,
    start_t: Seq<usize>,
    u: Seq<usize>,
    p: spec_fn(DecodeResult) -> bool,
)
    requires
        row_candidates(empty_tone_id, h, start_t, u).len() > 0 || h.max_beam_width == 0,
        forall|w: int|
            0 <= w < h.beam_width ==> all_of(
                #[trigger] successors(
                    empty_tone_id,
                    h,
                    w as usize,
                    start_t[w],
                    u[w],
                    h.log_prob_history[w],
                ),
                p,
            ),
    ensures
        all_of(
            reduced(row_candidates(empty_tone_id, h, start_t, u), h.max_beam_width as nat),
            p,
        ),
{
    let by_beam = Seq::new(
        h.beam_width as nat,
        |w: int| successors(empty_tone_id, h, w as usize, start_t[w], u[w], h.log_prob_history[w]),
    );
    assert forall|w: int| 0 <= w < by_beam.len() implies all_of(#[trigger] by_beam[w], p) by {
        assert(all_of(
            successors(empty_tone_id, h, w as usize, start_t[w], u[w], h.log_prob_history[w]),
            p,
        ));
    }
    lemma_flatten_all(by_beam, p);
    lemma_reduced_all(row_candidates(empty_tone_id, h, start_t, u), h.max_beam_width as nat, p);
}

/// Every entry that a row keeps can be written into buffers of signed
/// integers, where the positions it started from can, and every beam that
/// moves on has room to.
pub proof fn lemma_row_fits_buffers(
    empty_tone_id: i32,
    h: DecodingRow,
    start_t: Seq<usize>,
    u: Seq<usize>,
)
    requires
        row_candidates(empty_tone_id, h, start_t, u).len() > 0 || h.max_beam_width == 0,
        h.beam_width <= i32::MAX,
        h.input_length <= i32::MAX,
        start_t.len() == h.beam_width,
        u.len() == h.beam_width,
        forall|w: int| 0 <= w < h.beam_width ==> #[trigger] start_t[w] <= i32::MAX,
        forall|w: int| 0 <= w < h.beam_width ==> #[trigger] u[w] <= i32::MAX,
        forall|w: int|
            0 <= w < h.beam_width && advances(h, w, start_t[w]) ==> (#[trigger] u[w]) < i32::MAX,
    ensures
        all_of(
            reduced(row_candidates(empty_tone_id, h, start_t, u), h.max_beam_width as nat),
            fits_buffers(),
        ),
{
    assert forall|w: int| 0 <= w < h.beam_width implies all_of(
        #[trigger] successors(empty_tone_id, h, w as usize, start_t[w], u[w], h.log_prob_history[w]),
        fits_buffers(),
    ) by {
        assert(start_t[w] <= i32::MAX);
        assert(u[w] <= i32::MAX);
        if advances(h, w, start_t[w]) {
            assert(u[w] < i32::MAX);
        }
    }
    lemma_row_all(empty_tone_id, h, start_t, u, fits_buffers());
}

/// The test that a candidate is one of the successors of the beam that it
/// names as its parent.
pub open spec fn descends(
    empty_tone_id: i32,
    h: DecodingRow,
    start_t: Seq<usize>,
    u: Seq<usize>,
) -> spec_fn(DecodeResult) -> bool {
    |c: DecodeResult|
        c.parent_branch < h.beam_width && successors(
            empty_tone_id,
            h,
            c.parent_branch,
            start_t[c.parent_branch as int],
            u[c.parent_branch as int],
            h.log_prob_history[c.parent_branch as int],
        ).contains(c)
}

/// Every entry that a row keeps is a successor of the beam that it names as
/// its parent.
pub proof fn lemma_row_descends(
    empty_tone_id: i32,
    h: DecodingRow,
    start_t: Seq<usize>,
    u: Seq<usize>,
)
    requires
        row_candidates(empty_tone_id, h, start_t, u).len() > 0 || h.max_beam_width == 0,
    ensures
        all_of(
            reduced(row_candidates(empty_tone_id, h, start_t, u), h.max_beam_width as nat),
            descends(empty_tone_id, h, start_t, u),
        ),
{
    let p = descends(empty_tone_id, h, start_t, u);
    assert forall|w: int| 0 <= w < h.beam_width implies all_of(
        #[trigger] successors(empty_tone_id, h, w as usize, start_t[w], u[w], h.log_prob_history[w]),
        p,
    ) by {
        let proposed = successors(
            empty_tone_id,
            h,
            w as usize,
            start_t[w],
            u[w],
            h.log_prob_history[w],
        );
        assert forall|i: int| 0 <= i < proposed.len() implies p(#[trigger] proposed[i]) by {
            assert(proposed[i].parent_branch == w);
            assert(proposed.contains(proposed[i]));
        }
    }
    lemma_row_all(empty_tone_id, h, start_t, u, p);
}

/// A beam that stands at a frame of the input and is not finished proposes
/// one successor for every class, none of them finished, each one frame and
/// one output unit further; any other beam is carried forward as it is.
pub proof fn lemma_successors_step(
    empty_tone_id: i32,
    h: DecodingRow,
    w: usize,
    t: usize,
    u: usize,
    log_prob_history: i32,
)
    requires
        t < usize::MAX,
        u < usize::MAX,
    ensures
        all_of(successors(empty_tone_id, h, w, t, u, log_prob_history), steps_from(t, u)),
        h.branches(w as int, t) is Some ==> successors(
            empty_tone_id,
            h,
            w,
            t,
            u,
            log_prob_history,
        ).len() == h.tone_class_size,
        h.branches(w as int, t) is None ==> successors(empty_tone_id, h, w, t, u, log_prob_history)
            == seq![pass_through(empty_tone_id, w, t, u, log_prob_history)],
{
}

/// A row has a candidate as soon as one of its beams is carried forward, or
/// there is a beam and a class.
pub proof fn lemma_row_has_candidates(
    empty_tone_id: i32,
    h: DecodingRow,
    start_t: Seq<usize>,
    u: Seq<usize>,
    w: int,
)
    requires
        0 <= w < h.beam_width,
        h.branches(w, start_t[w]) is None || h.tone_class_size > 0,
    ensures
        row_candidates(empty_tone_id, h, start_t, u).len() > 0,
{
    let by_beam = Seq::new(
        h.beam_width as nat,
        |w: int| successors(empty_tone_id, h, w as usize, start_t[w], u[w], h.log_prob_history[w]),
    );
    by_beam.lemma_flatten_length_ge_single_element_length(w);
    by_beam.lemma_flatten_and_flatten_alt_are_equivalent();
}

} // verus!
