//! The duration-class beam expander: at every input frame a beam picks a
//! duration class, and the durations picked so far add up to the position it
//! has reached in the output.
use crate::batch::lemma_positions_of_row;
use crate::batch::non_negative;
use crate::batch::lemma_row_bounds;
use crate::batch::positions;
use crate::batch::row_of;
use crate::batch::to_positions;
use crate::batch::BatchView;
use crate::parallel::par_map_range;
use crate::rank::all_of;
use crate::rank::dedup;
use crate::rank::deduped;
use crate::rank::fill;
use crate::rank::filled;
use crate::rank::gather;
use crate::rank::lemma_deduped_all;
use crate::rank::lemma_flatten_all;
use crate::rank::lemma_flatten_uniform_len;
use crate::rank::lemma_ranked_all;
use crate::rank::lemma_survivors_nonempty;
use crate::rank::rank;
use crate::rank::ranked;
use crate::rank::Candidate;
use vstd::prelude::*;

verus! {

/// The band around the diagonal that a beam has to stay in, and how close to
/// the diagonal a candidate has to be to count as lying on it.
///
/// The diagonal is the straight alignment: after `n` of `input_length` frames
/// it stands at `output_length * n / input_length` output frames.
#[derive(Debug, PartialEq, Eq, Structural, Copy, Clone)]
pub struct Band {
    /// How far below the diagonal the band reaches, in hundredths of the
    /// output length.
    pub lower_percent: u8,
    /// How far above the diagonal the band reaches, in hundredths of the
    /// output length.
    pub upper_percent: u8,
    /// How far, in output frames, a candidate may stand from the diagonal and
    /// still count as lying on it.
    pub tolerance: u16,
}

impl Band {
    /// The band that a decoder has unless it is given another: a twentieth of
    /// the output length below the diagonal, a tenth above it, and a
    /// tolerance of five output frames.
    pub open spec fn standard_band() -> Band {
        Band { lower_percent: 5, upper_percent: 10, tolerance: 5 }
    }

    /// The band that a decoder has unless it is given another.
    pub fn standard() -> (band: Band)
        ensures
            band == Band::standard_band(),
    {
        Band { lower_percent: 5, upper_percent: 10, tolerance: 5 }
    }
}

/// One admissible duration class of a beam at a frame.
#[derive(Debug, PartialEq, Eq, Structural, Copy, Clone)]
pub struct DecodingTable {
    pub log_prob: i32,
    pub duration_class: i32,
    pub duration: i32,
    pub total_duration: i32,
    pub is_finished: bool,
}

/// A successor that a beam proposes for the next step.
#[derive(Debug, PartialEq, Eq, Structural, Copy, Clone)]
pub struct DecodeResult {
    pub prediction: i32,
    pub log_prob: i32,
    pub next_t: usize,
    pub next_u: usize,
    pub is_finished: bool,
    pub parent_branch: usize,
    pub total_duration: i32,
}

impl Candidate for DecodeResult {
    type Outcome = (i32, i32, usize, usize, bool, i32);

    open spec fn score(&self) -> i32 {
        self.log_prob
    }

    open spec fn outcome(&self) -> (i32, i32, usize, usize, bool, i32) {
        (
            self.prediction,
            self.log_prob,
            self.next_t,
            self.next_u,
            self.is_finished,
            self.total_duration,
        )
    }

    fn rank_key(&self) -> (key: i32) {
        self.log_prob
    }

    fn eq_ignore_parent(&self, other: &DecodeResult) -> (same: bool) {
        self.prediction == other.prediction && self.log_prob == other.log_prob && self.next_t
            == other.next_t && self.next_u == other.next_u && self.is_finished == other.is_finished
            && self.total_duration == other.total_duration
    }
}

/// What a decoding table holds: for every beam of one row the cumulative
/// score of each duration class, the score and the total duration it has
/// reached so far, and whether it is finished; the duration of each class;
/// and the lengths of the row's input and of the output it has to fill.
///
/// A score is an integer key: of two scores the larger is the better one.
/// `input[w * duration_class_size + c]` is the score that beam `w` has after
/// it picks class `c`.
pub struct DecodingRow {
    pub input: Seq<i32>,
    pub log_prob_history: Seq<i32>,
    pub is_finished: Seq<bool>,
    pub total_duration: Seq<i32>,
    pub duration_table: Seq<i32>,
    pub duration_class_size: usize,
    pub input_length: usize,
    pub output_length: usize,
    pub beam_width: usize,
    pub max_beam_width: usize,
}

impl DecodingRow {
    /// The buffers have the shape that the beam width and the number of
    /// classes ask for; class ids, lengths and every total duration that a
    /// beam can reach in one step are in the range of a signed integer.
    pub open spec fn wf(self) -> bool {
        &&& self.input.len() == self.beam_width * self.duration_class_size
        &&& self.log_prob_history.len() == self.beam_width
        &&& self.is_finished.len() == self.beam_width
        &&& self.total_duration.len() == self.beam_width
        &&& self.duration_table.len() == self.duration_class_size
        &&& self.duration_class_size <= i32::MAX
        &&& self.input_length <= i32::MAX
        &&& self.output_length <= i32::MAX
        &&& forall|w: int, c: int|
            0 <= w < self.beam_width && 0 <= c < self.duration_class_size ==> i32::MIN
                <= #[trigger] self.total_duration[w] + #[trigger] self.duration_table[c]
                <= i32::MAX
    }

    /// Whether `t` is a frame of the input.
    pub open spec fn defined_at(self, t: usize) -> bool {
        t < self.input_length
    }

    /// The least total duration admitted after frame `t`: the diagonal
    /// position `output_length * (t + 1) / input_length` less
    /// `lower_percent` hundredths of the output length, not below zero,
    /// rounded down.
    pub open spec fn lower_bound(self, t: usize, band: Band) -> int {
        if 100 * (t + 1) <= band.lower_percent * self.input_length {
            0
        } else {
            (self.output_length * (100 * (t + 1) - band.lower_percent * self.input_length)) / (100
                * self.input_length)
        }
    }

    /// The greatest total duration admitted after frame `t`: the diagonal
    /// position `output_length * (t + 1) / input_length` plus
    /// `upper_percent` hundredths of the output length, not above the output
    /// length, rounded down.
    pub open spec fn upper_bound(self, t: usize, band: Band) -> int {
        let widened = (self.output_length * (100 * (t + 1) + band.upper_percent
            * self.input_length)) / (100 * self.input_length);
        if widened < self.output_length {
            widened
        } else {
            self.output_length as int
        }
    }

    /// Whether a candidate lies on the diagonal: its total duration is within
    /// the tolerance of `output_length * next_t / input_length`.
    pub open spec fn on_diagonal(self, result: DecodeResult, band: Band) -> bool {
        &&& self.input_length > 0
        &&& -band.tolerance * self.input_length <= result.total_duration * self.input_length
            - self.output_length * result.next_t <= band.tolerance * self.input_length
    }

    /// The total duration that beam `w` reaches with class `class`.
    pub open spec fn total_with(self, w: int, class: int) -> int {
        self.total_duration[w] + self.duration_table[class]
    }

    /// Whether beam `w` may pick class `class` at frame `t`. In test mode it
    /// always may. Else the total duration it reaches has to lie in the band
    /// of the frame, and at the last frame it has to be the output length.
    pub open spec fn admissible(self, w: int, t: usize, class: int, settings: Settings) -> bool {
        settings.test_mode || (self.lower_bound(t, settings.band) <= self.total_with(w, class)
            <= self.upper_bound(t, settings.band) && (t + 1 == self.input_length
            ==> self.total_with(w, class) == self.output_length))
    }

    /// What class `class` means for beam `w` at frame `t`.
    pub open spec fn choice(self, w: int, t: usize, class: int) -> DecodingTable {
        DecodingTable {
            log_prob: self.input[w * self.duration_class_size + class],
            duration_class: class as i32,
            duration: self.duration_table[class],
            total_duration: self.total_with(w, class) as i32,
            is_finished: t + 1 == self.input_length,
        }
    }

    /// The admissible classes of beam `w` at frame `t` among the first
    /// `classes` classes, in the order of their ids.
    pub open spec fn choices(self, w: int, t: usize, settings: Settings, classes: nat) -> Seq<
        DecodingTable,
    >
        decreases classes,
    {
        if classes == 0 {
            Seq::empty()
        } else {
            let before = self.choices(w, t, settings, (classes - 1) as nat);
            if self.admissible(w, t, classes - 1, settings) {
                before.push(self.choice(w, t, classes - 1))
            } else {
                before
            }
        }
    }

    /// The admissible classes of beam `w` at frame `t`, or `None` where the
    /// beam has no successor: past the input, or finished.
    pub open spec fn branches(self, w: int, t: usize, settings: Settings) -> Option<
        Seq<DecodingTable>,
    > {
        if !self.defined_at(t) || self.is_finished[w] {
            None
        } else {
            Some(self.choices(w, t, settings, self.duration_class_size as nat))
        }
    }
}

/// A read-only window over the buffers of one row.
pub struct BeamSearchDecodingTable<'a> {
    pub input: &'a [i32],
    pub log_prob_history: &'a [i32],
    pub is_finished: &'a [bool],
    pub total_duration: &'a [i32],
    pub duration_table: &'a [i32],
    pub duration_class_size: usize,
    pub input_length: usize,
    pub output_length: usize,
    pub beam_width: usize,
    pub max_beam_width: usize,
}

impl<'a> View for BeamSearchDecodingTable<'a> {
    type V = DecodingRow;

    open spec fn view(&self) -> DecodingRow {
        DecodingRow {
            input: self.input@,
            log_prob_history: self.log_prob_history@,
            is_finished: self.is_finished@,
            total_duration: self.total_duration@,
            duration_table: self.duration_table@,
            duration_class_size: self.duration_class_size,
            input_length: self.input_length,
            output_length: self.output_length,
            beam_width: self.beam_width,
            max_beam_width: self.max_beam_width,
        }
    }
}

/// The product of two numbers below `2^31` and `2^40` is below `2^71`.
proof fn lemma_product_bounded(x: int, y: int)
    requires
        0 <= x <= i32::MAX,
        0 <= y <= 0x100_0000_0000,
    ensures
        0 <= x * y <= 0x80_0000_0000_0000_0000,
{
    assert(0 <= x * y <= 0x80_0000_0000_0000_0000) by (nonlinear_arith)
        requires
            0 <= x <= 0x8000_0000,
            0 <= y <= 0x100_0000_0000,
    ;
}

/// `length * part / whole` rounded down stays at or below `length * factor`
/// where `part` is at most `factor` times `whole`.
proof fn lemma_share_bounded(length: int, part: int, whole: int, factor: int)
    requires
        0 <= length,
        0 <= part <= factor * whole,
        0 < whole,
        0 <= factor,
    ensures
        0 <= (length * part) / whole <= length * factor,
{
    assert(length * part <= (length * factor) * whole) by (nonlinear_arith)
        requires
            0 <= length,
            0 <= part <= factor * whole,
    ;
    assert(0 <= length * part) by (nonlinear_arith)
        requires
            0 <= length,
            0 <= part,
    ;
    assert((length * factor) * whole == whole * (length * factor)) by (nonlinear_arith);
    vstd::arithmetic::div_mod::lemma_div_is_ordered(length * part, (length * factor) * whole, whole);
    vstd::arithmetic::div_mod::lemma_div_multiples_vanish(length * factor, whole);
    vstd::arithmetic::div_mod::lemma_div_pos_is_pos(length * part, whole);
}

impl<'a> BeamSearchDecodingTable<'a> {
    /// The buffers have the shape and the ranges that the view asks for.
    pub open spec fn wf(&self) -> bool {
        self@.wf()
    }

    /// Binds the buffers of one row.
    pub fn new(
        input: &'a [i32],
        log_prob_history: &'a [i32],
        is_finished: &'a [bool],
        total_duration: &'a [i32],
        duration_table: &'a [i32],
        duration_class_size: usize,
        input_length: usize,
        output_length: usize,
        beam_width: usize,
        max_beam_width: usize,
    ) -> (table: BeamSearchDecodingTable<'a>)
        requires
            (DecodingRow {
                input: input@,
                log_prob_history: log_prob_history@,
                is_finished: is_finished@,
                total_duration: total_duration@,
                duration_table: duration_table@,
                duration_class_size,
                input_length,
                output_length,
                beam_width,
                max_beam_width,
            }).wf(),
        ensures
            table.wf(),
            table@ == (DecodingRow {
                input: input@,
                log_prob_history: log_prob_history@,
                is_finished: is_finished@,
                total_duration: total_duration@,
                duration_table: duration_table@,
                duration_class_size,
                input_length,
                output_length,
                beam_width,
                max_beam_width,
            }),
    {
        BeamSearchDecodingTable {
            input,
            log_prob_history,
            is_finished,
            total_duration,
            duration_table,
            duration_class_size,
            input_length,
            output_length,
            beam_width,
            max_beam_width,
        }
    }

    /// The scores of the classes of beam `w`.
    pub fn beam_branch(&self, w: usize) -> (branch: &'a [i32])
        requires
            self.wf(),
            w < self.beam_width,
        ensures
            branch@ == row_of(self.input@, self.duration_class_size as int, w as int),
            branch@.len() == self.duration_class_size,
    {
        let total: usize = self.input.len();
        proof {
            lemma_row_bounds(
                self.beam_width as int,
                self.duration_class_size as int,
                w as int,
            );
        }
        let size: usize = self.duration_class_size;
        let start: usize = w * size;
        &self.input[start..start + size]
    }

    /// Whether `t` is a frame of the input.
    pub fn is_defined_at(&self, t: usize) -> (defined: bool)
        ensures
            defined == self@.defined_at(t),
    {
        t < self.input_length
    }

    /// The least and the greatest total duration admitted after frame `t`.
    /// The quotients are taken in whole numbers, so nothing is lost to
    /// rounding before the last step.
    pub fn total_duration_bounds(&self, t: usize, band: Band) -> (bounds: (i32, i32))
        requires
            self.wf(),
            t < self.input_length,
        ensures
            bounds.0 == self@.lower_bound(t, band),
            bounds.1 == self@.upper_bound(t, band),
            0 <= bounds.0,
            bounds.1 <= self.output_length,
    {
        let length: u128 = self.output_length as u128;
        let frames: u128 = self.input_length as u128;
        let frame: u128 = t as u128 + 1;
        assert(0 <= band.lower_percent * frames <= 0x80_0000_0000 && 0 <= band.upper_percent
            * frames <= 0x80_0000_0000) by (nonlinear_arith)
            requires
                0 <= band.lower_percent <= 0xff,
                0 <= band.upper_percent <= 0xff,
                0 <= frames <= 0x8000_0000,
        ;
        assert(band.upper_percent * frames <= 3 * (100 * frames)) by (nonlinear_arith)
            requires
                0 <= band.upper_percent <= 0xff,
                0 <= frames,
        ;
        let below: u128 = band.lower_percent as u128 * frames;
        let lower: i32 = if 100 * frame <= below {
            0
        } else {
            let part: u128 = 100 * frame - below;
            proof {
                lemma_product_bounded(length as int, part as int);
                lemma_share_bounded(length as int, part as int, 100 * frames as int, 1);
            }
            ((length * part) / (100 * frames)) as i32
        };
        let part: u128 = 100 * frame + band.upper_percent as u128 * frames;
        proof {
            lemma_product_bounded(length as int, part as int);
            lemma_share_bounded(length as int, part as int, 100 * frames as int, 4);
        }
        let widened: u128 = (length * part) / (100 * frames);
        let upper: i32 = if widened < length {
            widened as i32
        } else {
            length as i32
        };
        (lower, upper)
    }

    /// Whether `result` lies on the diagonal. Both sides are multiplied by the
    /// input length, so that no quotient has to be taken.
    pub fn on_diagonal(&self, result: &DecodeResult, band: Band) -> (on: bool)
        requires
            self.wf(),
        ensures
            on == self@.on_diagonal(*result, band),
    {
        if self.input_length == 0 {
            return false;
        }
        let frames: i128 = self.input_length as i128;
        let length: i128 = self.output_length as i128;
        let total: i128 = result.total_duration as i128;
        let frame: i128 = result.next_t as i128;
        assert(-0x4000_0000_0000_0000 <= total * frames <= 0x4000_0000_0000_0000)
            by (nonlinear_arith)
            requires
                -0x8000_0000 <= total <= 0x8000_0000,
                0 <= frames <= 0x8000_0000,
        ;
        assert(0 <= length * frame <= 0x8000_0000_0000_0000_0000_0000) by (nonlinear_arith)
            requires
                0 <= length <= 0x8000_0000,
                0 <= frame <= 0x1_0000_0000_0000_0000,
        ;
        let reached: i128 = total * frames;
        let ideal: i128 = length * frame;
        let tolerance: i128 = band.tolerance as i128;
        assert(0 <= tolerance * frames <= 0x8000_0000_0000) by (nonlinear_arith)
            requires
                0 <= tolerance <= 0xffff,
                0 <= frames <= 0x8000_0000,
        ;
        assert((-tolerance) * frames == -(tolerance * frames)) by (nonlinear_arith);
        let slack: i128 = tolerance * frames;
        let off: i128 = reached - ideal;
        -slack <= off && off <= slack
    }

    /// Lists the admissible classes of beam `w` at frame `t`, or returns `None`
    /// where the beam has no successor.
    ///
    /// Every class listed is finished exactly at the last frame. Outside test
    /// mode the total duration of every class listed lies in the band of the
    /// frame, so it is no more than the output length, and at the last frame
    /// it is the output length.
    pub fn decode_beam_at(&self, w: usize, t: usize, test_mode: bool, band: Band) -> (choices:
        Option<Vec<DecodingTable>>)
        requires
            self.wf(),
            w < self.beam_width,
        ensures
            choices is Some <==> self@.branches(w as int, t, settings_of(test_mode, band))
                is Some,
            choices is Some ==> choices->0@ == self@.branches(
                w as int,
                t,
                settings_of(test_mode, band),
            )->0,
            choices is Some ==> forall|i: int|
                0 <= i < choices->0@.len() ==> in_band(
                    self@,
                    t,
                    settings_of(test_mode, band),
                    #[trigger] choices->0@[i],
                ),
    {
        proof {
            let settings = settings_of(test_mode, band);
            let listed = self@.choices(w as int, t, settings, self.duration_class_size as nat);
            if t < self.input_length {
                assert forall|i: int| 0 <= i < listed.len() implies in_band(
                    self@,
                    t,
                    settings,
                    #[trigger] listed[i],
                ) by {
                    lemma_choices_in_band(self@, w as int, t, settings, i);
                }
            }
        }
        if !self.is_defined_at(t) {
            return None;
        }
        if self.is_finished[w] {
            return None;
        }
        let branch = self.beam_branch(w);
        let (lower_bound, upper_bound) = self.total_duration_bounds(t, band);
        let at_last_frame: bool = t + 1 == self.input_length;
        let mut choices: Vec<DecodingTable> = Vec::new();
        let mut i: usize = 0;
        while i < self.duration_class_size
            invariant
                self.wf(),
                w < self.beam_width,
                t < self.input_length,
                i <= self.duration_class_size,
                branch@ == row_of(self.input@, self.duration_class_size as int, w as int),
                branch@.len() == self.duration_class_size,
                lower_bound == self@.lower_bound(t, band),
                upper_bound == self@.upper_bound(t, band),
                at_last_frame == (t + 1 == self.input_length),
                choices@ == self@.choices(w as int, t, settings_of(test_mode, band), i as nat),
            decreases self.duration_class_size - i,
        {
            let duration: i32 = self.duration_table[i];
            assert(i32::MIN <= self.total_duration@[w as int] + self.duration_table@[i as int]
                <= i32::MAX);
            let total_duration: i32 = self.total_duration[w] + duration;
            proof {
                lemma_row_bounds(
                    self.beam_width as int,
                    self.duration_class_size as int,
                    w as int,
                );
            }
            if !test_mode && (total_duration < lower_bound || total_duration > upper_bound) {
            } else if at_last_frame {
                if !test_mode && total_duration != self.output_length as i32 {
                } else {
                    choices.push(
                        DecodingTable {
                            log_prob: branch[i],
                            duration_class: i as i32,
                            duration,
                            total_duration,
                            is_finished: true,
                        },
                    );
                }
            } else {
                choices.push(
                    DecodingTable {
                        log_prob: branch[i],
                        duration_class: i as i32,
                        duration,
                        total_duration,
                        is_finished: false,
                    },
                );
            }
            i += 1;
        }
        Some(choices)
    }
}

/// The candidate that carries a beam without successor forward: its state
/// as it is, marked finished, under the class id that stands for no duration.
pub open spec fn pass_through(
    zero_duration_id: i32,
    w: usize,
    t: usize,
    u: usize,
    log_prob_history: i32,
    total_duration: i32,
) -> DecodeResult {
    DecodeResult {
        prediction: zero_duration_id,
        log_prob: log_prob_history,
        next_t: t,
        next_u: u,
        is_finished: true,
        parent_branch: w,
        total_duration,
    }
}

/// The successor of beam `w`, at frame `t` and output index `u`, for an
/// admissible class. A class picked at the last frame finishes the beam where
/// it stands; at any other frame it advances the frame and the output index.
pub open spec fn successor(w: usize, t: usize, u: usize, choice: DecodingTable) -> DecodeResult {
    DecodeResult {
        prediction: choice.duration_class,
        log_prob: choice.log_prob,
        next_t: if choice.is_finished {
            t
        } else {
            (t + 1) as usize
        },
        next_u: if choice.is_finished {
            u
        } else {
            (u + 1) as usize
        },
        is_finished: choice.is_finished,
        parent_branch: w,
        total_duration: choice.total_duration,
    }
}

/// Whether beam `w` moves on from frame `t`: it stands at a frame of the input
/// before the last and is not finished, so that what it picks advances its
/// output index.
pub open spec fn advances(h: DecodingRow, w: int, t: usize) -> bool {
    t < h.input_length && !h.is_finished[w] && t + 1 != h.input_length
}

/// Whether an admitted class is finished exactly at the last frame and,
/// outside test mode, has a total duration in the band of frame `t`: no more
/// than the output length, and the output length at the last frame.
pub open spec fn in_band(h: DecodingRow, t: usize, settings: Settings, choice: DecodingTable) -> bool {
    &&& choice.is_finished == (t + 1 == h.input_length)
    &&& !settings.test_mode ==> {
        &&& h.lower_bound(t, settings.band) <= choice.total_duration <= h.upper_bound(
            t,
            settings.band,
        )
        &&& choice.total_duration <= h.output_length
        &&& t + 1 == h.input_length ==> choice.total_duration == h.output_length
    }
}

/// The settings of a decoder that the candidates depend on.
pub struct Settings {
    pub zero_duration_id: i32,
    pub test_mode: bool,
    pub band: Band,
}

/// The settings under which the classes of a beam are admitted. The class id
/// of a beam that is carried forward plays no part in it.
pub open spec fn settings_of(test_mode: bool, band: Band) -> Settings {
    Settings { zero_duration_id: 0, test_mode, band }
}

/// Which classes a beam may pick depends on the test mode and the band only.
pub proof fn lemma_choices_ignore_id(
    h: DecodingRow,
    w: int,
    t: usize,
    settings: Settings,
    classes: nat,
)
    ensures
        h.choices(w, t, settings, classes) == h.choices(
            w,
            t,
            settings_of(settings.test_mode, settings.band),
            classes,
        ),
    decreases classes,
{
    if classes > 0 {
        lemma_choices_ignore_id(h, w, t, settings, (classes - 1) as nat);
    }
}

/// All that beam `w` proposes: one pass-through candidate where it has no
/// successor, else one successor for every admissible class, in the order of
/// the class ids.
pub open spec fn successors(
    settings: Settings,
    h: DecodingRow,
    w: usize,
    t: usize,
    u: usize,
    log_prob_history: i32,
) -> Seq<DecodeResult> {
    match h.branches(w as int, t, settings) {
        None => seq![
            pass_through(
                settings.zero_duration_id,
                w,
                t,
                u,
                log_prob_history,
                h.total_duration[w as int],
            ),
        ],
        Some(choices) => choices.map_values(|choice: DecodingTable| successor(w, t, u, choice)),
    }
}

/// The candidates of a row: what beam 0 proposes, then beam 1, and so on.
pub open spec fn row_candidates(
    settings: Settings,
    h: DecodingRow,
    start_t: Seq<usize>,
    u: Seq<usize>,
) -> Seq<DecodeResult> {
    Seq::new(
        h.beam_width as nat,
        |w: int| successors(settings, h, w as usize, start_t[w], u[w], h.log_prob_history[w]),
    ).flatten()
}

/// The first entry of `s` that lies on the diagonal of `h`, if there is one.
pub open spec fn first_on_diagonal(h: DecodingRow, band: Band, s: Seq<DecodeResult>) -> Option<
    DecodeResult,
>
    decreases s.len(),
{
    if s.len() == 0 {
        None
    } else {
        match first_on_diagonal(h, band, s.drop_last()) {
            Some(found) => Some(found),
            None => if h.on_diagonal(s.last(), band) {
                Some(s.last())
            } else {
                None
            },
        }
    }
}

/// The diagonal candidate that a row is owed a slot for: outside test mode
/// the best survivor that lies on the diagonal.
pub open spec fn diagonal_candidate(settings: Settings, h: DecodingRow, survivors: Seq<
    DecodeResult,
>) -> Option<DecodeResult> {
    if settings.test_mode {
        None
    } else {
        first_on_diagonal(h, settings.band, survivors)
    }
}

/// What a row keeps of its candidates: they are ranked and repeats dropped;
/// the survivors fill the row to capacity; and where a survivor lies on the
/// diagonal, the best such survivor takes the last slot.
pub open spec fn kept(settings: Settings, h: DecodingRow, candidates: Seq<DecodeResult>) -> Seq<
    DecodeResult,
> {
    let survivors = deduped(ranked(candidates));
    match diagonal_candidate(settings, h, survivors) {
        Some(diagonal) => if h.max_beam_width >= 1 {
            filled(survivors, (h.max_beam_width - 1) as nat).push(diagonal)
        } else {
            filled(survivors, 0)
        },
        None => filled(survivors, h.max_beam_width as nat),
    }
}

/// Whether a row can be searched: the per-beam positions have the width of
/// the table, the output index of no beam that moves on is at the end of its
/// range, and some beam proposes a candidate.
pub open spec fn row_ready(
    settings: Settings,
    h: DecodingRow,
    start_t: Seq<usize>,
    u: Seq<usize>,
) -> bool {
    &&& h.wf()
    &&& start_t.len() == h.beam_width
    &&& u.len() == h.beam_width
    &&& forall|w: int| 0 <= w < u.len() && advances(h, w, start_t[w]) ==> #[trigger] u[w] < usize::MAX
    &&& row_candidates(settings, h, start_t, u).len() > 0
}

/// The inputs of one step for a whole batch, row after row in flat buffers.
/// The duration of each class is the same for every row.
pub struct DecodingBatch {
    pub h: Seq<i32>,
    pub log_prob_history: Seq<i32>,
    pub is_finished: Seq<bool>,
    pub total_duration: Seq<i32>,
    pub duration_table: Seq<i32>,
    pub t: Seq<i32>,
    pub u: Seq<i32>,
    pub input_length: Seq<i32>,
    pub output_length: Seq<i32>,
    pub duration_class_size: usize,
    pub batch_size: int,
    pub beam_width: int,
    pub max_beam_width: int,
}

impl DecodingBatch {
    /// The buffers have the shape that the batch size, the beam width and the
    /// number of classes ask for; no length and no position is negative;
    /// every beam that moves on has room to; and every total duration that a
    /// beam can reach in one step is in the range of a signed integer.
    pub open spec fn wf(self) -> bool {
        &&& 0 <= self.batch_size <= i32::MAX
        &&& 0 <= self.beam_width <= i32::MAX
        &&& 0 <= self.max_beam_width <= i32::MAX
        &&& self.duration_class_size <= i32::MAX
        &&& self.h.len() == self.batch_size * (self.beam_width * self.duration_class_size)
        &&& self.log_prob_history.len() == self.batch_size * self.beam_width
        &&& self.is_finished.len() == self.batch_size * self.beam_width
        &&& self.total_duration.len() == self.batch_size * self.beam_width
        &&& self.t.len() == self.batch_size * self.beam_width
        &&& self.u.len() == self.batch_size * self.beam_width
        &&& self.duration_table.len() == self.duration_class_size
        &&& self.input_length.len() == self.batch_size
        &&& self.output_length.len() == self.batch_size
        &&& forall|b: int| 0 <= b < self.batch_size ==> 0 <= #[trigger] self.input_length[b]
        &&& forall|b: int| 0 <= b < self.batch_size ==> 0 <= #[trigger] self.output_length[b]
        &&& non_negative(self.t)
        &&& non_negative(self.u)
        &&& forall|b: int| 0 <= b < self.batch_size ==> #[trigger] self.room_to_advance(b)
        &&& forall|k: int, c: int|
            0 <= k < self.total_duration.len() && 0 <= c < self.duration_class_size ==> i32::MIN
                <= #[trigger] self.total_duration[k] + #[trigger] self.duration_table[c]
                <= i32::MAX
    }

    /// Whether every beam of row `b` that moves on can have its output index
    /// advanced by one and written back as a signed integer.
    pub open spec fn room_to_advance(self, b: int) -> bool {
        forall|w: int|
            0 <= w < self.beam_width && advances(self.row(b), w, self.start_t(b)[w]) ==> (
            #[trigger] self.start_u(b)[w]) < i32::MAX
    }

    /// The table of row `b`.
    pub open spec fn row(self, b: int) -> DecodingRow {
        DecodingRow {
            input: row_of(self.h, self.beam_width * self.duration_class_size, b),
            log_prob_history: row_of(self.log_prob_history, self.beam_width, b),
            is_finished: row_of(self.is_finished, self.beam_width, b),
            total_duration: row_of(self.total_duration, self.beam_width, b),
            duration_table: self.duration_table,
            duration_class_size: self.duration_class_size,
            input_length: self.input_length[b] as usize,
            output_length: self.output_length[b] as usize,
            beam_width: self.beam_width as usize,
            max_beam_width: self.max_beam_width as usize,
        }
    }

    /// The frame that each beam of row `b` stands at.
    pub open spec fn start_t(self, b: int) -> Seq<usize> {
        positions(row_of(self.t, self.beam_width, b))
    }

    /// The output index that each beam of row `b` stands at.
    pub open spec fn start_u(self, b: int) -> Seq<usize> {
        positions(row_of(self.u, self.beam_width, b))
    }

    /// Whether every row has a candidate, so that every row can be searched.
    pub open spec fn searchable(self, settings: Settings) -> bool {
        forall|b: int|
            0 <= b < self.batch_size ==> (#[trigger] row_candidates(
                settings,
                self.row(b),
                self.start_t(b),
                self.start_u(b),
            )).len() > 0
    }

    /// What row `b` keeps after one step.
    pub open spec fn decoded_row(self, settings: Settings, b: int) -> Seq<DecodeResult> {
        kept(
            settings,
            self.row(b),
            row_candidates(settings, self.row(b), self.start_t(b), self.start_u(b)),
        )
    }

    /// What the rows keep after one step, row after row.
    pub open spec fn decoded(self, settings: Settings) -> Seq<DecodeResult> {
        Seq::new(self.batch_size as nat, |b: int| self.decoded_row(settings, b)).flatten()
    }
}

/// The class ids of `results`, entry by entry.
pub open spec fn predictions(results: Seq<DecodeResult>) -> Seq<i32> {
    Seq::new(results.len(), |i: int| results[i].prediction)
}

/// The scores of `results`, entry by entry.
pub open spec fn scores_of(results: Seq<DecodeResult>) -> Seq<i32> {
    Seq::new(results.len(), |i: int| results[i].log_prob)
}

/// The next frames of `results`, entry by entry.
pub open spec fn next_frames(results: Seq<DecodeResult>) -> Seq<i32> {
    Seq::new(results.len(), |i: int| results[i].next_t as i32)
}

/// The next output indices of `results`, entry by entry.
pub open spec fn next_outputs(results: Seq<DecodeResult>) -> Seq<i32> {
    Seq::new(results.len(), |i: int| results[i].next_u as i32)
}

/// The finished flags of `results`, entry by entry.
pub open spec fn finished_flags(results: Seq<DecodeResult>) -> Seq<bool> {
    Seq::new(results.len(), |i: int| results[i].is_finished)
}

/// The total durations of `results`, entry by entry.
pub open spec fn total_durations(results: Seq<DecodeResult>) -> Seq<i32> {
    Seq::new(results.len(), |i: int| results[i].total_duration)
}

/// The beams that `results` came from, entry by entry.
pub open spec fn parent_branches(results: Seq<DecodeResult>) -> Seq<i32> {
    Seq::new(results.len(), |i: int| results[i].parent_branch as i32)
}

/// The test that the positions and the parent of a candidate can be written
/// as signed integers without loss.
pub open spec fn fits_buffers() -> spec_fn(DecodeResult) -> bool {
    |c: DecodeResult| c.next_t <= i32::MAX && c.next_u <= i32::MAX && c.parent_branch <= i32::MAX
}

/// The test that a candidate has used no more than `output_length` output
/// frames.
pub open spec fn within_budget(output_length: usize) -> spec_fn(DecodeResult) -> bool {
    |c: DecodeResult| c.total_duration <= output_length
}

/// The test that a candidate ends its beam at frame `t` with exactly
/// `output_length` output frames used.
pub open spec fn completes_at(t: usize, output_length: usize) -> spec_fn(DecodeResult) -> bool {
    |c: DecodeResult| c.is_finished && c.next_t == t && c.total_duration == output_length
}

/// The test that a candidate has used at least `total_duration` output
/// frames.
pub open spec fn at_least(total_duration: i32) -> spec_fn(DecodeResult) -> bool {
    |c: DecodeResult| c.total_duration >= total_duration
}

/// The batch that the flat buffers of one step describe.
pub open spec fn batch_of(
    h: Seq<i32>,
    log_prob_history: Seq<i32>,
    is_finished: Seq<bool>,
    total_duration: Seq<i32>,
    duration_table: Seq<i32>,
    t: Seq<i32>,
    u: Seq<i32>,
    input_length: Seq<i32>,
    output_length: Seq<i32>,
    duration_class_size: usize,
    batch_size: i32,
    beam_width: i32,
    max_beam_width: i32,
) -> DecodingBatch {
    DecodingBatch {
        h,
        log_prob_history,
        is_finished,
        total_duration,
        duration_table,
        t,
        u,
        input_length,
        output_length,
        duration_class_size,
        batch_size: batch_size as int,
        beam_width: beam_width as int,
        max_beam_width: max_beam_width as int,
    }
}

/// Whether the output buffers hold `results` column by column: each buffer
/// one field of every result, in the order of the results.
pub open spec fn decode_writes(
    results: Seq<DecodeResult>,
    prediction: Seq<i32>,
    log_probs: Seq<i32>,
    next_t: Seq<i32>,
    next_u: Seq<i32>,
    next_is_finished: Seq<bool>,
    next_total_duration: Seq<i32>,
    beam_branch: Seq<i32>,
) -> bool {
    &&& prediction == predictions(results)
    &&& log_probs == scores_of(results)
    &&& next_t == next_frames(results)
    &&& next_u == next_outputs(results)
    &&& next_is_finished == finished_flags(results)
    &&& next_total_duration == total_durations(results)
    &&& beam_branch == parent_branches(results)
}

/// Every row of a well-formed batch has a well-formed table and positions of
/// the width of the table that can be advanced.
pub proof fn lemma_batch_row_wf(batch: DecodingBatch, b: int)
    requires
        batch.wf(),
        0 <= b < batch.batch_size,
    ensures
        batch.row(b).wf(),
        batch.start_t(b).len() == batch.beam_width,
        batch.start_u(b).len() == batch.beam_width,
        forall|w: int| 0 <= w < batch.beam_width ==> #[trigger] batch.start_t(b)[w] <= i32::MAX,
        forall|w: int| 0 <= w < batch.beam_width ==> #[trigger] batch.start_u(b)[w] <= i32::MAX,
        forall|w: int|
            0 <= w < batch.beam_width && advances(batch.row(b), w, batch.start_t(b)[w]) ==> (
            #[trigger] batch.start_u(b)[w]) < i32::MAX,
        batch.row(b).beam_width == batch.beam_width,
{
    assert(batch.room_to_advance(b));
    lemma_row_bounds(batch.batch_size, batch.beam_width, b);
    assert(0 <= batch.beam_width * batch.duration_class_size) by (nonlinear_arith)
        requires
            0 <= batch.beam_width,
            0 <= batch.duration_class_size,
    ;
    lemma_row_bounds(batch.batch_size, batch.beam_width * batch.duration_class_size, b);
    let row = batch.row(b);
    assert forall|w: int, c: int|
        0 <= w < row.beam_width && 0 <= c < row.duration_class_size implies i32::MIN
            <= #[trigger] row.total_duration[w] + #[trigger] row.duration_table[c] <= i32::MAX by {
        assert(row.total_duration[w] == batch.total_duration[b * batch.beam_width + w]);
    }
    assert forall|w: int| 0 <= w < batch.beam_width implies #[trigger] batch.start_t(b)[w]
        <= i32::MAX by {
        lemma_positions_of_row(batch.t, batch.batch_size, batch.beam_width, b, w);
    }
    assert forall|w: int| 0 <= w < batch.beam_width implies #[trigger] batch.start_u(b)[w]
        <= i32::MAX by {
        lemma_positions_of_row(batch.u, batch.batch_size, batch.beam_width, b, w);
    }
}

/// Decoder settings of the duration-class expander.
pub struct SsntTtsV2Cpu {
    pub batch_size: i32,
    pub duration_class_size: usize,
    pub zero_duration_id: i32,
    pub test_mode: bool,
    pub band: Band,
}

impl SsntTtsV2Cpu {
    /// A decoder for `batch_size` rows over `duration_class_size` duration
    /// classes. `zero_duration_id` is the class id written for a beam that is
    /// carried forward. With `test_mode` every class is admissible and no
    /// diagonal candidate is kept; without it the decoder holds the beams to
    /// the standard band.
    pub fn new(
        batch_size: i32,
        duration_class_size: usize,
        zero_duration_id: i32,
        test_mode: bool,
    ) -> (cpu: SsntTtsV2Cpu)
        ensures
            cpu.batch_size == batch_size,
            cpu.duration_class_size == duration_class_size,
            cpu.zero_duration_id == zero_duration_id,
            cpu.test_mode == test_mode,
            cpu.band == Band::standard_band(),
    {
        SsntTtsV2Cpu {
            batch_size,
            duration_class_size,
            zero_duration_id,
            test_mode,
            band: Band::standard(),
        }
    }

    /// The same decoder with another band.
    pub fn with_band(self, band: Band) -> (cpu: SsntTtsV2Cpu)
        ensures
            cpu.batch_size == self.batch_size,
            cpu.duration_class_size == self.duration_class_size,
            cpu.zero_duration_id == self.zero_duration_id,
            cpu.test_mode == self.test_mode,
            cpu.band == band,
    {
        SsntTtsV2Cpu {
            batch_size: self.batch_size,
            duration_class_size: self.duration_class_size,
            zero_duration_id: self.zero_duration_id,
            test_mode: self.test_mode,
            band,
        }
    }

    /// Whether some beam of the row proposes a candidate, so that the row can
    /// be searched.
    pub fn has_candidates<'a>(
        &self,
        h: &BeamSearchDecodingTable<'a>,
        start_t: &[usize],
        u: &[usize],
    ) -> (found: bool)
        requires
            h.wf(),
            start_t@.len() == h.beam_width,
            u@.len() == h.beam_width,
            forall|w: int|
                0 <= w < u@.len() && advances(h@, w, start_t@[w]) ==> #[trigger] u@[w]
                    < usize::MAX,
        ensures
            found == (row_candidates(self.settings(), h@, start_t@, u@).len() > 0),
    {
        let ghost by_beam = Seq::new(
            h.beam_width as nat,
            |w: int|
                successors(
                    self.settings(),
                    h@,
                    w as usize,
                    start_t@[w],
                    u@[w],
                    h.log_prob_history@[w],
                ),
        );
        let mut w: usize = 0;
        assert(by_beam.take(0) =~= Seq::<Seq<DecodeResult>>::empty());
        while w < h.beam_width
            invariant
                h.wf(),
                w <= h.beam_width,
                start_t@.len() == h.beam_width,
                u@.len() == h.beam_width,
                forall|k: int|
                    0 <= k < u@.len() && advances(h@, k, start_t@[k]) ==> #[trigger] u@[k]
                        < usize::MAX,
                by_beam == Seq::new(
                    h.beam_width as nat,
                    |w: int|
                        successors(
                            self.settings(),
                            h@,
                            w as usize,
                            start_t@[w],
                            u@[w],
                            h.log_prob_history@[w],
                        ),
                ),
                by_beam.take(w as int).flatten().len() == 0,
            decreases h.beam_width - w,
        {
            let proposed = self.beam_search_kernel_internal(
                h,
                w,
                start_t[w],
                u[w],
                h.log_prob_history[w],
            );
            if proposed.len() > 0 {
                proof {
                    assert(by_beam[w as int] == proposed@);
                    by_beam.lemma_flatten_length_ge_single_element_length(w as int);
                    by_beam.lemma_flatten_and_flatten_alt_are_equivalent();
                    assert(by_beam =~= Seq::new(
                        h@.beam_width as nat,
                        |w: int|
                            successors(
                                self.settings(),
                                h@,
                                w as usize,
                                start_t@[w],
                                u@[w],
                                h@.log_prob_history[w],
                            ),
                    ));
                }
                return true;
            }
            proof {
                assert(by_beam.take(w + 1) =~= by_beam.take(w as int).push(by_beam[w as int]));
                by_beam.take(w as int).lemma_flatten_push(by_beam[w as int]);
            }
            w += 1;
        }
        assert(by_beam.take(h.beam_width as int) =~= by_beam);
        false
    }

    /// Finds the first survivor that lies on the diagonal.
    fn find_on_diagonal<'a>(&self, h: &BeamSearchDecodingTable<'a>, survivors: &Vec<
        DecodeResult,
    >) -> (found: Option<DecodeResult>)
        requires
            h.wf(),
        ensures
            found == first_on_diagonal(h@, self.band, survivors@),
    {
        let mut i: usize = 0;
        assert(survivors@.take(0) =~= Seq::<DecodeResult>::empty());
        while i < survivors.len()
            invariant
                h.wf(),
                i <= survivors.len(),
                first_on_diagonal(h@, self.band, survivors@.take(i as int)) is None,
            decreases survivors.len() - i,
        {
            let result: DecodeResult = survivors[i];
            if h.on_diagonal(&result, self.band) {
                proof {
                    lemma_first_on_diagonal_found(h@, self.band, survivors@, i as int);
                }
                return Some(result);
            }
            assert(survivors@.take(i + 1).drop_last() =~= survivors@.take(i as int));
            i += 1;
        }
        assert(survivors@.take(survivors.len() as int) =~= survivors@);
        None
    }
}

/// The first entry on the diagonal is the one before which none lies on it.
pub proof fn lemma_first_on_diagonal_found(
    h: DecodingRow,
    band: Band,
    s: Seq<DecodeResult>,
    i: int,
)
    requires
        0 <= i < s.len(),
        first_on_diagonal(h, band, s.take(i)) is None,
        h.on_diagonal(s[i], band),
    ensures
        first_on_diagonal(h, band, s) == Some(s[i]),
    decreases s.len(),
{
    if i == s.len() - 1 {
        assert(s.drop_last() =~= s.take(i));
    } else {
        assert(s.drop_last().take(i) =~= s.take(i));
        lemma_first_on_diagonal_found(h, band, s.drop_last(), i);
    }
}

/// One ply of the duration-class beam search.
pub trait SsntTtsV2 {
    /// The settings that the candidates of the decoder depend on.
    spec fn settings(&self) -> Settings;

    /// The number of duration classes that the decoder takes a row to have.
    spec fn classes(&self) -> usize;

    /// Runs one step of the search on every row of a batch, the rows in
    /// parallel, and writes what each row keeps into its slice of the output
    /// buffers: row after row, `max_beam_width` entries each.
    fn beam_search_decode(
        &self,
        h: &[i32],
        log_prob_history: &[i32],
        is_finished: &[bool],
        total_duration: &[i32],
        duration_table: &[i32],
        t: &[i32],
        u: &[i32],
        input_length: &[i32],
        output_length: &[i32],
        batch_size: i32,
        beam_width: i32,
        max_beam_width: i32,
        prediction: &mut [i32],
        log_probs: &mut [i32],
        next_t: &mut [i32],
        next_u: &mut [i32],
        next_is_finished: &mut [bool],
        next_total_duration: &mut [i32],
        beam_branch: &mut [i32],
    )
        requires
            batch_of(
                h@,
                log_prob_history@,
                is_finished@,
                total_duration@,
                duration_table@,
                t@,
                u@,
                input_length@,
                output_length@,
                self.classes(),
                batch_size,
                beam_width,
                max_beam_width,
            ).wf(),
            batch_of(
                h@,
                log_prob_history@,
                is_finished@,
                total_duration@,
                duration_table@,
                t@,
                u@,
                input_length@,
                output_length@,
                self.classes(),
                batch_size,
                beam_width,
                max_beam_width,
            ).searchable(self.settings()),
            old(prediction)@.len() == batch_size * max_beam_width,
            old(log_probs)@.len() == batch_size * max_beam_width,
            old(next_t)@.len() == batch_size * max_beam_width,
            old(next_u)@.len() == batch_size * max_beam_width,
            old(next_is_finished)@.len() == batch_size * max_beam_width,
            old(next_total_duration)@.len() == batch_size * max_beam_width,
            old(beam_branch)@.len() == batch_size * max_beam_width,
        ensures
            decode_writes(
                batch_of(
                    h@,
                    log_prob_history@,
                    is_finished@,
                    total_duration@,
                    duration_table@,
                    t@,
                    u@,
                    input_length@,
                    output_length@,
                    self.classes(),
                    batch_size,
                    beam_width,
                    max_beam_width,
                ).decoded(self.settings()),
                final(prediction)@,
                final(log_probs)@,
                final(next_t)@,
                final(next_u)@,
                final(next_is_finished)@,
                final(next_total_duration)@,
                final(beam_branch)@,
            ),
    ;

    /// Ranks what the beams of one row propose and keeps `max_beam_width` of
    /// it, the last slot going to the best diagonal candidate if there is one.
    fn beam_search_kernel<'a>(
        &self,
        h: &BeamSearchDecodingTable<'a>,
        start_t: &[usize],
        u: &[usize],
    ) -> (results: Vec<DecodeResult>)
        requires
            h.wf(),
            row_ready(self.settings(), h@, start_t@, u@),
        ensures
            results@ == kept(
                self.settings(),
                h@,
                row_candidates(self.settings(), h@, start_t@, u@),
            ),
            results.len() == h.max_beam_width,
    ;

    /// Lists what beam `w` proposes at frame `t` and output index `u`.
    fn beam_search_kernel_internal<'a>(
        &self,
        h: &BeamSearchDecodingTable<'a>,
        w: usize,
        t: usize,
        u: usize,
        log_prob_history: i32,
    ) -> (results: Vec<DecodeResult>)
        requires
            h.wf(),
            w < h.beam_width,
            advances(h@, w as int, t) ==> u < usize::MAX,
        ensures
            results@ == successors(self.settings(), h@, w, t, u, log_prob_history),
    ;
}

impl SsntTtsV2 for SsntTtsV2Cpu {
    open spec fn settings(&self) -> Settings {
        Settings {
            zero_duration_id: self.zero_duration_id,
            test_mode: self.test_mode,
            band: self.band,
        }
    }

    open spec fn classes(&self) -> usize {
        self.duration_class_size
    }

    fn beam_search_decode(
        &self,
        h: &[i32],
        log_prob_history: &[i32],
        is_finished: &[bool],
        total_duration: &[i32],
        duration_table: &[i32],
        t: &[i32],
        u: &[i32],
        input_length: &[i32],
        output_length: &[i32],
        batch_size: i32,
        beam_width: i32,
        max_beam_width: i32,
        prediction: &mut [i32],
        log_probs: &mut [i32],
        next_t: &mut [i32],
        next_u: &mut [i32],
        next_is_finished: &mut [bool],
        next_total_duration: &mut [i32],
        beam_branch: &mut [i32],
    ) {
        let ghost batch = batch_of(
            h@,
            log_prob_history@,
            is_finished@,
            total_duration@,
            duration_table@,
            t@,
            u@,
            input_length@,
            output_length@,
            self.duration_class_size,
            batch_size,
            beam_width,
            max_beam_width,
        );
        let rows: usize = batch_size as usize;
        let width: usize = beam_width as usize;
        let capacity: usize = max_beam_width as usize;
        let classes: usize = self.duration_class_size;
        if rows == 0 {
            assert(batch_size * max_beam_width == 0) by (nonlinear_arith)
                requires
                    batch_size == 0,
            ;
            assert(batch.decoded(self.settings()) =~= Seq::<DecodeResult>::empty());
            assert(prediction@ =~= predictions(batch.decoded(self.settings())));
            assert(log_probs@ =~= scores_of(batch.decoded(self.settings())));
            assert(next_t@ =~= next_frames(batch.decoded(self.settings())));
            assert(next_u@ =~= next_outputs(batch.decoded(self.settings())));
            assert(next_is_finished@ =~= finished_flags(batch.decoded(self.settings())));
            assert(next_total_duration@ =~= total_durations(batch.decoded(self.settings())));
            assert(beam_branch@ =~= parent_branches(batch.decoded(self.settings())));
            return ;
        }
        let total: usize = h.len();
        assert(width * classes <= rows * (width * classes)) by (nonlinear_arith)
            requires
                1 <= rows,
                0 <= width * classes,
        ;
        let h_rows = BatchView::new(h, width * classes, rows);
        let history_rows = BatchView::new(log_prob_history, width, rows);
        let finished_rows = BatchView::new(is_finished, width, rows);
        let duration_rows = BatchView::new(total_duration, width, rows);
        let t_rows = BatchView::new(t, width, rows);
        let u_rows = BatchView::new(u, width, rows);
        let decode_row = |b: usize| -> (kept: Vec<DecodeResult>)
            requires
                b < rows,
            ensures
                kept@ == batch_of(
                    h@,
                    log_prob_history@,
                    is_finished@,
                    total_duration@,
                    duration_table@,
                    t@,
                    u@,
                    input_length@,
                    output_length@,
                    self.duration_class_size,
                    batch_size,
                    beam_width,
                    max_beam_width,
                ).decoded_row(self.settings(), b as int),
            {
                proof {
                    let batch = batch_of(
                        h@,
                        log_prob_history@,
                        is_finished@,
                        total_duration@,
                        duration_table@,
                        t@,
                        u@,
                        input_length@,
                        output_length@,
                        self.duration_class_size,
                        batch_size,
                        beam_width,
                        max_beam_width,
                    );
                    lemma_batch_row_wf(batch, b as int);
                    lemma_row_bounds(rows as int, width as int, b as int);
                    assert(row_candidates(
                        self.settings(),
                        batch.row(b as int),
                        batch.start_t(b as int),
                        batch.start_u(b as int),
                    ).len() > 0);
                }
                let table = BeamSearchDecodingTable::new(
                    h_rows.batch(b),
                    history_rows.batch(b),
                    finished_rows.batch(b),
                    duration_rows.batch(b),
                    duration_table,
                    classes,
                    input_length[b] as usize,
                    output_length[b] as usize,
                    width,
                    capacity,
                );
                let start_t: Vec<usize> = to_positions(t_rows.batch(b));
                let start_u: Vec<usize> = to_positions(u_rows.batch(b));
                self.beam_search_kernel(&table, start_t.as_slice(), start_u.as_slice())
            };
        let kept: Vec<Vec<DecodeResult>> = par_map_range(rows, decode_row);
        let flat: Vec<DecodeResult> = gather(&kept);
        proof {
            let by_row = Seq::new(rows as nat, |b: int| batch.decoded_row(self.settings(), b));
            assert(kept@.map_values(|part: Vec<DecodeResult>| part@) =~= by_row);
            lemma_flatten_uniform_len(by_row, capacity as nat);
            assert forall|b: int| 0 <= b < by_row.len() implies all_of(
                #[trigger] by_row[b],
                fits_buffers(),
            ) by {
                lemma_batch_row_wf(batch, b);
                lemma_row_fits_buffers(
                    self.settings(),
                    batch.row(b),
                    batch.start_t(b),
                    batch.start_u(b),
                );
            }
            lemma_flatten_all(by_row, fits_buffers());
        }
        let mut k: usize = 0;
        while k < flat.len()
            invariant
                k <= flat.len(),
                all_of(flat@, fits_buffers()),
                prediction@.len() == flat.len(),
                log_probs@.len() == flat.len(),
                next_t@.len() == flat.len(),
                next_u@.len() == flat.len(),
                next_is_finished@.len() == flat.len(),
                next_total_duration@.len() == flat.len(),
                beam_branch@.len() == flat.len(),
                forall|j: int| 0 <= j < k ==> prediction@[j] == flat[j].prediction,
                forall|j: int| 0 <= j < k ==> log_probs@[j] == flat[j].log_prob,
                forall|j: int| 0 <= j < k ==> next_t@[j] == flat[j].next_t as i32,
                forall|j: int| 0 <= j < k ==> next_u@[j] == flat[j].next_u as i32,
                forall|j: int| 0 <= j < k ==> next_is_finished@[j] == flat[j].is_finished,
                forall|j: int| 0 <= j < k ==> next_total_duration@[j] == flat[j].total_duration,
                forall|j: int| 0 <= j < k ==> beam_branch@[j] == flat[j].parent_branch as i32,
            decreases flat.len() - k,
        {
            let result: DecodeResult = flat[k];
            assert(fits_buffers()(flat@[k as int]));
            prediction[k] = result.prediction;
            log_probs[k] = result.log_prob;
            next_t[k] = result.next_t as i32;
            next_u[k] = result.next_u as i32;
            beam_branch[k] = result.parent_branch as i32;
            next_is_finished[k] = result.is_finished;
            next_total_duration[k] = result.total_duration;
            k += 1;
        }
        assert(prediction@ =~= predictions(flat@));
        assert(log_probs@ =~= scores_of(flat@));
        assert(next_t@ =~= next_frames(flat@));
        assert(next_u@ =~= next_outputs(flat@));
        assert(next_is_finished@ =~= finished_flags(flat@));
        assert(next_total_duration@ =~= total_durations(flat@));
        assert(beam_branch@ =~= parent_branches(flat@));
    }

    fn beam_search_kernel<'a>(
        &self,
        h: &BeamSearchDecodingTable<'a>,
        start_t: &[usize],
        u: &[usize],
    ) -> (results: Vec<DecodeResult>) {
        let expand = |w: usize| -> (proposed: Vec<DecodeResult>)
            requires
                w < h.beam_width,
            ensures
                proposed@ == successors(
                    self.settings(),
                    h@,
                    w,
                    start_t@[w as int],
                    u@[w as int],
                    h.log_prob_history@[w as int],
                ),
            {
                self.beam_search_kernel_internal(h, w, start_t[w], u[w], h.log_prob_history[w])
            };
        let proposed: Vec<Vec<DecodeResult>> = par_map_range(h.beam_width, expand);
        let candidates: Vec<DecodeResult> = gather(&proposed);
        proof {
            let by_beam = Seq::new(
                h.beam_width as nat,
                |w: int|
                    successors(
                        self.settings(),
                        h@,
                        w as usize,
                        start_t@[w],
                        u@[w],
                        h.log_prob_history@[w],
                    ),
            );
            assert(proposed@.map_values(|part: Vec<DecodeResult>| part@) =~= by_beam);
            lemma_survivors_nonempty(candidates@);
        }
        let sorted: Vec<DecodeResult> = rank(&candidates);
        let survivors: Vec<DecodeResult> = dedup(&sorted);
        // A candidate on the diagonal is kept so that the search never loses
        // the straight alignment.
        let diagonal: Option<DecodeResult> = if !self.test_mode {
            self.find_on_diagonal(h, &survivors)
        } else {
            None
        };
        match diagonal {
            Some(result) => {
                if h.max_beam_width >= 1 {
                    let mut results = fill(&survivors, h.max_beam_width - 1);
                    results.push(result);
                    results
                } else {
                    fill(&survivors, 0)
                }
            },
            None => fill(&survivors, h.max_beam_width),
        }
    }

    fn beam_search_kernel_internal<'a>(
        &self,
        h: &BeamSearchDecodingTable<'a>,
        w: usize,
        t: usize,
        u: usize,
        log_prob_history: i32,
    ) -> (results: Vec<DecodeResult>) {
        proof {
            lemma_choices_ignore_id(
                h@,
                w as int,
                t,
                self.settings(),
                h.duration_class_size as nat,
            );
        }
        match h.decode_beam_at(w, t, self.test_mode, self.band) {
            None => {
                let mut results: Vec<DecodeResult> = Vec::with_capacity(1);
                results.push(
                    DecodeResult {
                        prediction: self.zero_duration_id,
                        log_prob: log_prob_history,
                        next_t: t,
                        next_u: u,
                        is_finished: true,
                        parent_branch: w,
                        total_duration: h.total_duration[w],
                    },
                );
                assert(results@ =~= successors(self.settings(), h@, w, t, u, log_prob_history));
                results
            },
            Some(choices) => {
                let mut results: Vec<DecodeResult> = Vec::with_capacity(choices.len());
                let mut i: usize = 0;
                while i < choices.len()
                    invariant
                        i <= choices.len(),
                        t < h.input_length,
                        t + 1 != h.input_length ==> u < usize::MAX,
                        forall|j: int|
                            0 <= j < choices.len() ==> (#[trigger] choices[j]).is_finished == (t
                                + 1 == h.input_length),
                        results.len() == i,
                        forall|j: int| 0 <= j < i ==> results[j] == successor(w, t, u, choices[j]),
                    decreases choices.len() - i,
                {
                    let v: DecodingTable = choices[i];
                    assert(choices[i as int].is_finished == (t + 1 == h.input_length));
                    results.push(
                        DecodeResult {
                            prediction: v.duration_class,
                            log_prob: v.log_prob,
                            next_t: if v.is_finished {
                                t
                            } else {
                                t + 1
                            },
                            next_u: if v.is_finished {
                                u
                            } else {
                                u + 1
                            },
                            is_finished: v.is_finished,
                            parent_branch: w,
                            total_duration: v.total_duration,
                        },
                    );
                    i += 1;
                }
                assert(results@ =~= successors(self.settings(), h@, w, t, u, log_prob_history));
                results
            },
        }
    }
}

/// The diagonal candidate is one of the survivors: what holds of every
/// survivor holds of it.
pub proof fn lemma_first_on_diagonal_all(
    h: DecodingRow,
    band: Band,
    s: Seq<DecodeResult>,
    p: spec_fn(DecodeResult) -> bool,
)
    requires
        all_of(s, p),
        first_on_diagonal(h, band, s) is Some,
    ensures
        p(first_on_diagonal(h, band, s)->0),
        h.on_diagonal(first_on_diagonal(h, band, s)->0, band),
    decreases s.len(),
{
    if s.len() > 0 {
        if first_on_diagonal(h, band, s.drop_last()) is Some {
            lemma_first_on_diagonal_all(h, band, s.drop_last(), p);
        } else {
            assert(p(s[s.len() - 1]));
        }
    }
}

/// Every entry that a row keeps is one of its candidates: what holds of
/// every candidate holds of every entry that the row keeps.
pub proof fn lemma_kept_all(
    settings: Settings,
    h: DecodingRow,
    candidates: Seq<DecodeResult>,
    p: spec_fn(DecodeResult) -> bool,
)
    requires
        candidates.len() > 0,
        all_of(candidates, p),
    ensures
        all_of(kept(settings, h, candidates), p),
        kept(settings, h, candidates).len() == h.max_beam_width,
{
    lemma_ranked_all(candidates, p);
    lemma_deduped_all(ranked(candidates), p);
    lemma_survivors_nonempty(candidates);
    let survivors = deduped(ranked(candidates));
    let out = kept(settings, h, candidates);
    if diagonal_candidate(settings, h, survivors) is Some {
        lemma_first_on_diagonal_all(h, settings.band, survivors, p);
    }
    assert forall|i: int| 0 <= i < out.len() implies p(#[trigger] out[i]) by {
        let k = i % (survivors.len() as int);
        assert(p(survivors[k]));
    }
}

/// What holds of everything that every beam proposes holds of every entry
/// that the row keeps.
pub proof fn lemma_row_all(
    settings: Settings,
    h: DecodingRow,
    start_t: Seq<usize>,
    u: Seq<usize>,
    p: spec_fn(DecodeResult) -> bool,
)
    requires
        row_candidates(settings, h, start_t, u).len() > 0,
        forall|w: int|
            0 <= w < h.beam_width ==> all_of(
                #[trigger] successors(
                    settings,
                    h,
                    w as usize,
                    start_t[w],
                    u[w],
                    h.log_prob_history[w],
                ),
                p,
            ),
    ensures
        all_of(kept(settings, h, row_candidates(settings, h, start_t, u)), p),
{
    let by_beam = Seq::new(
        h.beam_width as nat,
        |w: int| successors(settings, h, w as usize, start_t[w], u[w], h.log_prob_history[w]),
    );
    assert forall|w: int| 0 <= w < by_beam.len() implies all_of(#[trigger] by_beam[w], p) by {
        assert(all_of(
            successors(settings, h, w as usize, start_t[w], u[w], h.log_prob_history[w]),
            p,
        ));
    }
    lemma_flatten_all(by_beam, p);
    lemma_kept_all(settings, h, row_candidates(settings, h, start_t, u), p);
}

/// Every choice among the first `classes` classes is an admissible class of
/// the beam with what that class means for it.
pub proof fn lemma_choices_admitted(
    h: DecodingRow,
    w: int,
    t: usize,
    settings: Settings,
    classes: nat,
    i: int,
)
    requires
        0 <= i < h.choices(w, t, settings, classes).len(),
    ensures
        exists|class: int|
            0 <= class < classes && h.admissible(w, t, class, settings) && h.choices(
                w,
                t,
                settings,
                classes,
            )[i] == #[trigger] h.choice(w, t, class),
    decreases classes,
{
    if classes > 0 {
        let before = h.choices(w, t, settings, (classes - 1) as nat);
        if i < before.len() {
            lemma_choices_admitted(h, w, t, settings, (classes - 1) as nat, i);
            let class = choose|class: int|
                0 <= class < classes - 1 && h.admissible(w, t, class, settings) && before[i]
                    == #[trigger] h.choice(w, t, class);
            assert(h.choices(w, t, settings, classes)[i] == h.choice(w, t, class));
        } else {
            assert(h.choices(w, t, settings, classes)[i] == h.choice(w, t, classes - 1));
        }
    }
}

/// Every choice of a beam is finished exactly at the last frame and, outside
/// test mode, has a total duration in the band of the frame.
pub proof fn lemma_choices_in_band(h: DecodingRow, w: int, t: usize, settings: Settings, i: int)
    requires
        h.wf(),
        0 <= w < h.beam_width,
        t < h.input_length,
        0 <= i < h.choices(w, t, settings, h.duration_class_size as nat).len(),
    ensures
        in_band(h, t, settings, h.choices(w, t, settings, h.duration_class_size as nat)[i]),
{
    lemma_choices_admitted(h, w, t, settings, h.duration_class_size as nat, i);
    let class = choose|class: int|
        0 <= class < h.duration_class_size && h.admissible(w, t, class, settings) && h.choices(
            w,
            t,
            settings,
            h.duration_class_size as nat,
        )[i] == #[trigger] h.choice(w, t, class);
    assert(i32::MIN <= h.total_duration[w] + h.duration_table[class] <= i32::MAX);
    lemma_band_inside_output(h, t, settings.band);
}

/// The band of a frame lies between zero and the output length.
pub proof fn lemma_band_inside_output(h: DecodingRow, t: usize, band: Band)
    requires
        t < h.input_length,
    ensures
        0 <= h.lower_bound(t, band),
        h.upper_bound(t, band) <= h.output_length,
{
    if !(100 * (t + 1) <= band.lower_percent * h.input_length) {
        let part = 100 * (t + 1) - band.lower_percent * h.input_length;
        assert(0 <= h.output_length * part) by (nonlinear_arith)
            requires
                0 <= h.output_length,
                0 <= part,
        ;
        vstd::arithmetic::div_mod::lemma_div_pos_is_pos(
            h.output_length * part,
            100 * h.input_length,
        );
    }
}

/// What a row keeps, slot by slot: the survivors from the best down, round
/// and round, in every slot but the one that the diagonal candidate takes.
pub proof fn lemma_kept_slots(settings: Settings, h: DecodingRow, candidates: Seq<DecodeResult>)
    requires
        candidates.len() > 0,
    ensures
        kept(settings, h, candidates).len() == h.max_beam_width,
        deduped(ranked(candidates)).len() > 0,
        forall|j: int|
            0 <= j < h.max_beam_width && (j + 1 < h.max_beam_width || diagonal_candidate(
                settings,
                h,
                deduped(ranked(candidates)),
            ) is None) ==> #[trigger] kept(settings, h, candidates)[j] == deduped(
                ranked(candidates),
            )[j % (deduped(ranked(candidates)).len() as int)],
        h.max_beam_width >= 1 && diagonal_candidate(settings, h, deduped(ranked(candidates)))
            is Some ==> kept(settings, h, candidates)[h.max_beam_width - 1] == diagonal_candidate(
            settings,
            h,
            deduped(ranked(candidates)),
        )->0,
{
    lemma_survivors_nonempty(candidates);
}

/// The test that a candidate is one of the successors of the beam that it
/// names as its parent.
pub open spec fn descends(
    settings: Settings,
    h: DecodingRow,
    start_t: Seq<usize>,
    u: Seq<usize>,
) -> spec_fn(DecodeResult) -> bool {
    |c: DecodeResult|
        c.parent_branch < h.beam_width && successors(
            settings,
            h,
            c.parent_branch,
            start_t[c.parent_branch as int],
            u[c.parent_branch as int],
            h.log_prob_history[c.parent_branch as int],
        ).contains(c)
}

/// Every entry that a row keeps is a successor of the beam that it names as
/// its parent.
pub proof fn lemma_row_descends(
    settings: Settings,
    h: DecodingRow,
    start_t: Seq<usize>,
    u: Seq<usize>,
)
    requires
        row_candidates(settings, h, start_t, u).len() > 0,
    ensures
        all_of(
            kept(settings, h, row_candidates(settings, h, start_t, u)),
            descends(settings, h, start_t, u),
        ),
{
    let p = descends(settings, h, start_t, u);
    assert forall|w: int| 0 <= w < h.beam_width implies all_of(
        #[trigger] successors(settings, h, w as usize, start_t[w], u[w], h.log_prob_history[w]),
        p,
    ) by {
        let proposed = successors(
            settings,
            h,
            w as usize,
            start_t[w],
            u[w],
            h.log_prob_history[w],
        );
        assert forall|i: int| 0 <= i < proposed.len() implies p(#[trigger] proposed[i]) by {
            assert(proposed[i].parent_branch == w);
            assert(proposed.contains(proposed[i]));
        }
    }
    lemma_row_all(settings, h, start_t, u, p);
}

/// The test that a candidate whose parent stood, unfinished, at the last
/// frame of the input ends the beam there with exactly the output length
/// used.
pub open spec fn completes_from(h: DecodingRow, start_t: Seq<usize>) -> spec_fn(
    DecodeResult,
) -> bool {
    |c: DecodeResult|
        c.parent_branch < h.beam_width && start_t[c.parent_branch as int] + 1 == h.input_length
            && !h.is_finished[c.parent_branch as int] ==> c.is_finished && c.next_t
            == start_t[c.parent_branch as int] && c.total_duration == h.output_length
}

/// Outside test mode every entry that a row keeps from a beam that stood,
/// unfinished, at the last frame ends that beam with exactly the output
/// length used.
pub proof fn lemma_row_completes(
    settings: Settings,
    h: DecodingRow,
    start_t: Seq<usize>,
    u: Seq<usize>,
)
    requires
        h.wf(),
        !settings.test_mode,
        row_candidates(settings, h, start_t, u).len() > 0,
    ensures
        all_of(
            kept(settings, h, row_candidates(settings, h, start_t, u)),
            completes_from(h, start_t),
        ),
{
    let p = completes_from(h, start_t);
    assert forall|w: int| 0 <= w < h.beam_width implies all_of(
        #[trigger] successors(settings, h, w as usize, start_t[w], u[w], h.log_prob_history[w]),
        p,
    ) by {
        let proposed = successors(
            settings,
            h,
            w as usize,
            start_t[w],
            u[w],
            h.log_prob_history[w],
        );
        assert forall|i: int| 0 <= i < proposed.len() implies p(#[trigger] proposed[i]) by {
            assert(proposed[i].parent_branch == w);
            if start_t[w] + 1 == h.input_length && !h.is_finished[w] {
                lemma_last_frame_completes(
                    settings,
                    h,
                    w as usize,
                    start_t[w],
                    u[w],
                    h.log_prob_history[w],
                );
                assert(completes_at(start_t[w], h.output_length)(proposed[i]));
            }
        }
    }
    lemma_row_all(settings, h, start_t, u, p);
}

/// Every entry that a row keeps can be written into buffers of signed
/// integers, where the positions it started from can, and every beam that
/// moves on has room to.
pub proof fn lemma_row_fits_buffers(
    settings: Settings,
    h: DecodingRow,
    start_t: Seq<usize>,
    u: Seq<usize>,
)
    requires
        row_candidates(settings, h, start_t, u).len() > 0,
        h.beam_width <= i32::MAX,
        h.input_length <= i32::MAX,
        start_t.len() == h.beam_width,
        u.len() == h.beam_width,
        forall|w: int| 0 <= w < h.beam_width ==> #[trigger] start_t[w] <= i32::MAX,
        forall|w: int| 0 <= w < h.beam_width ==> #[trigger] u[w] <= i32::MAX,
        forall|w: int|
            0 <= w < h.beam_width && advances(h, w, start_t[w]) ==> (#[trigger] u[w]) < i32::MAX,
    ensures
        all_of(kept(settings, h, row_candidates(settings, h, start_t, u)), fits_buffers()),
{
    assert forall|w: int| 0 <= w < h.beam_width implies all_of(
        #[trigger] successors(settings, h, w as usize, start_t[w], u[w], h.log_prob_history[w]),
        fits_buffers(),
    ) by {
        assert(start_t[w] <= i32::MAX);
        assert(u[w] <= i32::MAX);
        if advances(h, w, start_t[w]) {
            assert(u[w] < i32::MAX);
        }
        let proposed = successors(
            settings,
            h,
            w as usize,
            start_t[w],
            u[w],
            h.log_prob_history[w],
        );
        if h.branches(w, start_t[w], settings) is Some {
            let listed = h.choices(w, start_t[w], settings, h.duration_class_size as nat);
            assert forall|i: int| 0 <= i < proposed.len() implies fits_buffers()(
                #[trigger] proposed[i],
            ) by {
                lemma_choices_admitted(h, w, start_t[w], settings, h.duration_class_size as nat, i);
                assert(proposed[i] == successor(w as usize, start_t[w], u[w], listed[i]));
            }
        }
    }
    lemma_row_all(settings, h, start_t, u, fits_buffers());
}

/// Outside test mode no successor of a beam uses more than the output
/// length: an admissible class leaves the total duration inside the band,
/// and the band ends at the output length. A beam that is carried forward
/// keeps the total duration it had.
pub proof fn lemma_successors_within_budget(
    settings: Settings,
    h: DecodingRow,
    w: usize,
    t: usize,
    u: usize,
    log_prob_history: i32,
)
    requires
        h.wf(),
        w < h.beam_width,
        !settings.test_mode,
        h.branches(w as int, t, settings) is None ==> h.total_duration[w as int]
            <= h.output_length,
    ensures
        all_of(
            successors(settings, h, w, t, u, log_prob_history),
            within_budget(h.output_length),
        ),
{
    let proposed = successors(settings, h, w, t, u, log_prob_history);
    if h.branches(w as int, t, settings) is Some {
        let choices = h.choices(w as int, t, settings, h.duration_class_size as nat);
        assert forall|i: int| 0 <= i < proposed.len() implies within_budget(h.output_length)(
            #[trigger] proposed[i],
        ) by {
            lemma_choices_admitted(h, w as int, t, settings, h.duration_class_size as nat, i);
            assert(proposed[i] == successor(w, t, u, choices[i]));
        }
    }
}

/// Outside test mode every successor that a beam proposes at the last frame
/// of the input ends the beam there with exactly the output length used.
pub proof fn lemma_last_frame_completes(
    settings: Settings,
    h: DecodingRow,
    w: usize,
    t: usize,
    u: usize,
    log_prob_history: i32,
)
    requires
        h.wf(),
        w < h.beam_width,
        !settings.test_mode,
        t + 1 == h.input_length,
        !h.is_finished[w as int],
    ensures
        all_of(
            successors(settings, h, w, t, u, log_prob_history),
            completes_at(t, h.output_length),
        ),
{
    let proposed = successors(settings, h, w, t, u, log_prob_history);
    let choices = h.choices(w as int, t, settings, h.duration_class_size as nat);
    assert forall|i: int| 0 <= i < proposed.len() implies completes_at(t, h.output_length)(
        #[trigger] proposed[i],
    ) by {
        lemma_choices_admitted(h, w as int, t, settings, h.duration_class_size as nat, i);
        assert(proposed[i] == successor(w, t, u, choices[i]));
    }
}

/// Where no class has a negative duration, the total duration of a beam
/// never goes down: every successor has used at least what the beam had.
pub proof fn lemma_total_duration_grows(
    settings: Settings,
    h: DecodingRow,
    w: usize,
    t: usize,
    u: usize,
    log_prob_history: i32,
)
    requires
        h.wf(),
        w < h.beam_width,
        forall|c: int| 0 <= c < h.duration_class_size ==> 0 <= #[trigger] h.duration_table[c],
    ensures
        all_of(
            successors(settings, h, w, t, u, log_prob_history),
            at_least(h.total_duration[w as int]),
        ),
{
    let proposed = successors(settings, h, w, t, u, log_prob_history);
    if h.branches(w as int, t, settings) is Some {
        let choices = h.choices(w as int, t, settings, h.duration_class_size as nat);
        assert forall|i: int| 0 <= i < proposed.len() implies at_least(
            h.total_duration[w as int],
        )(#[trigger] proposed[i]) by {
            lemma_choices_admitted(h, w as int, t, settings, h.duration_class_size as nat, i);
            assert(proposed[i] == successor(w, t, u, choices[i]));
            let class = choose|class: int|
                0 <= class < h.duration_class_size && h.admissible(w as int, t, class, settings)
                    && choices[i] == #[trigger] h.choice(w as int, t, class);
            assert(0 <= h.duration_table[class]);
            assert(i32::MIN <= h.total_duration[w as int] + h.duration_table[class] <= i32::MAX);
        }
    }
}

/// Outside test mode no entry that a row keeps uses more than the output
/// length, where no beam that is carried forward did so before.
pub proof fn lemma_row_within_budget(
    settings: Settings,
    h: DecodingRow,
    start_t: Seq<usize>,
    u: Seq<usize>,
)
    requires
        h.wf(),
        !settings.test_mode,
        row_candidates(settings, h, start_t, u).len() > 0,
        forall|w: int|
            0 <= w < h.beam_width && #[trigger] h.branches(w, start_t[w], settings) is None
                ==> h.total_duration[w] <= h.output_length,
    ensures
        all_of(
            kept(settings, h, row_candidates(settings, h, start_t, u)),
            within_budget(h.output_length),
        ),
{
    assert forall|w: int| 0 <= w < h.beam_width implies all_of(
        #[trigger] successors(settings, h, w as usize, start_t[w], u[w], h.log_prob_history[w]),
        within_budget(h.output_length),
    ) by {
        if h.branches(w, start_t[w], settings) is None {
            assert(h.total_duration[w] <= h.output_length);
        }
        lemma_successors_within_budget(
            settings,
            h,
            w as usize,
            start_t[w],
            u[w],
            h.log_prob_history[w],
        );
    }
    lemma_row_all(settings, h, start_t, u, within_budget(h.output_length));
}

/// A beam that is finished, or past its input, proposes nothing new: it is
/// carried forward as it is, with the total duration it had.
pub proof fn lemma_finished_beam_is_carried(
    settings: Settings,
    h: DecodingRow,
    w: usize,
    t: usize,
    u: usize,
    log_prob_history: i32,
)
    requires
        h.is_finished[w as int] || t >= h.input_length,
    ensures
        successors(settings, h, w, t, u, log_prob_history) == seq![
            pass_through(
                settings.zero_duration_id,
                w,
                t,
                u,
                log_prob_history,
                h.total_duration[w as int],
            ),
        ],
        successors(settings, h, w, t, u, log_prob_history)[0].is_finished,
        successors(settings, h, w, t, u, log_prob_history)[0].log_prob == log_prob_history,
        successors(settings, h, w, t, u, log_prob_history)[0].next_t == t,
        successors(settings, h, w, t, u, log_prob_history)[0].next_u == u,
        successors(settings, h, w, t, u, log_prob_history)[0].total_duration
            == h.total_duration[w as int],
{
}

/// What a row keeps is what the shared reducer keeps of its candidates, but
/// for the last slot where a survivor lies on the diagonal: the slots before
/// it are what the reducer keeps at one slot less, and the last slot holds
/// the best survivor on the diagonal.
pub proof fn lemma_kept_is_reduced(
    settings: Settings,
    h: DecodingRow,
    candidates: Seq<DecodeResult>,
)
    ensures
        diagonal_candidate(settings, h, deduped(ranked(candidates))) is None ==> kept(
            settings,
            h,
            candidates,
        ) == crate::rank::reduced(candidates, h.max_beam_width as nat),
        diagonal_candidate(settings, h, deduped(ranked(candidates))) is Some && h.max_beam_width
            >= 1 ==> {
            &&& kept(settings, h, candidates).take(h.max_beam_width - 1) == crate::rank::reduced(
                candidates,
                (h.max_beam_width - 1) as nat,
            )
            &&& kept(settings, h, candidates).last() == diagonal_candidate(
                settings,
                h,
                deduped(ranked(candidates)),
            )->0
        },
        settings.test_mode ==> kept(settings, h, candidates) == crate::rank::reduced(
            candidates,
            h.max_beam_width as nat,
        ),
{
    let survivors = deduped(ranked(candidates));
    if diagonal_candidate(settings, h, survivors) is Some && h.max_beam_width >= 1 {
        let front = filled(survivors, (h.max_beam_width - 1) as nat);
        let diagonal = diagonal_candidate(settings, h, survivors)->0;
        assert(front.push(diagonal).take(h.max_beam_width - 1) =~= front);
    }
}

} // verus!
