//! The search reducer shared by every beam expander: rank the candidates of a
//! row by score, drop repeats of one outcome, and fill the beam to capacity.
use vstd::prelude::*;
use vstd::seq_lib::to_multiset_build;

verus! {

/// A proposed successor of a beam, as far as the reducer needs to know it.
///
/// A score is an integer that orders candidates: the larger, the better. The
/// outcome is everything that the candidate says about the next step except
/// the beam it came from, so two beams that reach the same state propose the
/// same outcome.
pub trait Candidate: Copy {
    type Outcome;

    /// The cumulative score that the candidate is ranked by.
    spec fn score(&self) -> i32;

    /// What the candidate proposes, whatever beam it came from.
    spec fn outcome(&self) -> Self::Outcome;

    /// Reads the score.
    fn rank_key(&self) -> (key: i32)
        ensures
            key == self.score(),
    ;

    /// Whether `self` and `other` propose the same outcome.
    fn eq_ignore_parent(&self, other: &Self) -> (same: bool)
        ensures
            same == (self.outcome() == other.outcome()),
    ;
}

/// Whether no entry of `s` scores higher than an entry before it.
pub open spec fn sorted_by_score<C: Candidate>(s: Seq<C>) -> bool {
    forall|i: int, j: int| 0 <= i <= j < s.len() ==> s[i].score() >= s[j].score()
}

/// The entries of `s` that score exactly `key`, in the order they have in `s`.
pub open spec fn with_score<C: Candidate>(s: Seq<C>, key: i32) -> Seq<C> {
    s.filter(scores(key))
}

/// The test for the score `key`.
pub open spec fn scores<C: Candidate>(key: i32) -> spec_fn(C) -> bool {
    |c: C| c.score() == key
}

/// `c` put into `s` behind the last entry that scores at least as high.
pub open spec fn insert_ranked<C: Candidate>(s: Seq<C>, c: C) -> Seq<C>
    decreases s.len(),
{
    if s.len() == 0 || s.last().score() >= c.score() {
        s.push(c)
    } else {
        insert_ranked(s.drop_last(), c).push(s.last())
    }
}

/// The entries of `s` from the highest score to the lowest, entries of equal
/// score in the order they have in `s`.
pub open spec fn ranked<C: Candidate>(s: Seq<C>) -> Seq<C>
    decreases s.len(),
{
    if s.len() == 0 {
        s
    } else {
        insert_ranked(ranked(s.drop_last()), s.last())
    }
}

/// Where `insert_ranked` puts the new entry: before the trailing entries that
/// score lower, and behind everything else.
pub proof fn lemma_insert_ranked_position<C: Candidate>(s: Seq<C>, c: C, at: int)
    requires
        0 <= at <= s.len(),
        forall|j: int| at <= j < s.len() ==> s[j].score() < c.score(),
        at == 0 || s[at - 1].score() >= c.score(),
    ensures
        insert_ranked(s, c) == s.insert(at, c),
    decreases s.len(),
{
    if at == s.len() {
        assert(s.insert(at, c) =~= s.push(c));
    } else {
        lemma_insert_ranked_position(s.drop_last(), c, at);
        assert(s.insert(at, c) =~= s.drop_last().insert(at, c).push(s.last()));
    }
}

/// Orders the candidates from the highest score to the lowest. Candidates of
/// equal score keep the order in which they came.
pub fn rank<C: Candidate>(candidates: &Vec<C>) -> (out: Vec<C>)
    ensures
        out@ == ranked(candidates@),
{
    let mut out: Vec<C> = Vec::with_capacity(candidates.len());
    let mut i: usize = 0;
    assert(candidates@.take(0) =~= Seq::<C>::empty());
    while i < candidates.len()
        invariant
            i <= candidates.len(),
            out@ == ranked(candidates@.take(i as int)),
        decreases candidates.len() - i,
    {
        let c: C = candidates[i];
        let key: i32 = c.rank_key();
        let mut at: usize = out.len();
        while at > 0 && out[at - 1].rank_key() < key
            invariant
                at <= out.len(),
                key == c.score(),
                forall|j: int| at <= j < out.len() ==> out[j].score() < key,
            decreases at,
        {
            at -= 1;
        }
        proof {
            lemma_insert_ranked_position(out@, c, at as int);
            assert(candidates@.take(i + 1).drop_last() =~= candidates@.take(i as int));
        }
        out.insert(at, c);
        i += 1;
    }
    assert(candidates@.take(candidates.len() as int) =~= candidates@);
    out
}

/// `s` without the entries that propose the same outcome as the entry right
/// before them: of every run of equal outcomes the first entry stays.
pub open spec fn deduped<C: Candidate>(s: Seq<C>) -> Seq<C>
    decreases s.len(),
{
    if s.len() == 0 {
        s
    } else if s.len() >= 2 && s[s.len() - 1].outcome() == s[s.len() - 2].outcome() {
        deduped(s.drop_last())
    } else {
        deduped(s.drop_last()).push(s.last())
    }
}

/// Drops every candidate that proposes the same outcome as the candidate
/// right before it.
pub fn dedup<C: Candidate>(candidates: &Vec<C>) -> (out: Vec<C>)
    ensures
        out@ == deduped(candidates@),
{
    let mut out: Vec<C> = Vec::with_capacity(candidates.len());
    let mut i: usize = 0;
    assert(candidates@.take(0) =~= Seq::<C>::empty());
    while i < candidates.len()
        invariant
            i <= candidates.len(),
            out@ == deduped(candidates@.take(i as int)),
        decreases candidates.len() - i,
    {
        let c: C = candidates[i];
        let repeats: bool = i > 0 && c.eq_ignore_parent(&candidates[i - 1]);
        proof {
            assert(candidates@.take(i + 1).drop_last() =~= candidates@.take(i as int));
        }
        if !repeats {
            out.push(c);
        }
        i += 1;
    }
    assert(candidates@.take(candidates.len() as int) =~= candidates@);
    out
}

/// `capacity` entries taken from `s` in order, starting over at the front of
/// `s` whenever its end is reached.
pub open spec fn filled<C>(s: Seq<C>, capacity: nat) -> Seq<C> {
    Seq::new(capacity, |i: int| s[i % (s.len() as int)])
}

/// Brings the survivors to exactly `capacity` entries: the first `capacity`
/// of them where there are enough, else all of them followed by copies of
/// them, in the same order, round and round.
pub fn fill<C: Copy>(survivors: &Vec<C>, capacity: usize) -> (out: Vec<C>)
    requires
        survivors.len() > 0 || capacity == 0,
    ensures
        out@ == filled(survivors@, capacity as nat),
{
    let mut out: Vec<C> = Vec::with_capacity(capacity);
    let mut i: usize = 0;
    while i < capacity
        invariant
            i <= capacity,
            survivors.len() > 0 || capacity == 0,
            out.len() == i,
            forall|j: int| 0 <= j < i ==> out[j] == survivors[j % (survivors.len() as int)],
        decreases capacity - i,
    {
        out.push(survivors[i % survivors.len()]);
        i += 1;
    }
    assert(out@ =~= filled(survivors@, capacity as nat));
    out
}

/// The candidates that a row keeps out of `candidates`: ranked, repeats
/// dropped, and brought to `capacity` entries.
pub open spec fn reduced<C: Candidate>(candidates: Seq<C>, capacity: nat) -> Seq<C> {
    filled(deduped(ranked(candidates)), capacity)
}

/// The number of survivors is positive as soon as there is a candidate.
pub proof fn lemma_survivors_nonempty<C: Candidate>(candidates: Seq<C>)
    requires
        candidates.len() > 0,
    ensures
        ranked(candidates).len() == candidates.len(),
        deduped(ranked(candidates)).len() > 0,
{
    lemma_ranked_len(candidates);
    lemma_deduped_len(ranked(candidates));
}

/// Ranking neither adds nor drops a candidate.
pub proof fn lemma_ranked_len<C: Candidate>(s: Seq<C>)
    ensures
        ranked(s).len() == s.len(),
    decreases s.len(),
{
    if s.len() > 0 {
        lemma_ranked_len(s.drop_last());
        lemma_insert_ranked_len(ranked(s.drop_last()), s.last());
    }
}

/// Inserting adds exactly one entry.
pub proof fn lemma_insert_ranked_len<C: Candidate>(s: Seq<C>, c: C)
    ensures
        insert_ranked(s, c).len() == s.len() + 1,
    decreases s.len(),
{
    if !(s.len() == 0 || s.last().score() >= c.score()) {
        lemma_insert_ranked_len(s.drop_last(), c);
    }
}

/// Dropping repeats keeps at least one entry of a sequence that has any, and
/// never more than there were.
pub proof fn lemma_deduped_len<C: Candidate>(s: Seq<C>)
    ensures
        deduped(s).len() <= s.len(),
        s.len() > 0 ==> deduped(s).len() > 0,
    decreases s.len(),
{
    if s.len() > 0 {
        lemma_deduped_len(s.drop_last());
    }
}

/// Ranks, dedups and fills: the whole reduction of one row.
pub fn reduce<C: Candidate>(candidates: &Vec<C>, capacity: usize) -> (out: Vec<C>)
    requires
        candidates.len() > 0 || capacity == 0,
    ensures
        out@ == reduced(candidates@, capacity as nat),
        out.len() == capacity,
{
    let sorted = rank(candidates);
    let survivors = dedup(&sorted);
    proof {
        if candidates.len() > 0 {
            lemma_survivors_nonempty(candidates@);
        }
    }
    fill(&survivors, capacity)
}

/// The sequences of `parts`, one after the other.
pub open spec fn gathered<C>(parts: Seq<Vec<C>>) -> Seq<C> {
    parts.map_values(|part: Vec<C>| part@).flatten()
}

/// Joins the candidates that the beams of a row proposed, beam after beam,
/// into one list.
pub fn gather<C: Copy>(parts: &Vec<Vec<C>>) -> (out: Vec<C>)
    ensures
        out@ == gathered(parts@),
{
    let mut out: Vec<C> = Vec::new();
    let mut w: usize = 0;
    let ghost views = parts@.map_values(|part: Vec<C>| part@);
    assert(views.take(0) =~= Seq::<Seq<C>>::empty());
    while w < parts.len()
        invariant
            w <= parts.len(),
            views == parts@.map_values(|part: Vec<C>| part@),
            out@ == views.take(w as int).flatten(),
        decreases parts.len() - w,
    {
        let part: &Vec<C> = &parts[w];
        let ghost before = out@;
        let mut k: usize = 0;
        while k < part.len()
            invariant
                k <= part.len(),
                out@ == before + part@.take(k as int),
            decreases part.len() - k,
        {
            out.push(part[k]);
            assert(part@.take(k + 1) =~= part@.take(k as int).push(part@[k as int]));
            k += 1;
        }
        proof {
            assert(part@.take(part.len() as int) =~= part@);
            assert(views.take(w + 1) =~= views.take(w as int).push(part@));
            views.take(w as int).lemma_flatten_push(part@);
        }
        w += 1;
    }
    assert(views.take(parts.len() as int) =~= views);
    out
}

/// Whether every entry of `s` satisfies `p`.
pub open spec fn all_of<C>(s: Seq<C>, p: spec_fn(C) -> bool) -> bool {
    forall|i: int| 0 <= i < s.len() ==> p(#[trigger] s[i])
}

/// What holds of every entry of every part holds of every entry of the parts
/// laid end to end.
pub proof fn lemma_flatten_all<C>(parts: Seq<Seq<C>>, p: spec_fn(C) -> bool)
    requires
        forall|w: int| 0 <= w < parts.len() ==> all_of(#[trigger] parts[w], p),
    ensures
        all_of(parts.flatten(), p),
    decreases parts.len(),
{
    if parts.len() > 0 {
        lemma_flatten_all(parts.drop_first(), p);
    }
}

/// Parts of one width laid end to end are as long as their number times
/// the width.
pub proof fn lemma_flatten_uniform_len<C>(parts: Seq<Seq<C>>, width: nat)
    requires
        forall|b: int| 0 <= b < parts.len() ==> (#[trigger] parts[b]).len() == width,
    ensures
        parts.flatten().len() == parts.len() * width,
    decreases parts.len(),
{
    if parts.len() == 0 {
        assert(parts.len() * width == 0) by (nonlinear_arith)
            requires
                parts.len() == 0,
        ;
    } else {
        let front = parts.drop_last();
        assert forall|b: int| 0 <= b < front.len() implies (#[trigger] front[b]).len() == width by {
            assert(front[b] == parts[b]);
        }
        lemma_flatten_uniform_len(front, width);
        assert(parts =~= front.push(parts.last()));
        front.lemma_flatten_push(parts.last());
        assert(parts.last() == parts[parts.len() - 1]);
        assert(parts.len() * width == front.len() * width + width) by (nonlinear_arith)
            requires
                parts.len() == front.len() + 1,
        ;
    }
}

/// Parts of one width laid end to end: entry `i` of part `b` lies at
/// `b * width + i`.
pub proof fn lemma_flatten_uniform<C>(parts: Seq<Seq<C>>, width: nat, b: int, i: int)
    requires
        forall|k: int| 0 <= k < parts.len() ==> (#[trigger] parts[k]).len() == width,
        0 <= b < parts.len(),
        0 <= i < width,
    ensures
        0 <= b * width + i < parts.flatten().len(),
        parts.flatten()[b * width + i] == parts[b][i],
    decreases parts.len(),
{
    let front = parts.drop_last();
    assert forall|k: int| 0 <= k < front.len() implies (#[trigger] front[k]).len() == width by {
        assert(front[k] == parts[k]);
    }
    lemma_flatten_uniform_len(front, width);
    lemma_flatten_uniform_len(parts, width);
    assert(parts =~= front.push(parts.last()));
    front.lemma_flatten_push(parts.last());
    assert(parts.last() == parts[parts.len() - 1]);
    assert(parts.flatten() =~= front.flatten() + parts.last());
    if b < front.len() {
        lemma_flatten_uniform(front, width, b, i);
        assert(front[b] == parts[b]);
    } else {
        assert(b * width == front.len() * width) by (nonlinear_arith)
            requires
                b == front.len(),
        ;
    }
}

/// Inserting keeps what holds of the entries and of the new one.
pub proof fn lemma_insert_ranked_all<C: Candidate>(s: Seq<C>, c: C, p: spec_fn(C) -> bool)
    requires
        all_of(s, p),
        p(c),
    ensures
        all_of(insert_ranked(s, c), p),
    decreases s.len(),
{
    if !(s.len() == 0 || s.last().score() >= c.score()) {
        lemma_insert_ranked_all(s.drop_last(), c, p);
    }
}

/// Ranking only reorders: what holds of every candidate holds of every
/// ranked entry.
pub proof fn lemma_ranked_all<C: Candidate>(s: Seq<C>, p: spec_fn(C) -> bool)
    requires
        all_of(s, p),
    ensures
        all_of(ranked(s), p),
    decreases s.len(),
{
    if s.len() > 0 {
        lemma_ranked_all(s.drop_last(), p);
        lemma_insert_ranked_all(ranked(s.drop_last()), s.last(), p);
    }
}

/// Dropping repeats only drops: what holds of every entry holds of every
/// entry that stays.
pub proof fn lemma_deduped_all<C: Candidate>(s: Seq<C>, p: spec_fn(C) -> bool)
    requires
        all_of(s, p),
    ensures
        all_of(deduped(s), p),
    decreases s.len(),
{
    if s.len() > 0 {
        lemma_deduped_all(s.drop_last(), p);
    }
}

/// Every entry of the reduced row is one of the candidates: what holds of
/// every candidate holds of every entry that the row keeps.
pub proof fn lemma_reduced_all<C: Candidate>(candidates: Seq<C>, capacity: nat, p: spec_fn(C) -> bool)
    requires
        all_of(candidates, p),
        candidates.len() > 0 || capacity == 0,
    ensures
        all_of(reduced(candidates, capacity), p),
{
    lemma_ranked_all(candidates, p);
    lemma_deduped_all(ranked(candidates), p);
    let survivors = deduped(ranked(candidates));
    if candidates.len() > 0 {
        lemma_survivors_nonempty(candidates);
    }
    assert forall|i: int| 0 <= i < reduced(candidates, capacity).len() implies p(
        #[trigger] reduced(candidates, capacity)[i],
    ) by {
        let k = i % (survivors.len() as int);
        assert(p(survivors[k]));
    }
}

/// Inserting into a sorted sequence leaves it sorted.
pub proof fn lemma_insert_ranked_sorted<C: Candidate>(s: Seq<C>, c: C)
    requires
        sorted_by_score(s),
    ensures
        sorted_by_score(insert_ranked(s, c)),
    decreases s.len(),
{
    if !(s.len() == 0 || s.last().score() >= c.score()) {
        let front = s.drop_last();
        lemma_insert_ranked_sorted(front, c);
        let p = |x: C| x.score() >= s.last().score();
        assert(all_of(front, p));
        lemma_insert_ranked_all(front, c, p);
        let r = insert_ranked(front, c);
        assert forall|i: int, j: int| 0 <= i <= j < r.push(s.last()).len() implies r.push(
            s.last(),
        )[i].score() >= r.push(s.last())[j].score() by {
            if j == r.len() && i < r.len() {
                assert(p(r[i]));
            }
        }
    }
}

/// The ranked candidates are sorted: none scores higher than one before it.
pub proof fn lemma_ranked_sorted<C: Candidate>(s: Seq<C>)
    ensures
        sorted_by_score(ranked(s)),
    decreases s.len(),
{
    if s.len() > 0 {
        lemma_ranked_sorted(s.drop_last());
        lemma_insert_ranked_sorted(ranked(s.drop_last()), s.last());
    }
}

/// Inserting `c` adds it behind the entries of its own score and leaves the
/// entries of any other score as they were.
pub proof fn lemma_insert_ranked_stable<C: Candidate>(s: Seq<C>, c: C, key: i32)
    ensures
        with_score(insert_ranked(s, c), key) == if c.score() == key {
            with_score(s, key).push(c)
        } else {
            with_score(s, key)
        },
    decreases s.len(),
{
    let has_key = scores::<C>(key);
    if s.len() == 0 || s.last().score() >= c.score() {
        s.lemma_filter_push(c, has_key);
    } else {
        let front = s.drop_last();
        lemma_insert_ranked_stable(front, c, key);
        assert(s =~= front.push(s.last()));
        front.lemma_filter_push(s.last(), has_key);
        insert_ranked(front, c).lemma_filter_push(s.last(), has_key);
    }
}

/// Ranking is stable: the candidates of any one score stand in the ranked
/// sequence in the order in which they came, all of them and no others.
pub proof fn lemma_ranked_stable<C: Candidate>(s: Seq<C>, key: i32)
    ensures
        with_score(ranked(s), key) == with_score(s, key),
    decreases s.len(),
{
    let has_key = scores::<C>(key);
    if s.len() == 0 {
    } else {
        let front = s.drop_last();
        lemma_ranked_stable(front, key);
        lemma_insert_ranked_stable(ranked(front), s.last(), key);
        assert(s =~= front.push(s.last()));
        front.lemma_filter_push(s.last(), has_key);
    }
}

/// Whether `r` is `s` ranked: it is sorted by score, and for every score it
/// holds the candidates of `s` with that score, in the order they have in
/// `s`.
pub open spec fn is_ranking<C: Candidate>(s: Seq<C>, r: Seq<C>) -> bool {
    &&& sorted_by_score(r)
    &&& forall|key: i32| #[trigger] with_score(r, key) == with_score(s, key)
}

/// `ranked` ranks: what it returns is sorted and stable.
pub proof fn lemma_ranked_is_ranking<C: Candidate>(s: Seq<C>)
    ensures
        is_ranking(s, ranked(s)),
{
    lemma_ranked_sorted(s);
    assert forall|key: i32| #[trigger] with_score(ranked(s), key) == with_score(s, key) by {
        lemma_ranked_stable(s, key);
    }
}

/// There is one way to rank: a sequence that is sorted and holds for every
/// score the candidates of `s` with that score in their order is `ranked(s)`.
pub proof fn lemma_ranking_unique<C: Candidate>(s: Seq<C>, r: Seq<C>)
    requires
        is_ranking(s, r),
    ensures
        r == ranked(s),
{
    lemma_ranked_is_ranking(s);
    assert forall|key: i32| #[trigger] with_score(r, key) == with_score(ranked(s), key) by {
        assert(with_score(r, key) == with_score(s, key));
        assert(with_score(ranked(s), key) == with_score(s, key));
    }
    lemma_sorted_stable_equal(r, ranked(s));
}

/// The entries of one score: the last entry of a sequence is the last of the
/// entries of its score, and is no entry of another score.
pub proof fn lemma_with_score_last<C: Candidate>(s: Seq<C>, key: i32)
    requires
        s.len() > 0,
    ensures
        with_score(s, key) == if s.last().score() == key {
            with_score(s.drop_last(), key).push(s.last())
        } else {
            with_score(s.drop_last(), key)
        },
{
    assert(s =~= s.drop_last().push(s.last()));
    s.drop_last().lemma_filter_push(s.last(), scores::<C>(key));
}

/// Where a sequence has entries of a score, one of its entries has that
/// score.
pub proof fn lemma_with_score_member<C: Candidate>(s: Seq<C>, key: i32)
    requires
        with_score(s, key).len() > 0,
    ensures
        exists|i: int| 0 <= i < s.len() && (#[trigger] s[i]).score() == key,
    decreases s.len(),
{
    if s.len() == 0 {
        assert(s =~= Seq::<C>::empty());
        Seq::<C>::empty().lemma_filter_len(scores::<C>(key));
    } else {
        lemma_with_score_last(s, key);
        if s.last().score() == key {
            assert(s[s.len() - 1].score() == key);
        } else {
            lemma_with_score_member(s.drop_last(), key);
            let i = choose|i: int|
                0 <= i < s.drop_last().len() && (#[trigger] s.drop_last()[i]).score() == key;
            assert(s[i].score() == key);
        }
    }
}

/// Two sorted sequences that hold for every score the same entries in the
/// same order are the same sequence.
pub proof fn lemma_sorted_stable_equal<C: Candidate>(a: Seq<C>, b: Seq<C>)
    requires
        sorted_by_score(a),
        sorted_by_score(b),
        forall|key: i32| #[trigger] with_score(a, key) == with_score(b, key),
    ensures
        a == b,
    decreases a.len() + b.len(),
{
    if a.len() == 0 && b.len() == 0 {
        assert(a =~= b);
    } else if a.len() == 0 || b.len() == 0 {
        // The sequence that has an entry has an entry of its score; the
        // empty one has none.
        let full = if a.len() == 0 {
            b
        } else {
            a
        };
        let empty = if a.len() == 0 {
            a
        } else {
            b
        };
        let key = full.last().score();
        lemma_with_score_last(full, key);
        assert(with_score(full, key).len() > 0);
        assert(with_score(empty, key) == with_score(full, key));
        lemma_with_score_member(empty, key);
    } else {
        let m = a.last().score();
        let n = b.last().score();
        lemma_with_score_last(a, m);
        lemma_with_score_last(b, n);
        assert(with_score(b, m) == with_score(a, m));
        assert(with_score(a, n) == with_score(b, n));
        lemma_with_score_member(b, m);
        lemma_with_score_member(a, n);
        let i = choose|i: int| 0 <= i < b.len() && (#[trigger] b[i]).score() == m;
        let j = choose|j: int| 0 <= j < a.len() && (#[trigger] a[j]).score() == n;
        assert(b[i].score() >= b[b.len() - 1].score());
        assert(a[j].score() >= a[a.len() - 1].score());
        assert(m == n);
        lemma_with_score_last(b, m);
        assert(with_score(a, m).last() == a.last());
        assert(with_score(b, m).last() == b.last());
        assert(a.last() == b.last());
        let front_a = a.drop_last();
        let front_b = b.drop_last();
        assert forall|key: i32| #[trigger] with_score(front_a, key) == with_score(
            front_b,
            key,
        ) by {
            lemma_with_score_last(a, key);
            lemma_with_score_last(b, key);
            assert(with_score(a, key) == with_score(b, key));
            if key == m {
                assert(with_score(front_a, key) =~= with_score(a, key).drop_last());
                assert(with_score(front_b, key) =~= with_score(b, key).drop_last());
            }
        }
        lemma_sorted_stable_equal(front_a, front_b);
        assert(a =~= front_a.push(a.last()));
        assert(b =~= front_b.push(b.last()));
    }
}

/// Ranking neither adds, drops nor changes a candidate: the ranked sequence
/// holds every candidate as often as it came.
pub proof fn lemma_ranked_permutation<C: Candidate>(s: Seq<C>)
    ensures
        ranked(s).to_multiset() == s.to_multiset(),
    decreases s.len(),
{
    if s.len() > 0 {
        let front = s.drop_last();
        lemma_ranked_permutation(front);
        lemma_insert_ranked_permutation(ranked(front), s.last());
        assert(s =~= front.push(s.last()));
        to_multiset_build(front, s.last());
    }
}

/// Inserting adds the new entry once and leaves the others as often as they
/// were.
pub proof fn lemma_insert_ranked_permutation<C: Candidate>(s: Seq<C>, c: C)
    ensures
        insert_ranked(s, c).to_multiset() == s.to_multiset().insert(c),
    decreases s.len(),
{
    if s.len() == 0 || s.last().score() >= c.score() {
        to_multiset_build(s, c);
    } else {
        let front = s.drop_last();
        lemma_insert_ranked_permutation(front, c);
        assert(s =~= front.push(s.last()));
        to_multiset_build(front, s.last());
        to_multiset_build(insert_ranked(front, c), s.last());
        assert(front.to_multiset().insert(c).insert(s.last()) =~= front.to_multiset().insert(
            s.last(),
        ).insert(c));
    }
}

/// A sequence that has any entry keeps, after repeats are dropped, a last
/// entry with the outcome of its own last entry.
pub proof fn lemma_deduped_last<C: Candidate>(s: Seq<C>)
    requires
        s.len() > 0,
    ensures
        deduped(s).len() > 0,
        deduped(s).last().outcome() == s.last().outcome(),
        deduped(s)[0] == s[0],
    decreases s.len(),
{
    if s.len() >= 2 {
        lemma_deduped_last(s.drop_last());
    } else {
        assert(deduped(s.drop_last()).len() == 0);
    }
}

/// Dropping repeats leaves a sorted sequence sorted.
pub proof fn lemma_deduped_sorted<C: Candidate>(s: Seq<C>)
    requires
        sorted_by_score(s),
    ensures
        sorted_by_score(deduped(s)),
    decreases s.len(),
{
    if s.len() > 0 {
        let front = s.drop_last();
        lemma_deduped_sorted(front);
        let p = |x: C| x.score() >= s.last().score();
        assert(all_of(front, p));
        lemma_deduped_all(front, p);
        let d = deduped(front);
        assert forall|i: int, j: int| 0 <= i <= j < d.push(s.last()).len() implies d.push(
            s.last(),
        )[i].score() >= d.push(s.last())[j].score() by {
            if j == d.len() && i < d.len() {
                assert(p(d[i]));
            }
        }
    }
}

/// After repeats are dropped no entry proposes the outcome of the entry
/// right before it.
pub proof fn lemma_deduped_adjacent_distinct<C: Candidate>(s: Seq<C>)
    ensures
        forall|i: int|
            0 <= i && i + 1 < deduped(s).len() ==> (#[trigger] deduped(s)[i]).outcome() != deduped(
                s,
            )[i + 1].outcome(),
    decreases s.len(),
{
    if s.len() >= 2 {
        lemma_deduped_adjacent_distinct(s.drop_last());
        lemma_deduped_last(s.drop_last());
    } else if s.len() == 1 {
        assert(deduped(s.drop_last()).len() == 0);
    }
}

/// Whether the entries of `s` that propose one outcome stand next to each
/// other, with no other outcome between them.
pub open spec fn repeats_adjacent<C: Candidate>(s: Seq<C>) -> bool {
    forall|i: int, k: int, j: int|
        0 <= i < k < j < s.len() && (#[trigger] s[i]).outcome() == (#[trigger] s[j]).outcome()
            ==> (#[trigger] s[k]).outcome() == s[i].outcome()
}

/// Whether no two entries of `s` propose the same outcome.
pub open spec fn distinct_outcomes<C: Candidate>(s: Seq<C>) -> bool {
    forall|i: int, j: int|
        0 <= i < j < s.len() ==> (#[trigger] s[i]).outcome() != (#[trigger] s[j]).outcome()
}

/// Where equal outcomes stand next to each other, dropping repeats leaves
/// every outcome once.
pub proof fn lemma_deduped_distinct<C: Candidate>(s: Seq<C>)
    requires
        repeats_adjacent(s),
    ensures
        distinct_outcomes(deduped(s)),
    decreases s.len(),
{
    if s.len() > 0 {
        let front = s.drop_last();
        let last = s.len() - 1;
        assert(repeats_adjacent(front)) by {
            assert forall|i: int, k: int, j: int|
                0 <= i < k < j < front.len() && (#[trigger] front[i]).outcome() == (
                #[trigger] front[j]).outcome() implies (#[trigger] front[k]).outcome()
                == front[i].outcome() by {
                assert(s[i].outcome() == s[j].outcome());
                assert(s[k].outcome() == s[i].outcome());
            }
        }
        lemma_deduped_distinct(front);
        if !(s.len() >= 2 && s[last].outcome() == s[last - 1].outcome()) {
            let p = |x: C| x.outcome() != s.last().outcome();
            assert(all_of(front, p)) by {
                assert forall|k: int| 0 <= k < front.len() implies p(#[trigger] front[k]) by {
                    if s[k].outcome() == s[last].outcome() && k < last - 1 {
                        assert(s[last - 1].outcome() == s[k].outcome());
                    }
                }
            }
            lemma_deduped_all(front, p);
            let d = deduped(front);
            assert forall|i: int, j: int| 0 <= i < j < d.push(s.last()).len() implies (
            #[trigger] d.push(s.last())[i]).outcome() != (#[trigger] d.push(
                s.last(),
            )[j]).outcome() by {
                if j == d.len() {
                    assert(p(d[i]));
                } else {
                    assert(d[i].outcome() != d[j].outcome());
                }
            }
        }
    }
}

/// Where dropping repeats leaves every outcome once, equal outcomes stood
/// next to each other.
pub proof fn lemma_distinct_means_adjacent<C: Candidate>(s: Seq<C>)
    requires
        distinct_outcomes(deduped(s)),
    ensures
        repeats_adjacent(s),
    decreases s.len(),
{
    if s.len() > 0 {
        let front = s.drop_last();
        let d = deduped(front);
        let last = s.len() - 1;
        if s.len() >= 2 && s[last].outcome() == s[last - 1].outcome() {
            lemma_distinct_means_adjacent(front);
            assert forall|i: int, k: int, j: int|
                0 <= i < k < j < s.len() && (#[trigger] s[i]).outcome() == (
                #[trigger] s[j]).outcome() implies (#[trigger] s[k]).outcome()
                == s[i].outcome() by {
                if j == last {
                    if k < last - 1 {
                        assert(front[i].outcome() == front[last - 1].outcome());
                        assert(front[k].outcome() == front[i].outcome());
                    }
                } else {
                    assert(front[i].outcome() == front[j].outcome());
                    assert(front[k].outcome() == front[i].outcome());
                }
            }
        } else {
            assert(distinct_outcomes(d)) by {
                assert forall|i: int, j: int| 0 <= i < j < d.len() implies (
                #[trigger] d[i]).outcome() != (#[trigger] d[j]).outcome() by {
                    assert(d.push(s.last())[i] == d[i]);
                    assert(d.push(s.last())[j] == d[j]);
                }
            }
            lemma_distinct_means_adjacent(front);
            assert forall|i: int| 0 <= i < last implies s[i].outcome() != s[last].outcome() by {
                lemma_deduped_covers(front, i);
                let k = choose|k: int| 0 <= k < d.len() && d[k].outcome() == front[i].outcome();
                assert(d.push(s.last())[k] == d[k]);
                assert(d.push(s.last())[d.len() as int] == s.last());
            }
            assert forall|i: int, k: int, j: int|
                0 <= i < k < j < s.len() && (#[trigger] s[i]).outcome() == (
                #[trigger] s[j]).outcome() implies (#[trigger] s[k]).outcome()
                == s[i].outcome() by {
                if j < last {
                    assert(front[i].outcome() == front[j].outcome());
                    assert(front[k].outcome() == front[i].outcome());
                }
            }
        }
    }
}

/// Every outcome of `s` is still proposed after repeats are dropped.
pub proof fn lemma_deduped_covers<C: Candidate>(s: Seq<C>, i: int)
    requires
        0 <= i < s.len(),
    ensures
        exists|k: int| 0 <= k < deduped(s).len() && deduped(s)[k].outcome() == s[i].outcome(),
    decreases s.len(),
{
    let front = s.drop_last();
    if i < s.len() - 1 {
        lemma_deduped_covers(front, i);
        let k = choose|k: int| 0 <= k < deduped(front).len() && deduped(front)[k].outcome()
            == front[i].outcome();
        assert(deduped(s)[k] == deduped(front)[k]);
    } else {
        lemma_deduped_last(s);
        let k = deduped(s).len() - 1;
        assert(deduped(s)[k].outcome() == s[i].outcome());
    }
}

/// How many entries of the reduced row stand there before the reducer runs
/// out of survivors and starts to repeat them.
pub open spec fn kept<C: Candidate>(candidates: Seq<C>, capacity: nat) -> nat {
    if capacity <= deduped(ranked(candidates)).len() {
        capacity
    } else {
        deduped(ranked(candidates)).len()
    }
}

/// The row that the reducer keeps has exactly `capacity` entries.
pub proof fn lemma_reduced_len<C: Candidate>(candidates: Seq<C>, capacity: nat)
    ensures
        reduced(candidates, capacity).len() == capacity,
{
}

/// The row that the reducer keeps, slot by slot: the survivors from the best
/// down, and where they run out, the survivors again from the best down, and
/// so on. Up to the number of survivors every slot holds the survivor of its
/// own index.
pub proof fn lemma_reduced_slots<C: Candidate>(candidates: Seq<C>, capacity: nat)
    requires
        candidates.len() > 0,
    ensures
        deduped(ranked(candidates)).len() > 0,
        forall|j: int|
            0 <= j < capacity ==> #[trigger] reduced(candidates, capacity)[j] == deduped(
                ranked(candidates),
            )[j % (deduped(ranked(candidates)).len() as int)],
        forall|j: int|
            0 <= j < kept(candidates, capacity) ==> #[trigger] reduced(candidates, capacity)[j]
                == deduped(ranked(candidates))[j],
{
    lemma_survivors_nonempty(candidates);
    let n = deduped(ranked(candidates)).len() as int;
    assert forall|j: int| 0 <= j < kept(candidates, capacity) implies #[trigger] reduced(
        candidates,
        capacity,
    )[j] == deduped(ranked(candidates))[j] by {
        assert(j % n == j) by (nonlinear_arith)
            requires
                0 <= j < n,
        ;
    }
}

/// Before the reducer starts to repeat survivors, no entry of the row that it
/// keeps proposes the outcome of the entry right before it.
pub proof fn lemma_reduced_adjacent_distinct<C: Candidate>(candidates: Seq<C>, capacity: nat)
    requires
        candidates.len() > 0,
    ensures
        forall|i: int|
            0 <= i && i + 1 < kept(candidates, capacity) ==> (#[trigger] reduced(
                candidates,
                capacity,
            )[i]).outcome() != reduced(candidates, capacity)[i + 1].outcome(),
{
    lemma_reduced_slots(candidates, capacity);
    lemma_deduped_adjacent_distinct(ranked(candidates));
    let survivors = deduped(ranked(candidates));
    assert forall|i: int| 0 <= i && i + 1 < kept(candidates, capacity) implies (#[trigger] reduced(
        candidates,
        capacity,
    )[i]).outcome() != reduced(candidates, capacity)[i + 1].outcome() by {
        assert(reduced(candidates, capacity)[i] == survivors[i]);
        assert(reduced(candidates, capacity)[i + 1] == survivors[i + 1]);
        assert(survivors[i].outcome() != survivors[i + 1].outcome());
    }
}

/// The row that the reducer keeps is sorted by score exactly where nothing
/// had to be repeated to fill it, or all survivors score the same: the
/// survivors stand in it from the best score down, and a repetition starts
/// over at the best.
pub proof fn lemma_reduced_sorted<C: Candidate>(candidates: Seq<C>, capacity: nat)
    requires
        candidates.len() > 0,
    ensures
        sorted_by_score(reduced(candidates, capacity)) <==> (capacity <= deduped(
            ranked(candidates),
        ).len() || deduped(ranked(candidates)).first().score() == deduped(
            ranked(candidates),
        ).last().score()),
        sorted_by_score(reduced(candidates, capacity).take(kept(candidates, capacity) as int)),
{
    let survivors = deduped(ranked(candidates));
    let n = survivors.len() as int;
    let out = reduced(candidates, capacity);
    lemma_survivors_nonempty(candidates);
    lemma_ranked_sorted(candidates);
    lemma_deduped_sorted(ranked(candidates));
    assert forall|i: int| 0 <= i < out.len() && i < n implies out[i] == survivors[i] by {
        assert(i % n == i) by (nonlinear_arith)
            requires
                0 <= i < n,
        ;
    }
    let head = out.take(kept(candidates, capacity) as int);
    assert forall|i: int, j: int| 0 <= i <= j < head.len() implies head[i].score()
        >= head[j].score() by {
        assert(head[i] == survivors[i]);
        assert(head[j] == survivors[j]);
    }
    if capacity <= n || survivors.first().score() == survivors.last().score() {
        assert forall|i: int, j: int| 0 <= i <= j < out.len() implies out[i].score()
            >= out[j].score() by {
            let a = i % n;
            let b = j % n;
            assert(0 <= a < n && 0 <= b < n) by (nonlinear_arith)
                requires
                    0 <= i,
                    0 <= j,
                    0 < n,
                    a == i % n,
                    b == j % n,
            ;
            if capacity <= n {
            } else {
                assert(survivors[0].score() >= survivors[a].score());
                assert(survivors[a].score() >= survivors[n - 1].score());
                assert(survivors[0].score() >= survivors[b].score());
                assert(survivors[b].score() >= survivors[n - 1].score());
            }
        }
    } else {
        assert(n % n == 0) by (nonlinear_arith)
            requires
                0 < n,
        ;
        assert(out[n - 1] == survivors[n - 1]);
        assert(out[n] == survivors[0]);
        assert(survivors[0].score() >= survivors[n - 1].score());
        assert(!(out[n - 1].score() >= out[n].score()));
    }
}

/// Where equal outcomes stand next to each other once the candidates are
/// ranked, the row that the reducer keeps proposes no outcome twice before
/// it runs out of survivors and starts to repeat them.
pub proof fn lemma_reduced_distinct<C: Candidate>(candidates: Seq<C>, capacity: nat)
    requires
        candidates.len() > 0,
        repeats_adjacent(ranked(candidates)),
    ensures
        distinct_outcomes(reduced(candidates, capacity).take(kept(candidates, capacity) as int)),
{
    let survivors = deduped(ranked(candidates));
    let n = survivors.len() as int;
    let out = reduced(candidates, capacity);
    lemma_survivors_nonempty(candidates);
    lemma_deduped_distinct(ranked(candidates));
    assert forall|i: int| 0 <= i < out.len() && i < n implies out[i] == survivors[i] by {
        assert(i % n == i) by (nonlinear_arith)
            requires
                0 <= i < n,
        ;
    }
    let head = out.take(kept(candidates, capacity) as int);
    assert forall|i: int, j: int| 0 <= i < j < head.len() implies (#[trigger] head[i]).outcome() != (
    #[trigger] head[j]).outcome() by {
        assert(head[i] == survivors[i]);
        assert(head[j] == survivors[j]);
    }
}

} // verus!
