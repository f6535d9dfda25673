//! Levenshtein edit distance between token sequences, for one pair and for a
//! batch of padded rows.
use crate::batch::row_of;
use crate::batch::BatchView;
use crate::parallel::par_map_range;
use vstd::prelude::*;

verus! {

/// Cost of aligning token `x` with token `y`: nothing if they agree, one
/// substitution otherwise.
pub open spec fn substitution_cost(x: i32, y: i32) -> nat {
    if x == y {
        0
    } else {
        1
    }
}

/// The smallest of three naturals.
pub open spec fn min3(x: nat, y: nat, z: nat) -> nat {
    if x <= y && x <= z {
        x
    } else if y <= z {
        y
    } else {
        z
    }
}

/// The edit distance between `a` and `b`: the least number of insertions,
/// deletions and substitutions of single tokens that turns one into the other.
///
/// Turning the empty sequence into `b` takes `b.len()` insertions, and the
/// other way round. Otherwise the last tokens are either aligned with each
/// other, or the last token of `a` is deleted, or the last token of `b` is
/// inserted.
pub open spec fn levenshtein(a: Seq<i32>, b: Seq<i32>) -> nat
    decreases a.len() + b.len(),
{
    if a.len() == 0 {
        b.len()
    } else if b.len() == 0 {
        a.len()
    } else {
        min3(
            levenshtein(a.drop_last(), b.drop_last()) + substitution_cost(a.last(), b.last()),
            levenshtein(a.drop_last(), b) + 1,
            levenshtein(a, b.drop_last()) + 1,
        )
    }
}

/// The distance never exceeds the length of the longer sequence.
pub proof fn lemma_levenshtein_upper_bound(a: Seq<i32>, b: Seq<i32>)
    ensures
        levenshtein(a, b) <= a.len() || levenshtein(a, b) <= b.len(),
        a.len() >= b.len() ==> levenshtein(a, b) <= a.len(),
        b.len() >= a.len() ==> levenshtein(a, b) <= b.len(),
    decreases a.len() + b.len(),
{
    if a.len() != 0 && b.len() != 0 {
        lemma_levenshtein_upper_bound(a.drop_last(), b.drop_last());
    }
}

/// The distance is symmetric in its two arguments.
pub proof fn lemma_levenshtein_symmetric(a: Seq<i32>, b: Seq<i32>)
    ensures
        levenshtein(a, b) == levenshtein(b, a),
    decreases a.len() + b.len(),
{
    if a.len() != 0 && b.len() != 0 {
        lemma_levenshtein_symmetric(a.drop_last(), b.drop_last());
        lemma_levenshtein_symmetric(a.drop_last(), b);
        lemma_levenshtein_symmetric(a, b.drop_last());
    }
}

/// A sequence is at distance zero from itself.
pub proof fn lemma_levenshtein_identical(a: Seq<i32>)
    ensures
        levenshtein(a, a) == 0,
    decreases a.len(),
{
    if a.len() != 0 {
        lemma_levenshtein_identical(a.drop_last());
    }
}

/// The distance from the empty sequence is the length of the other sequence.
pub proof fn lemma_levenshtein_from_empty(b: Seq<i32>)
    ensures
        levenshtein(Seq::<i32>::empty(), b) == b.len(),
        levenshtein(b, Seq::<i32>::empty()) == b.len(),
{
}

/// Sequences at distance zero are the same sequence.
pub proof fn lemma_levenshtein_zero_means_equal(a: Seq<i32>, b: Seq<i32>)
    requires
        levenshtein(a, b) == 0,
    ensures
        a == b,
    decreases a.len() + b.len(),
{
    if a.len() == 0 || b.len() == 0 {
        assert(a =~= b);
    } else {
        lemma_levenshtein_zero_means_equal(a.drop_last(), b.drop_last());
        assert(a =~= a.drop_last().push(a.last()));
        assert(b =~= b.drop_last().push(b.last()));
    }
}

/// The cost of aligning `x` with `y`.
fn delta(x: i32, y: i32) -> (d: i64)
    ensures
        d == substitution_cost(x, y),
{
    if x == y {
        0
    } else {
        1
    }
}

/// The smaller of two numbers.
fn min_of(x: i64, y: i64) -> (m: i64)
    ensures
        m == if x <= y { x } else { y },
{
    if x <= y {
        x
    } else {
        y
    }
}

/// Computes the edit distance between `a` and `b` with two rolling rows of
/// the dynamic-programming table, each `b.len() + 1` long.
pub fn levenshtein_edit_distance_kernel(a: &[i32], b: &[i32]) -> (distance: i32)
    requires
        a.len() <= i32::MAX,
        b.len() <= i32::MAX,
    ensures
        distance == levenshtein(a@, b@),
        a@ == b@ ==> distance == 0,
        a@.len() == 0 ==> distance == b@.len(),
        b@.len() == 0 ==> distance == a@.len(),
{
    proof {
        if a@ == b@ {
            lemma_levenshtein_identical(a@);
        }
    }
    let m_len: usize = a.len();
    let n_len: usize = b.len();
    let mut e: Vec<i32> = Vec::with_capacity(n_len + 1);
    let mut k: usize = 0;
    while k <= n_len
        invariant
            n_len == b.len(),
            n_len <= i32::MAX,
            k <= n_len + 1,
            e.len() == k,
            forall|n: int| 0 <= n < k ==> e[n] == levenshtein(a@.take(0), b@.take(n)),
        decreases n_len + 1 - k,
    {
        e.push(k as i32);
        k += 1;
    }
    let mut m: usize = 1;
    while m <= m_len
        invariant
            m_len == a.len(),
            n_len == b.len(),
            m_len <= i32::MAX,
            n_len <= i32::MAX,
            1 <= m <= m_len + 1,
            e.len() == n_len + 1,
            forall|n: int| 0 <= n <= n_len ==> e[n] == levenshtein(a@.take(m - 1), b@.take(n)),
        decreases m_len + 1 - m,
    {
        let mut e_tmp: Vec<i32> = Vec::with_capacity(n_len + 1);
        proof {
            lemma_levenshtein_upper_bound(a@.take(m - 1), b@.take(0));
        }
        e_tmp.push(e[0] + 1);
        let mut n: usize = 1;
        while n <= n_len
            invariant
                m_len == a.len(),
                n_len == b.len(),
                m_len <= i32::MAX,
                n_len <= i32::MAX,
                1 <= m <= m_len,
                1 <= n <= n_len + 1,
                e.len() == n_len + 1,
                e_tmp.len() == n,
                forall|j: int| 0 <= j <= n_len ==> e[j] == levenshtein(a@.take(m - 1), b@.take(j)),
                forall|j: int| 0 <= j < n ==> e_tmp[j] == levenshtein(a@.take(m as int), b@.take(j)),
            decreases n_len + 1 - n,
        {
            let ghost a_now = a@.take(m as int);
            let ghost b_now = b@.take(n as int);
            proof {
                assert(a_now.drop_last() =~= a@.take(m - 1));
                assert(b_now.drop_last() =~= b@.take(n - 1));
                assert(a_now.last() == a@[m - 1]);
                assert(b_now.last() == b@[n - 1]);
                lemma_levenshtein_upper_bound(a_now, b_now);
                lemma_levenshtein_upper_bound(a_now.drop_last(), b_now.drop_last());
                lemma_levenshtein_upper_bound(a_now.drop_last(), b_now);
                lemma_levenshtein_upper_bound(a_now, b_now.drop_last());
            }
            let term1: i64 = e[n - 1] as i64 + delta(a[m - 1], b[n - 1]);
            let term2: i64 = e[n] as i64 + 1;
            let term3: i64 = e_tmp[n - 1] as i64 + 1;
            let best: i64 = min_of(term1, min_of(term2, term3));
            assert(best == levenshtein(a_now, b_now));
            e_tmp.push(best as i32);
            n += 1;
        }
        e = e_tmp;
        m += 1;
    }
    assert(a@.take(m_len as int) =~= a@);
    assert(b@.take(n_len as int) =~= b@);
    e[n_len]
}

/// The true tokens of row `row` of a padded batch: the first `lengths[row]`
/// entries of the `max_length` wide row.
pub open spec fn row_tokens(data: Seq<i32>, lengths: Seq<i32>, max_length: int, row: int) -> Seq<
    i32,
> {
    row_of(data, max_length, row).take(lengths[row] as int)
}

/// Whether `lengths` gives every row of a batch a true length between zero
/// and the padded width.
pub open spec fn lengths_within(lengths: Seq<i32>, max_length: int) -> bool {
    forall|i: int| 0 <= i < lengths.len() ==> 0 <= #[trigger] lengths[i] <= max_length
}

/// Computes the edit distance of every row of a batch, the rows in parallel.
///
/// `a` and `b` hold `batch_size` rows of `max_length` tokens each; row `i`
/// counts only up to its true length `a_lengths[i]`, resp. `b_lengths[i]`,
/// and what follows in the row is padding.
pub fn levenshtein_edit_distance(
    a: &[i32],
    b: &[i32],
    a_lengths: &[i32],
    b_lengths: &[i32],
    batch_size: usize,
    max_length: usize,
) -> (distances: Vec<i32>)
    requires
        a.len() == b.len(),
        a.len() == batch_size * max_length,
        a_lengths.len() == batch_size,
        a_lengths.len() == b_lengths.len(),
        lengths_within(a_lengths@, max_length as int),
        lengths_within(b_lengths@, max_length as int),
    ensures
        distances.len() == batch_size,
        forall|i: int|
            0 <= i < batch_size ==> #[trigger] distances[i] == levenshtein(
                row_tokens(a@, a_lengths@, max_length as int, i),
                row_tokens(b@, b_lengths@, max_length as int, i),
            ),
{
    let a_rows = BatchView::new(a, max_length, batch_size);
    let b_rows = BatchView::new(b, max_length, batch_size);
    let row_distance = |i: usize| -> (d: i32)
        requires
            i < batch_size,
        ensures
            d == levenshtein(
                row_tokens(a@, a_lengths@, max_length as int, i as int),
                row_tokens(b@, b_lengths@, max_length as int, i as int),
            ),
        {
            let a_len: usize = a_lengths[i] as usize;
            let b_len: usize = b_lengths[i] as usize;
            let a_row = a_rows.prefix(i, a_len);
            let b_row = b_rows.prefix(i, b_len);
            levenshtein_edit_distance_kernel(a_row, b_row)
        };
    par_map_range(batch_size, row_distance)
}

} // verus!
