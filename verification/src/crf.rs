//! Choosing the CRF: the search for a CRF that scores 90, and the summaries
//! of the CRFs found for the clips.
use vstd::prelude::*;

use crate::text::same_text;

verus! {

// ---------------------------------------------------------------------------
// Summaries of a list of CRFs
// ---------------------------------------------------------------------------

/// The sum of the values.
pub open spec fn sum_spec(s: Seq<i32>) -> int
    decreases s.len(),
{
    if s.len() == 0 {
        0
    } else {
        sum_spec(s.drop_last()) + s.last()
    }
}

/// Whether every running sum of the values, from the left, fits in an `i32`.
pub open spec fn running_sums_fit(s: Seq<i32>) -> bool {
    forall|k: int|
        0 <= k <= s.len() ==> i32::MIN <= #[trigger] sum_spec(s.take(k)) <= i32::MAX
}

/// Integer division that rounds toward zero, as Rust's `/` on integers does.
pub open spec fn div_toward_zero(a: int, b: int) -> int {
    let q = (if a < 0 { -a } else { a }) / (if b < 0 { -b } else { b });
    if (a < 0) == (b < 0) {
        q
    } else {
        -q
    }
}

/// The smallest CRF of the list.
pub fn find_lowest_crf(crf_list: Vec<i32>) -> (r: i32)
    requires
        crf_list@.len() > 0,
    ensures
        crf_list@.contains(r),
        forall|i: int| 0 <= i < crf_list@.len() ==> r <= #[trigger] crf_list@[i],
{
    let mut best = crf_list[0];
    let mut i: usize = 1;
    while i < crf_list.len()
        invariant
            1 <= i <= crf_list@.len(),
            crf_list@.contains(best),
            forall|j: int| 0 <= j < i ==> best <= #[trigger] crf_list@[j],
        decreases crf_list@.len() - i,
    {
        if crf_list[i] < best {
            best = crf_list[i];
        }
        i += 1;
    }
    best
}

/// The average of the CRFs, rounded toward zero, where the list's length is
/// taken as an `i32` as the `as` conversion gives it.
pub fn find_average_crf(crf_list: Vec<i32>) -> (r: i32)
    requires
        running_sums_fit(crf_list@),
        crf_list@.len() as i32 != 0,
        !(sum_spec(crf_list@) == i32::MIN && crf_list@.len() as i32 == -1),
    ensures
        r == div_toward_zero(sum_spec(crf_list@), (crf_list@.len() as i32) as int),
{
    let list_len = crf_list.len();
    let mut sum: i32 = 0;
    let mut i: usize = 0;
    assert(crf_list@.take(0) =~= Seq::<i32>::empty());
    while i < list_len
        invariant
            list_len == crf_list@.len(),
            i <= list_len,
            running_sums_fit(crf_list@),
            sum == sum_spec(crf_list@.take(i as int)),
        decreases list_len - i,
    {
        assert(crf_list@.take(i + 1).drop_last() =~= crf_list@.take(i as int));
        assert(crf_list@.take(i + 1).last() == crf_list@[i as int]);
        assert(i32::MIN <= sum_spec(crf_list@.take(i + 1)) <= i32::MAX);
        sum = sum + crf_list[i];
        i += 1;
    }
    assert(crf_list@.take(list_len as int) =~= crf_list@);
    let d = list_len as i32;
    divide_toward_zero(sum, d)
}

/// `a / b` as Rust computes it on `i32`.
fn divide_toward_zero(a: i32, b: i32) -> (q: i32)
    requires
        b != 0,
        !(a == i32::MIN && b == -1),
    ensures
        q == div_toward_zero(a as int, b as int),
{
    if b > 0 {
        let q = a / b;
        assert(a >= 0 ==> q == (a as int) / (b as int));
        assert(a < 0 ==> q == -((-(a as int)) / (b as int)));
        q
    } else if b == i32::MIN {
        if a == i32::MIN {
            1
        } else {
            assert((if a < 0 { -a } else { a as int }) < 0x8000_0000);
            0
        }
    } else if b == -1 {
        -a
    } else {
        let nb: i32 = -b;
        let q = a / nb;
        assert(a >= 0 ==> (a as int) / (nb as int) <= a) by (nonlinear_arith)
            requires nb >= 2;
        assert(a < 0 ==> (-(a as int)) / (nb as int) <= -(a as int) / 2) by (nonlinear_arith)
            requires nb >= 2;
        assert(a >= 0 ==> q == (a as int) / (nb as int));
        assert(a < 0 ==> q == -((-(a as int)) / (nb as int)));
        -q
    }
}

/// Whether `find_average_crf` is defined on the list, decided before the call.
pub fn average_is_defined(crf_list: &Vec<i32>) -> (r: bool)
    ensures
        r == (running_sums_fit(crf_list@) && crf_list@.len() as i32 != 0 && !(sum_spec(crf_list@)
            == i32::MIN && crf_list@.len() as i32 == -1)),
{
    let n = crf_list.len();
    let mut sum: i64 = 0;
    let mut i: usize = 0;
    assert(crf_list@.take(0) =~= Seq::<i32>::empty());
    while i < n
        invariant
            n == crf_list@.len(),
            i <= n,
            sum == sum_spec(crf_list@.take(i as int)),
            forall|k: int| 0 <= k <= i ==> i32::MIN <= #[trigger] sum_spec(crf_list@.take(k)) <= i32::MAX,
        decreases n - i,
    {
        assert(crf_list@.take(i + 1).drop_last() =~= crf_list@.take(i as int));
        sum = sum + crf_list[i] as i64;
        if sum < i32::MIN as i64 || sum > i32::MAX as i64 {
            assert(!running_sums_fit(crf_list@)) by {
                assert(!(i32::MIN <= sum_spec(crf_list@.take(i + 1)) <= i32::MAX));
            }
            return false;
        }
        i += 1;
    }
    assert(crf_list@.take(n as int) =~= crf_list@);
    let d = n as i32;
    d != 0 && !(sum == i32::MIN as i64 && d == -1)
}

/// The CRF that the encode of the whole video uses: the smallest one where the
/// option reads `smallest`, the average otherwise.
pub fn crf_for_option(crf_option: &str, smallest: i32, average: i32) -> (r: i32)
    ensures
        r == if crf_option@ == "smallest"@ {
            smallest
        } else {
            average
        },
{
    if same_text(crf_option, "smallest") {
        smallest
    } else {
        average
    }
}

/// How many threads run the clips at once and how many workers each clip's
/// encode gets: no more threads than clips, and at least one worker per clip.
pub fn split_workers(workers: usize, num_of_clips: usize) -> (r: (usize, usize))
    requires
        num_of_clips > 0,
    ensures
        r.0 == if workers < num_of_clips {
            workers
        } else {
            num_of_clips
        },
        r.1 == if workers / num_of_clips > 1 {
            workers / num_of_clips
        } else {
            1
        },
{
    let threads = if workers < num_of_clips {
        workers
    } else {
        num_of_clips
    };
    let each = workers / num_of_clips;
    (threads, if each > 1 {
        each
    } else {
        1
    })
}

// ---------------------------------------------------------------------------
// The search for the CRF at which a clip scores 90
// ---------------------------------------------------------------------------

/// The state of the search for the CRF at which a clip's SSIMULACRA2 score is
/// 90: the CRF to try next, and whether a score above 90 and then one below
/// it have been seen.
#[derive(Clone, Copy, Debug, PartialEq, Eq, Structural)]
pub struct CrfSearch {
    pub crf: i32,
    pub was_above_90: bool,
    pub was_below_90: bool,
}

/// What one score does to the search: it finds the CRF, or moves to the next.
#[derive(Clone, Copy, Debug, PartialEq, Eq, Structural)]
pub enum CrfStep {
    Found(i32),
    Next(CrfSearch),
}

/// The lowest CRF that the search tries: it stops once the CRF is not above it.
pub const CRF_FLOOR: i32 = 15;

impl CrfSearch {
    /// A state the search can reach: a score below 90 counts only after one
    /// above it.
    pub open spec fn wf(self) -> bool {
        self.was_below_90 ==> self.was_above_90
    }

    /// The CRF still to be tried, or `None` once the search has ended.
    pub open spec fn pending_spec(self) -> Option<i32> {
        if self.crf > CRF_FLOOR {
            Some(self.crf)
        } else {
            None
        }
    }

    /// The size of the next move of the CRF: one once the score has been both
    /// above and below 90 in turn, five before.
    pub open spec fn step_size(self, score: i32) -> int {
        if score < 90 {
            if self.was_above_90 {
                1
            } else {
                5
            }
        } else {
            if self.was_below_90 {
                1
            } else {
                5
            }
        }
    }

    /// What a score does to the search.
    pub open spec fn next_spec(self, score: i32) -> CrfStep {
        if score == 90 {
            CrfStep::Found(self.crf)
        } else if score < 90 {
            CrfStep::Next(
                CrfSearch {
                    crf: (self.crf - self.step_size(score)) as i32,
                    was_above_90: self.was_above_90,
                    was_below_90: self.was_below_90 || self.was_above_90,
                },
            )
        } else {
            CrfStep::Next(
                CrfSearch {
                    crf: (self.crf + self.step_size(score)) as i32,
                    was_above_90: true,
                    was_below_90: self.was_below_90,
                },
            )
        }
    }

    /// Whether the move for a score stays within `i32`.
    pub open spec fn step_fits_spec(self, score: i32) -> bool {
        score == 90 || (score < 90 && self.crf - self.step_size(score) >= i32::MIN) || (score
            > 90 && self.crf + self.step_size(score) <= i32::MAX)
    }

    /// The search as it starts, at the given CRF.
    pub fn new(starting_crf: i32) -> (r: Self)
        ensures
            r.crf == starting_crf,
            !r.was_above_90,
            !r.was_below_90,
    {
        CrfSearch { crf: starting_crf, was_above_90: false, was_below_90: false }
    }

    /// The CRF to try next, or `None` once the CRF is not above 15.
    pub fn pending_crf(&self) -> (r: Option<i32>)
        ensures
            r == self.pending_spec(),
    {
        if self.crf > CRF_FLOOR {
            Some(self.crf)
        } else {
            None
        }
    }

    /// Whether the move for this score stays within `i32`.
    pub fn step_fits(&self, score: i32) -> (r: bool)
        ensures
            r == self.step_fits_spec(score),
    {
        if score == 90 {
            true
        } else if score < 90 {
            if self.was_above_90 {
                self.crf >= i32::MIN + 1
            } else {
                self.crf >= i32::MIN + 5
            }
        } else {
            if self.was_below_90 {
                self.crf <= i32::MAX - 1
            } else {
                self.crf <= i32::MAX - 5
            }
        }
    }

    /// Records the score of the clip encoded at the current CRF: 90 ends the
    /// search at this CRF; below 90 lowers the CRF, above 90 raises it, by five
    /// until the score has been above and then below 90, by one after.
    pub fn record_score(&self, score: i32) -> (r: CrfStep)
        requires
            self.step_fits_spec(score),
        ensures
            r == self.next_spec(score),
    {
        let mut next = *self;
        if score == 90 {
            return CrfStep::Found(self.crf);
        }
        if score < 90 {
            if next.was_above_90 {
                next.was_below_90 = true;
                next.crf = next.crf - 1;
            } else {
                next.crf = next.crf - 5;
            }
        }
        if score > 90 {
            next.was_above_90 = true;
            if next.was_below_90 {
                next.crf = next.crf + 1;
            } else {
                next.crf = next.crf + 5;
            }
        }
        CrfStep::Next(next)
    }
}


proof fn lemma_sum_bounds(s: Seq<i32>, lo: int, hi: int)
    requires
        forall|i: int| 0 <= i < s.len() ==> lo <= #[trigger] s[i] <= hi,
    ensures
        lo * s.len() <= sum_spec(s) <= hi * s.len(),
    decreases s.len(),
{
    if s.len() > 0 {
        let p = s.drop_last();
        assert forall|i: int| 0 <= i < p.len() implies lo <= #[trigger] p[i] <= hi by {
            assert(p[i] == s[i]);
        }
        lemma_sum_bounds(p, lo, hi);
        assert(lo <= s[s.len() - 1] <= hi);
        assert(lo * s.len() == lo * p.len() + lo) by (nonlinear_arith)
            requires s.len() == p.len() + 1;
        assert(hi * s.len() == hi * p.len() + hi) by (nonlinear_arith)
            requires s.len() == p.len() + 1;
    }
}

/// The average of a list lies between any lower and any upper bound of its
/// values; in particular the smallest CRF is never above the average CRF, and
/// the average is never above the largest CRF.
pub proof fn lemma_average_within_bounds(s: Seq<i32>, lo: int, hi: int)
    requires
        0 < s.len() <= i32::MAX,
        forall|i: int| 0 <= i < s.len() ==> lo <= #[trigger] s[i] <= hi,
    ensures
        lo <= div_toward_zero(sum_spec(s), (s.len() as i32) as int) <= hi,
{
    lemma_sum_bounds(s, lo, hi);
    let n = s.len() as int;
    assert((s.len() as i32) as int == n);
    let t = sum_spec(s);
    if t >= 0 {
        assert(lo <= t / n <= hi) by (nonlinear_arith)
            requires
                lo * n <= t <= hi * n,
                n > 0,
                t >= 0,
        {
            assert(t / n * n <= t);
            assert(t < (t / n + 1) * n);
        }
    } else {
        assert(lo <= -((-t) / n) <= hi) by (nonlinear_arith)
            requires
                lo * n <= t <= hi * n,
                n > 0,
                t < 0,
        {
            assert((-t) / n * n <= -t);
            assert(-t < ((-t) / n + 1) * n);
        }
    }
}

/// Every step of the search keeps its flags in order and never clears them,
/// moves the CRF down for a score below 90 and up for one above, and, once
/// the score has been above and below 90, moves it by exactly one.
pub proof fn lemma_search_step(s: CrfSearch, score: i32)
    requires
        s.wf(),
        s.step_fits_spec(score),
    ensures
        s.next_spec(score) matches CrfStep::Found(c) ==> score == 90 && c == s.crf,
        s.next_spec(score) matches CrfStep::Next(t) ==> {
            &&& t.wf()
            &&& s.was_above_90 ==> t.was_above_90
            &&& s.was_below_90 ==> t.was_below_90
            &&& score < 90 ==> t.crf < s.crf
            &&& score > 90 ==> t.crf > s.crf
            &&& s.was_below_90 ==> (t.crf == s.crf + 1 || t.crf == s.crf - 1)
        },
{
}


/// The search goes on exactly while its CRF is above 15, whatever it has seen
/// of the scores: it ends only at a score of exactly 90 (`record_score` gives
/// `Found` for 90 and for nothing else) or once the CRF is at most 15.
pub proof fn lemma_search_ends_only_at_90_or_floor(s: CrfSearch, score: i32)
    ensures
        s.crf > 15 ==> s.pending_spec() == Some(s.crf),
        s.crf <= 15 ==> s.pending_spec() is None,
        s.next_spec(score) is Found <==> score == 90,
        s.next_spec(score) matches CrfStep::Found(c) ==> c == s.crf,
{
}

}
