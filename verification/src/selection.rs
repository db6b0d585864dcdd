//! Picking the best of a row of candidates: the lowest score wins, and among
//! equal scores the candidate that comes first.

use vstd::prelude::*;

verus! {

/// The winner among the positions `lo`, ..., `hi - 1`: of the positions that
/// `admits` lets in, the first at which `score` is lowest. `None` when no
/// position is let in.
pub open spec fn first_least(
    score: spec_fn(int) -> int,
    admits: spec_fn(int) -> bool,
    lo: int,
    hi: int,
) -> Option<int>
    decreases hi - lo,
{
    if hi <= lo {
        None
    } else {
        let earlier = first_least(score, admits, lo, hi - 1);
        if admits(hi - 1) && (earlier matches Some(e) ==> score(hi - 1) < score(e)) {
            Some(hi - 1)
        } else {
            earlier
        }
    }
}

/// Lets every position in.
pub open spec fn admit_all() -> spec_fn(int) -> bool {
    |i: int| true
}

/// `at` is the first admitted position between `lo` and `hi` with the lowest
/// score: nothing admitted scores lower, and what scores as low comes later.
pub open spec fn is_first_least(
    score: spec_fn(int) -> int,
    admits: spec_fn(int) -> bool,
    lo: int,
    hi: int,
    at: int,
) -> bool {
    &&& lo <= at < hi
    &&& admits(at)
    &&& forall|i: int| lo <= i < hi && admits(i) ==> score(at) <= #[trigger] score(i)
    &&& forall|i: int| lo <= i < at && admits(i) ==> score(at) < #[trigger] score(i)
}

/// `first_least` finds the first admitted position with the lowest score, and
/// finds nothing only where nothing is admitted.
pub proof fn lemma_first_least(
    score: spec_fn(int) -> int,
    admits: spec_fn(int) -> bool,
    lo: int,
    hi: int,
)
    ensures
        match first_least(score, admits, lo, hi) {
            Some(at) => is_first_least(score, admits, lo, hi, at),
            None => forall|i: int| lo <= i < hi ==> !#[trigger] admits(i),
        },
    decreases hi - lo,
{
    if hi > lo {
        lemma_first_least(score, admits, lo, hi - 1);
    }
}

/// At most one position is the first with the lowest score.
pub proof fn lemma_first_least_unique(
    score: spec_fn(int) -> int,
    admits: spec_fn(int) -> bool,
    lo: int,
    hi: int,
    a: int,
    b: int,
)
    requires
        is_first_least(score, admits, lo, hi, a),
        is_first_least(score, admits, lo, hi, b),
    ensures
        a == b,
{
    if a < b {
        assert(score(b) < score(a));
        assert(score(a) <= score(b));
    } else if b < a {
        assert(score(a) < score(b));
        assert(score(b) <= score(a));
    }
}

} // verus!
