//! Mastery-score updates applied after each answered question.
//!
//! A correct answer shrinks the score (the word needs less review), an
//! incorrect answer grows it.  Both updates clamp only the upper bound at
//! 1000; no lower bound is enforced.

use vstd::prelude::*;

use crate::questions::Answer;

verus! {

/// Largest magnitude of a score the updates accept; keeps the
/// intermediate products within `i64`.
pub const SCORE_MAGNITUDE_LIMIT: i64 = 80_000_000_000_000_000;

/// Upper clamp applied to every score update.
pub const SCORE_CAP: i64 = 1000;

/// Score after a correct answer: the nearest integer to `0.92 s - 0.5`
/// (ties resolved downward), clamped to at most 1000.
pub open spec fn correct_update_spec(s: int) -> int {
    let v = -((-(92 * s)) / 100) - 1;
    if v > 1000 {
        1000
    } else {
        v
    }
}

/// Score after an incorrect answer: the nearest integer to `1.04 s + 0.5`
/// (ties resolved upward), clamped to at most 1000.
pub open spec fn incorrect_update_spec(s: int) -> int {
    let v = (104 * s) / 100 + 1;
    if v > 1000 {
        1000
    } else {
        v
    }
}

/// Applies the correct-answer update to a mastery score.
pub fn correct_update(s: i64) -> (r: i64)
    requires
        -SCORE_MAGNITUDE_LIMIT <= s <= SCORE_MAGNITUDE_LIMIT,
    ensures
        r == correct_update_spec(s as int),
{
    let scaled: i64 = 92 * s;
    let v: i64 = if scaled >= 0 {
        // ceiling of scaled / 100, minus one
        (scaled + 99) / 100 - 1
    } else {
        -((-scaled) / 100) - 1
    };
    if v > SCORE_CAP {
        SCORE_CAP
    } else {
        v
    }
}

/// Applies the incorrect-answer update to a mastery score.
pub fn incorrect_update(s: i64) -> (r: i64)
    requires
        -SCORE_MAGNITUDE_LIMIT <= s <= SCORE_MAGNITUDE_LIMIT,
    ensures
        r == incorrect_update_spec(s as int),
{
    let scaled: i64 = 104 * s;
    let v: i64 = if scaled >= 0 {
        scaled / 100 + 1
    } else {
        -((-scaled + 99) / 100) + 1
    };
    if v > SCORE_CAP {
        SCORE_CAP
    } else {
        v
    }
}

/// One persisted consequence of an answered question: the record to
/// update and its new score.
#[derive(Debug, Clone, Copy, PartialEq, Eq, Structural)]
pub struct ScoreUpdate {
    pub uid: i64,
    pub new_score: i64,
}

/// The updates an answered question causes.
pub open spec fn outcome_updates_spec(
    chosen: Answer,
    tested_uid: i64,
    tested_score: int,
    linked_score: Option<i64>,
) -> Seq<ScoreUpdate> {
    if chosen.correct {
        seq![ScoreUpdate { uid: tested_uid, new_score: correct_update_spec(tested_score) as i64 }]
    } else {
        let first = ScoreUpdate {
            uid: tested_uid,
            new_score: incorrect_update_spec(tested_score) as i64,
        };
        match (chosen.word_uid, linked_score) {
            (Some(u), Some(s)) => seq![
                first,
                ScoreUpdate { uid: u, new_score: incorrect_update_spec(s as int) as i64 },
            ],
            _ => seq![first],
        }
    }
}

/// Decides the score updates after a resolved answer: the tested record
/// always; on a wrong answer that is itself a saved word (and whose
/// current score the caller read), that record too.
pub fn outcome_updates(
    chosen: &Answer,
    tested_uid: i64,
    tested_score: i64,
    linked_score: Option<i64>,
) -> (r: Vec<ScoreUpdate>)
    requires
        -SCORE_MAGNITUDE_LIMIT <= tested_score <= SCORE_MAGNITUDE_LIMIT,
        linked_score matches Some(s) ==> -SCORE_MAGNITUDE_LIMIT <= s <= SCORE_MAGNITUDE_LIMIT,
    ensures
        r@ == outcome_updates_spec(*chosen, tested_uid, tested_score as int, linked_score),
{
    let mut r: Vec<ScoreUpdate> = Vec::new();
    if chosen.correct {
        r.push(ScoreUpdate { uid: tested_uid, new_score: correct_update(tested_score) });
    } else {
        r.push(ScoreUpdate { uid: tested_uid, new_score: incorrect_update(tested_score) });
        match (chosen.word_uid, linked_score) {
            (Some(u), Some(s)) => {
                r.push(ScoreUpdate { uid: u, new_score: incorrect_update(s) });
            },
            _ => {},
        }
    }
    proof {
        assert(r@ =~= outcome_updates_spec(*chosen, tested_uid, tested_score as int, linked_score));
    }
    r
}

/// Scores never leave the band from -1 to 1000: the upper clamp holds
/// the top, and although no lower clamp exists, repeated correct
/// answers bottom out at -1.
pub proof fn lemma_updates_stay_in_band(s: int)
    requires
        -1 <= s <= 1000,
    ensures
        -1 <= correct_update_spec(s) <= 1000,
        -1 <= incorrect_update_spec(s) <= 1000,
{
    if s >= 0 {
        vstd::arithmetic::div_mod::lemma_div_is_ordered(-(92 * s), 0, 100);
        assert((-(92 * s)) / 100 <= 0);
    } else {
        assert(s == -1);
        assert((-(92 * -1)) / 100 == 0);
    }
    vstd::arithmetic::div_mod::lemma_div_is_ordered(-104, 104 * s, 100);
    assert(-104 / 100 == -2);
}

/// The two updates are not inverse to each other: a wrong answer
/// followed by a right one does not in general restore the score.
pub proof fn lemma_updates_not_inverse()
    ensures
        exists|s: int|
            0 <= s <= 1000 && #[trigger] correct_update_spec(incorrect_update_spec(s)) != s,
{
    assert(incorrect_update_spec(500) == 521);
    assert(correct_update_spec(incorrect_update_spec(500)) != 500);
}

} // verus!
