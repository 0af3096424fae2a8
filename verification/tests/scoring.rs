use rich_vocabulary::questions::Answer;
use rich_vocabulary::{correct_update, incorrect_update, outcome_updates, ScoreUpdate};

#[test]
fn correct_update_follows_formula() {
    // round(0.92 * 500 - 0.5) = 459
    assert_eq!(correct_update(500), 459);
    // round(0.92 * 1000 - 0.5) = 919
    assert_eq!(correct_update(1000), 919);
    // round(0.92 * 100 - 0.5) = round(91.5), the tie resolving down = 91
    assert_eq!(correct_update(100), 91);
    // round(0.92 * 13 - 0.5) = round(11.46) = 11
    assert_eq!(correct_update(13), 11);
}

#[test]
fn incorrect_update_follows_formula() {
    // round(1.04 * 500 + 0.5) = 521
    assert_eq!(incorrect_update(500), 521);
    // round(1.04 * 300 + 0.5) = 313
    assert_eq!(incorrect_update(300), 313);
    // round(1.04 * 7 + 0.5) = round(7.78) = 8
    assert_eq!(incorrect_update(7), 8);
}

#[test]
fn updates_clamp_only_the_upper_bound() {
    assert_eq!(incorrect_update(1000), 1000);
    assert_eq!(incorrect_update(980), 1000);
    // no lower clamp: a zero score drifts below zero on a correct answer
    assert_eq!(correct_update(0), -1);
    assert_eq!(correct_update(-1), -1);
}

#[test]
fn updates_are_not_mutually_inverse() {
    let s = 500;
    let raised = incorrect_update(s);
    assert_eq!(raised, 521);
    let lowered = correct_update(raised);
    assert_ne!(lowered, s);
    assert_eq!(lowered, 479);
}

#[test]
fn correct_answer_updates_only_the_tested_record() {
    let chosen = Answer { content: String::from("glad"), correct: true, word_uid: Some(7) };
    let updates = outcome_updates(&chosen, 1, 500, None);
    assert_eq!(updates, vec![ScoreUpdate { uid: 1, new_score: 459 }]);
}

#[test]
fn wrong_answer_with_linked_record_updates_both() {
    // tested record at score 500, chosen wrong answer links to a saved
    // record at score 300
    let chosen = Answer { content: String::from("sad"), correct: false, word_uid: Some(9) };
    let updates = outcome_updates(&chosen, 1, 500, Some(300));
    assert_eq!(
        updates,
        vec![
            ScoreUpdate { uid: 1, new_score: 521 },
            ScoreUpdate { uid: 9, new_score: 313 },
        ]
    );
}

#[test]
fn wrong_answer_without_linked_record_updates_the_tested_one() {
    let chosen = Answer { content: String::from("tree"), correct: false, word_uid: None };
    let updates = outcome_updates(&chosen, 4, 200, None);
    assert_eq!(updates, vec![ScoreUpdate { uid: 4, new_score: 209 }]);
}
