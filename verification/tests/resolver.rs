use rich_vocabulary::questions::Answer;
use rich_vocabulary::similarity::jaro;
use rich_vocabulary::str_to_bool;
use rich_vocabulary::{resolve, Resolution};

fn answers(texts: &[&str]) -> Vec<Answer> {
    let mut v = Vec::new();
    for (i, t) in texts.iter().enumerate() {
        v.push(Answer { content: String::from(*t), correct: i == 0, word_uid: None });
    }
    v
}

#[test]
fn numeric_input_selects_by_position() {
    let a = answers(&["glad", "sad", "tree", "lamp"]);
    assert_eq!(resolve("1", &a), Resolution::Resolved(0));
    assert_eq!(resolve(" 3 ", &a), Resolution::Resolved(2));
    assert_eq!(resolve("4", &a), Resolution::Resolved(3));
}

#[test]
fn numeric_zero_or_out_of_range_never_resolves() {
    let a = answers(&["glad", "sad", "tree", "lamp"]);
    assert_eq!(resolve("0", &a), Resolution::Retry);
    assert_eq!(resolve("5", &a), Resolution::Retry);
    assert_eq!(resolve("99", &a), Resolution::Retry);
    assert_eq!(resolve("184467440737095516160", &a), Resolution::Retry);
}

#[test]
fn skip_token_skips_in_any_case() {
    let a = answers(&["glad", "sad"]);
    assert_eq!(resolve(":s", &a), Resolution::Skip);
    assert_eq!(resolve(":skip", &a), Resolution::Skip);
    assert_eq!(resolve(" :SKIP ", &a), Resolution::Skip);
    assert_eq!(resolve(":S", &a), Resolution::Skip);
}

#[test]
fn exact_match_resolves_whatever_the_case() {
    let a = answers(&["glad", "sad", "tree", "lamp"]);
    assert_eq!(resolve("glad", &a), Resolution::Resolved(0));
    assert_eq!(resolve("GLAD", &a), Resolution::Resolved(0));
    assert_eq!(resolve("  Sad ", &a), Resolution::Resolved(1));
}

#[test]
fn close_misspelling_resolves_when_clearly_ahead() {
    // jaro(glaad, glad) = 224/240 > 9/10, and the runner-up (lamp, at
    // 76/120) trails by more than 1/4
    let a = answers(&["glad", "sad", "tree", "lamp"]);
    assert_eq!(resolve("glaad", &a), Resolution::Resolved(0));
}

#[test]
fn galdd_ranks_glad_first_but_below_the_threshold() {
    // jaro(galdd, glad) = 204/240 = 0.85: the highest similarity of the
    // four, yet not above 9/10, so the resolver asks again
    let fin: Vec<char> = "galdd".chars().collect();
    let glad: Vec<char> = "glad".chars().collect();
    let sad: Vec<char> = "sad".chars().collect();
    let tree: Vec<char> = "tree".chars().collect();
    let lamp: Vec<char> = "lamp".chars().collect();
    let s_glad = jaro(&fin, &glad);
    let s_sad = jaro(&fin, &sad);
    let s_tree = jaro(&fin, &tree);
    let s_lamp = jaro(&fin, &lamp);
    assert_eq!(s_glad, (204, 240));
    let v_glad = s_glad.0 as f64 / s_glad.1 as f64;
    let v_sad = s_sad.0 as f64 / s_sad.1 as f64;
    let v_tree = s_tree.0 as f64 / s_tree.1 as f64;
    let v_lamp = s_lamp.0 as f64 / s_lamp.1 as f64;
    assert!(v_glad > v_sad && v_glad > v_tree && v_glad > v_lamp);
    assert!(v_glad < 0.9);
    let a = answers(&["glad", "sad", "tree", "lamp"]);
    assert_eq!(resolve("galdd", &a), Resolution::Retry);
}

#[test]
fn jaro_agrees_with_the_reference_implementation() {
    for (x, y) in [
        ("galdd", "glad"),
        ("glaad", "glad"),
        ("galdd", "sad"),
        ("galdd", "lamp"),
        ("galdd", "tree"),
        ("dwayne", "duane"),
        ("martha", "marhta"),
        ("", ""),
        ("a", ""),
        ("same", "same"),
    ] {
        let xv: Vec<char> = x.chars().collect();
        let yv: Vec<char> = y.chars().collect();
        let (num, den) = jaro(&xv, &yv);
        let ours = num as f64 / den as f64;
        let reference = strsim::jaro(x, y);
        assert!((ours - reference).abs() < 1e-12, "{} vs {}: {} != {}", x, y, ours, reference);
    }
}

#[test]
fn ambiguous_text_asks_again() {
    let a = answers(&["glad", "sad"]);
    assert_eq!(resolve("zzz", &a), Resolution::Retry);
    assert_eq!(resolve("", &a), Resolution::Retry);
}

#[test]
fn no_answers_means_retry_but_skip_still_works() {
    let a: Vec<Answer> = Vec::new();
    assert_eq!(resolve("anything", &a), Resolution::Retry);
    assert_eq!(resolve("1", &a), Resolution::Retry);
    assert_eq!(resolve(":s", &a), Resolution::Skip);
}

#[test]
fn str_to_bool_reads_common_replies() {
    assert_eq!(str_to_bool(String::from("y")), Some(true));
    assert_eq!(str_to_bool(String::from("Yes\n")), Some(true));
    assert_eq!(str_to_bool(String::from(" yeah ")), Some(true));
    assert_eq!(str_to_bool(String::from("TRUE")), Some(true));
    assert_eq!(str_to_bool(String::from("on")), Some(true));
    assert_eq!(str_to_bool(String::from("n")), Some(false));
    assert_eq!(str_to_bool(String::from("No")), Some(false));
    assert_eq!(str_to_bool(String::from("nope")), Some(false));
    assert_eq!(str_to_bool(String::from("off")), Some(false));
    assert_eq!(str_to_bool(String::from("dunno")), None);
    assert_eq!(str_to_bool(String::from("")), None);
}
