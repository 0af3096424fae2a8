use rich_vocabulary::dictionary_api::{ApiWord, ApiWordDefinition, ApiWordMeaning};
use rich_vocabulary::questions::{
    assemble_definition_word, assemble_word_definition, assemble_word_synonym,
    external_request_count, plan_definition_word, plan_primary_question, plan_word_definition,
    plan_word_synonym, shuffle_answers, QuestionGenerationError, QuestionPlan,
};
use rich_vocabulary::rng::Picker;
use rich_vocabulary::{
    outcome_updates, resolve, select_batch, PartOfSpeech, Resolution, ScoreUpdate, Word,
    WordDefinition, WordEntry, WordMeaning,
};

fn strings(texts: &[&str]) -> Vec<String> {
    let mut v = Vec::new();
    for t in texts {
        v.push(String::from(*t));
    }
    v
}

fn happy_entry() -> Word {
    Word {
        word: String::from("happy"),
        phonetic: None,
        phonetics: vec![],
        origin: None,
        meanings: vec![WordMeaning {
            part_of_speech: PartOfSpeech::Adjective,
            definitions: vec![WordDefinition {
                definition: String::from("feeling or showing pleasure"),
                example: None,
                synonyms: strings(&["glad"]),
                antonyms: strings(&["sad"]),
            }],
            synonyms: vec![],
            antonyms: vec![],
        }],
    }
}

fn stored(uid: i64, word: &str) -> WordEntry {
    WordEntry { uid, word: String::from(word), last_quizzed: 0, score: 500 }
}

#[test]
fn synonym_strategy_builds_four_answers_from_store() {
    let word = happy_entry();
    let mut picker = Picker::new(vec![0, 0, 0, 1]);
    let plan = match plan_word_synonym(&word, true, &mut picker) {
        Ok(p) => p,
        Err(_) => panic!("the entry qualifies"),
    };
    assert_eq!(plan.synonym, "glad");
    assert_eq!(plan.antonym, "sad");
    let mut draft = assemble_word_synonym(plan, 1, None, None);
    let quota = draft.local_quota(&mut picker);
    assert_eq!(quota, 2);
    let candidates = vec![stored(10, "tree"), stored(11, "lamp"), stored(12, "rock")];
    draft.add_local(&candidates, quota);
    let q = draft.into_question();
    assert_eq!(q.word_uid, 1);
    assert_eq!(q.question, "What is the synonym of happy?");
    assert_eq!(q.answers.len(), 4);
    let texts: Vec<&str> = q.answers.iter().map(|a| a.content.as_str()).collect();
    assert_eq!(texts, vec!["glad", "sad", "tree", "lamp"]);
    let correct: Vec<bool> = q.answers.iter().map(|a| a.correct).collect();
    assert_eq!(correct, vec![true, false, false, false]);
    assert_eq!(q.answers[2].word_uid, Some(10));
    assert_eq!(q.answers[3].word_uid, Some(11));
    // the tested word never shows up, and nothing repeats
    for (i, a) in q.answers.iter().enumerate() {
        assert_ne!(a.content, "happy");
        for b in q.answers.iter().skip(i + 1) {
            assert_ne!(a.content, b.content);
        }
    }
}

#[test]
fn antonym_variant_marks_the_antonym_correct() {
    let word = happy_entry();
    let mut picker = Picker::new(vec![0, 0, 0]);
    let plan = plan_word_synonym(&word, false, &mut picker).unwrap_or_else(|_| panic!("qualifies"));
    let draft = assemble_word_synonym(plan, 1, None, Some(42));
    assert_eq!(draft.prompt, "What is the antonym of happy?");
    assert_eq!(draft.answers[0].content, "glad");
    assert!(!draft.answers[0].correct);
    assert_eq!(draft.answers[1].content, "sad");
    assert!(draft.answers[1].correct);
    assert_eq!(draft.answers[1].word_uid, Some(42));
}

#[test]
fn synonym_strategy_fails_without_synonym_antonym_pair() {
    let word = Word {
        word: String::from("sparse"),
        phonetic: None,
        phonetics: vec![],
        origin: None,
        meanings: vec![WordMeaning {
            part_of_speech: PartOfSpeech::Adjective,
            definitions: vec![WordDefinition {
                definition: String::from("thinly spread"),
                example: None,
                synonyms: vec![],
                antonyms: vec![],
            }],
            synonyms: strings(&["scant"]),
            antonyms: vec![],
        }],
    };
    let mut picker = Picker::new(vec![0]);
    match plan_word_synonym(&word, true, &mut picker) {
        Err(QuestionGenerationError::Unsupported) => {},
        _ => panic!("an entry without an antonym cannot support the strategy"),
    }
}

#[test]
fn sourcer_skips_excluded_and_duplicate_texts() {
    let word = happy_entry();
    let mut picker = Picker::new(vec![0, 0, 0]);
    let plan = plan_word_synonym(&word, true, &mut picker).unwrap_or_else(|_| panic!("qualifies"));
    let mut draft = assemble_word_synonym(plan, 1, None, None);
    // "sad" and "happy" are excluded; "tree" twice yields one answer
    let candidates = vec![stored(20, "sad"), stored(21, "happy"), stored(22, "tree"), stored(
        23, "tree",
    )];
    draft.add_local(&candidates, 4);
    assert_eq!(draft.answers.len(), 3);
    assert_eq!(draft.answers[2].content, "tree");
    // external words already shown are skipped too; the question caps at
    // four answers
    let words = strings(&["glad", "tree", "moon", "moon", "star", "sun"]);
    draft.add_external(&words, 4);
    assert_eq!(draft.answers.len(), 4);
    assert_eq!(draft.answers[3].content, "moon");
    assert_eq!(draft.answers[3].word_uid, None);
}

#[test]
fn definition_word_strategy_asks_for_the_word() {
    let word = happy_entry();
    // meaning, definition, distractor gate (0 < 6 accepts), antonym pick
    let mut picker = Picker::new(vec![0, 0, 0, 0]);
    let plan = plan_definition_word(&word, &mut picker).unwrap_or_else(|_| panic!("defined"));
    assert_eq!(plan.definition, "feeling or showing pleasure");
    assert_eq!(plan.antonym.as_deref(), Some("sad"));
    let draft = assemble_definition_word(plan, 5, Some(9));
    assert_eq!(draft.prompt, "What word matches the following definition? feeling or showing pleasure");
    assert_eq!(draft.answers[0].content, "happy");
    assert!(draft.answers[0].correct);
    assert_eq!(draft.answers[0].word_uid, Some(5));
    assert_eq!(draft.answers[1].content, "sad");
    assert!(!draft.answers[1].correct);
    assert_eq!(draft.answers[1].word_uid, Some(9));
}

#[test]
fn definition_word_strategy_can_omit_the_distractor() {
    let word = happy_entry();
    // the third draw lands on 9, past the six-in-ten chance, so no
    // antonym distractor is added
    let mut picker = Picker::new(vec![0, 0, 9]);
    let plan = plan_definition_word(&word, &mut picker).unwrap_or_else(|_| panic!("defined"));
    assert_eq!(plan.antonym, None);
    let draft = assemble_definition_word(plan, 5, None);
    assert_eq!(draft.answers.len(), 1);
}

#[test]
fn word_definition_strategy_collects_antonym_definitions() {
    let word = happy_entry();
    let mut picker = Picker::new(vec![0, 0, 0, 0]);
    let plan = plan_word_definition(&word, &mut picker).unwrap_or_else(|_| panic!("defined"));
    assert_eq!(plan.definition, "feeling or showing pleasure");
    assert_eq!(plan.part_of_speech, PartOfSpeech::Adjective);
    assert_eq!(plan.antonym_candidates, strings(&["sad"]));
    let mut draft = assemble_word_definition(plan, 7);
    assert_eq!(draft.prompt, "The definition of 'happy' is:");
    assert!(draft.answers[0].correct);
    assert_eq!(draft.answers[0].content, "feeling or showing pleasure");
    // the looked-up antonym entry supplies a definition of the same part
    // of speech
    let sad_entry = Word {
        word: String::from("sad"),
        phonetic: None,
        phonetics: vec![],
        origin: None,
        meanings: vec![
            WordMeaning {
                part_of_speech: PartOfSpeech::Noun,
                definitions: vec![WordDefinition {
                    definition: String::from("not this one"),
                    example: None,
                    synonyms: vec![],
                    antonyms: vec![],
                }],
                synonyms: vec![],
                antonyms: vec![],
            },
            WordMeaning {
                part_of_speech: PartOfSpeech::Adjective,
                definitions: vec![WordDefinition {
                    definition: String::from("feeling sorrow"),
                    example: None,
                    synonyms: vec![],
                    antonyms: vec![],
                }],
                synonyms: vec![],
                antonyms: vec![],
            },
        ],
    };
    let added = draft.try_definition_distractor(&sad_entry, &PartOfSpeech::Adjective, &mut picker);
    assert!(added);
    assert_eq!(draft.answers[1].content, "feeling sorrow");
    assert!(!draft.answers[1].correct);
    // an entry without the required part of speech contributes nothing
    let other = draft.try_definition_distractor(&sad_entry, &PartOfSpeech::Verb, &mut picker);
    assert!(!other);
    assert_eq!(draft.answers.len(), 2);
}

fn one_meaning_entry(word: &str, pos: PartOfSpeech, def: &str) -> Word {
    Word {
        word: String::from(word),
        phonetic: None,
        phonetics: vec![],
        origin: None,
        meanings: vec![WordMeaning {
            part_of_speech: pos,
            definitions: vec![WordDefinition {
                definition: String::from(def),
                example: None,
                synonyms: vec![],
                antonyms: vec![],
            }],
            synonyms: vec![],
            antonyms: vec![],
        }],
    }
}

#[test]
fn definition_distractor_skips_excluded_texts() {
    let word = happy_entry();
    let mut picker = Picker::new(vec![0, 0, 0]);
    let plan = plan_word_definition(&word, &mut picker).unwrap_or_else(|_| panic!("defined"));
    let mut draft = assemble_word_definition(plan, 7);
    // an entry whose only definition repeats the question's own text is
    // rejected; a fresh one is taken
    let repeat = one_meaning_entry("sad", PartOfSpeech::Adjective, "feeling or showing pleasure");
    assert!(!draft.try_definition_distractor(&repeat, &PartOfSpeech::Adjective, &mut picker));
    assert_eq!(draft.answers.len(), 1);
    let fresh = one_meaning_entry("sad", PartOfSpeech::Adjective, "feeling sorrow");
    assert!(draft.try_definition_distractor(&fresh, &PartOfSpeech::Adjective, &mut picker));
    assert_eq!(draft.answers.len(), 2);
    assert_eq!(draft.answers[1].content, "feeling sorrow");
}

#[test]
fn shuffle_keeps_the_same_answers() {
    let word = happy_entry();
    let mut picker = Picker::new(vec![0, 0, 0]);
    let plan = plan_word_synonym(&word, true, &mut picker).unwrap_or_else(|_| panic!("qualifies"));
    let mut draft = assemble_word_synonym(plan, 1, None, None);
    draft.add_local(&vec![stored(10, "tree"), stored(11, "lamp")], 2);
    let mut q = draft.into_question();
    let mut before: Vec<String> = q.answers.iter().map(|a| a.content.clone()).collect();
    shuffle_answers(&mut q.answers, &mut Picker::new(vec![2, 0, 1, 0]));
    let mut after: Vec<String> = q.answers.iter().map(|a| a.content.clone()).collect();
    before.sort();
    after.sort();
    assert_eq!(before, after);
    assert_eq!(q.answers.iter().filter(|a| a.correct).count(), 1);
}

#[test]
fn full_round_from_plan_to_score() {
    let word = happy_entry();
    // strategy draw, synonym variant, pair, synonym, antonym, quota
    let mut picker = Picker::new(vec![0, 0, 0, 0, 0, 1]);
    let plan = match plan_primary_question(&word, &mut picker) {
        Ok(QuestionPlan::Synonym(p)) => p,
        _ => panic!("the first strategy applies to this entry"),
    };
    let mut draft = assemble_word_synonym(plan, 1, None, Some(33));
    let quota = draft.local_quota(&mut picker);
    draft.add_local(&vec![stored(10, "tree"), stored(11, "lamp")], quota);
    let mut q = draft.into_question();
    shuffle_answers(&mut q.answers, &mut Picker::new(vec![1, 0, 1, 0]));
    assert_eq!(q.answers.len(), 4);
    assert_eq!(q.answers.iter().filter(|a| a.correct).count(), 1);
    // the learner types the synonym
    let chosen = match resolve("glad", &q.answers) {
        Resolution::Resolved(i) => &q.answers[i],
        _ => panic!("an exact match resolves"),
    };
    assert!(chosen.correct);
    let updates = outcome_updates(chosen, q.word_uid, 500, None);
    assert_eq!(updates, vec![ScoreUpdate { uid: 1, new_score: 459 }]);
}

#[test]
fn primary_planning_falls_back_to_the_definition_strategy() {
    let word = Word {
        word: String::from("walk"),
        phonetic: None,
        phonetics: vec![],
        origin: None,
        meanings: vec![WordMeaning {
            part_of_speech: PartOfSpeech::Verb,
            definitions: vec![WordDefinition {
                definition: String::from("move at a regular pace"),
                example: None,
                synonyms: vec![],
                antonyms: vec![],
            }],
            synonyms: vec![],
            antonyms: vec![],
        }],
    };
    // the strategy draw asks for the synonym kind, which the entry
    // cannot support; the definition kind takes over
    let mut picker = Picker::new(vec![0, 0, 0, 0, 9]);
    match plan_primary_question(&word, &mut picker) {
        Ok(QuestionPlan::Definition(p)) => {
            assert_eq!(p.definition, "move at a regular pace");
            assert_eq!(p.antonym, None);
        }
        _ => panic!("the fallback must produce a definition question"),
    }
}

#[test]
fn external_request_counts_scale_with_open_slots() {
    assert_eq!(external_request_count(2, false), 4);
    assert_eq!(external_request_count(2, true), 6);
    assert_eq!(external_request_count(0, false), 0);
}

#[test]
fn batch_selection_prefers_low_scores_then_stale_practice() {
    let entries = vec![
        WordEntry { uid: 1, word: String::from("alpha"), last_quizzed: 50, score: 700 },
        WordEntry { uid: 2, word: String::from("beta"), last_quizzed: 10, score: 300 },
        WordEntry { uid: 3, word: String::from("gamma"), last_quizzed: 5, score: 300 },
        WordEntry { uid: 4, word: String::from("delta"), last_quizzed: 90, score: 100 },
    ];
    let batch = select_batch(entries, 3);
    let picked: Vec<i64> = batch.iter().map(|e| e.uid).collect();
    assert_eq!(picked, vec![4, 3, 2]);
}

#[test]
fn batch_selection_handles_short_supply() {
    let entries = vec![stored(1, "alpha")];
    let batch = select_batch(entries, 4);
    assert_eq!(batch.len(), 1);
    let none = select_batch(vec![], 4);
    assert_eq!(none.len(), 0);
}

#[test]
fn part_of_speech_parse_covers_the_closed_set() {
    let cases = [
        ("noun", PartOfSpeech::Noun),
        ("pronoun", PartOfSpeech::Pronoun),
        ("verb", PartOfSpeech::Verb),
        ("adjective", PartOfSpeech::Adjective),
        ("adverb", PartOfSpeech::Adverb),
        ("preposition", PartOfSpeech::Preposition),
        ("conjunction", PartOfSpeech::Conjunction),
        ("interjection", PartOfSpeech::Interjection),
    ];
    for (text, expected) in cases {
        match PartOfSpeech::parse(String::from(text)) {
            Ok(p) => assert_eq!(p, expected),
            Err(_) => panic!("{} parses", text),
        }
    }
    match PartOfSpeech::parse(String::from("gerund")) {
        Ok(_) => panic!("an unknown label must not parse"),
        Err(e) => assert_eq!(e.kind, "gerund"),
    }
}

fn api_meaning(pos: &str, def: &str) -> ApiWordMeaning {
    ApiWordMeaning {
        part_of_speech: String::from(pos),
        definitions: vec![ApiWordDefinition {
            definition: String::from(def),
            example: None,
            synonyms: strings(&["glad"]),
            antonyms: vec![],
        }],
        synonyms: vec![],
        antonyms: strings(&["sad"]),
    }
}

#[test]
fn api_conversion_moves_the_entry_over() {
    let api = ApiWord {
        word: String::from("happy"),
        phonetic: None,
        phonetics: vec![],
        origin: None,
        meanings: vec![api_meaning("adjective", "feeling or showing pleasure")],
    };
    let word = match Word::from_api(api) {
        Ok(w) => w,
        Err(_) => panic!("every label parses"),
    };
    assert_eq!(word.word, "happy");
    assert_eq!(word.meanings.len(), 1);
    assert_eq!(word.meanings[0].part_of_speech, PartOfSpeech::Adjective);
    assert_eq!(word.meanings[0].definitions[0].definition, "feeling or showing pleasure");
    assert_eq!(word.meanings[0].definitions[0].synonyms, strings(&["glad"]));
    assert_eq!(word.meanings[0].antonyms, strings(&["sad"]));
}

#[test]
fn api_conversion_reports_the_last_unknown_label() {
    let api = ApiWord {
        word: String::from("happy"),
        phonetic: None,
        phonetics: vec![],
        origin: None,
        meanings: vec![
            api_meaning("gerund", "first bad"),
            api_meaning("adjective", "fine"),
            api_meaning("participle", "second bad"),
        ],
    };
    match Word::from_api(api) {
        Ok(_) => panic!("unknown labels must fail"),
        Err(e) => assert_eq!(e.kind, "participle"),
    }
}
