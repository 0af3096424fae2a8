//! The raw shapes a dictionary service answers with, and their
//! conversion into the lexical data model.  The conversion is total but
//! for the part of speech, whose parse fails explicitly on an
//! unrecognised label.

use vstd::prelude::*;

use crate::dictionary::{
    parse_pos_spec, PartOfSpeech, Phonetic, UnknownPartOfSpeech, Word, WordDefinition, WordMeaning,
};

verus! {

/// A definition as the service sends it.
#[derive(Debug)]
pub struct ApiWordDefinition {
    pub definition: String,
    pub example: Option<String>,
    pub synonyms: Vec<String>,
    pub antonyms: Vec<String>,
}

/// A meaning as the service sends it: the part of speech is free text.
#[derive(Debug)]
pub struct ApiWordMeaning {
    pub part_of_speech: String,
    pub definitions: Vec<ApiWordDefinition>,
    pub synonyms: Vec<String>,
    pub antonyms: Vec<String>,
}

/// Pronunciation data as the service sends it.
#[derive(Debug)]
pub struct ApiPhonetic {
    pub text: Option<String>,
    pub audio: Option<String>,
}

/// A whole entry as the service sends it.
#[derive(Debug)]
pub struct ApiWord {
    pub word: String,
    pub phonetic: Option<String>,
    pub phonetics: Vec<ApiPhonetic>,
    pub origin: Option<String>,
    pub meanings: Vec<ApiWordMeaning>,
}

/// The definition a raw definition converts to: a plain field move.
pub open spec fn def_from_api_spec(d: ApiWordDefinition) -> WordDefinition {
    WordDefinition {
        definition: d.definition,
        example: d.example,
        synonyms: d.synonyms,
        antonyms: d.antonyms,
    }
}

/// The phonetic a raw phonetic converts to: an empty audio reference is
/// dropped.
pub open spec fn phonetic_from_api_spec(p: ApiPhonetic) -> Phonetic {
    Phonetic {
        text: p.text,
        audio: if p.audio is Some && p.audio->0@.len() > 0 {
            p.audio
        } else {
            None
        },
    }
}

/// Whether a converted meaning corresponds to a raw one: the label
/// parses to its part of speech and everything else is moved.
pub open spec fn meaning_matches_api(wm: WordMeaning, m: ApiWordMeaning) -> bool {
    &&& parse_pos_spec(m.part_of_speech@) == Some(wm.part_of_speech)
    &&& wm.definitions@.len() == m.definitions@.len()
    &&& forall|i: int|
        0 <= i < m.definitions@.len() ==> wm.definitions@[i] == def_from_api_spec(
            #[trigger] m.definitions@[i],
        )
    &&& wm.synonyms == m.synonyms
    &&& wm.antonyms == m.antonyms
}

/// Whether a converted entry corresponds to a raw one.
pub open spec fn word_matches_api(x: Word, w: ApiWord) -> bool {
    &&& x.word == w.word
    &&& x.phonetic == w.phonetic
    &&& x.origin == w.origin
    &&& x.phonetics@.len() == w.phonetics@.len()
    &&& forall|i: int|
        0 <= i < w.phonetics@.len() ==> x.phonetics@[i] == phonetic_from_api_spec(
            #[trigger] w.phonetics@[i],
        )
    &&& x.meanings@.len() == w.meanings@.len()
    &&& forall|i: int|
        0 <= i < w.meanings@.len() ==> meaning_matches_api(
            x.meanings@[i],
            #[trigger] w.meanings@[i],
        )
}

/// Every part-of-speech label among the first `n` meanings parses.
pub open spec fn all_meanings_parse(s: Seq<ApiWordMeaning>, n: int) -> bool {
    forall|i: int| 0 <= i < n ==> parse_pos_spec(#[trigger] s[i].part_of_speech@) is Some
}

/// Index of the last meaning among the first `n` whose label does not
/// parse; -1 when all parse.
pub open spec fn last_unparsed(s: Seq<ApiWordMeaning>, n: int) -> int
    decreases n,
{
    if n <= 0 {
        -1
    } else if parse_pos_spec(s[n - 1].part_of_speech@) is None {
        n - 1
    } else {
        last_unparsed(s, n - 1)
    }
}

impl WordDefinition {
    /// Converts a raw definition.
    pub fn from_api(d: ApiWordDefinition) -> (r: WordDefinition)
        ensures
            r == def_from_api_spec(d),
    {
        WordDefinition {
            definition: d.definition,
            example: d.example,
            synonyms: d.synonyms,
            antonyms: d.antonyms,
        }
    }
}

impl Phonetic {
    /// Converts a raw phonetic, dropping an empty audio reference.
    pub fn from_api(p: ApiPhonetic) -> (r: Phonetic)
        ensures
            r == phonetic_from_api_spec(p),
    {
        let audio = match p.audio {
            Some(src) => {
                if src.as_str().is_empty() {
                    None
                } else {
                    Some(src)
                }
            },
            None => None,
        };
        Phonetic { text: p.text, audio }
    }
}

impl WordMeaning {
    /// Converts a raw meaning; fails when its part-of-speech label is
    /// not recognised.
    pub fn from_api(m: ApiWordMeaning) -> (r: Result<WordMeaning, UnknownPartOfSpeech>)
        ensures
            r is Ok <==> parse_pos_spec(m.part_of_speech@) is Some,
            r matches Ok(wm) ==> meaning_matches_api(wm, m),
            r matches Err(e) ==> e.kind == m.part_of_speech,
    {
        let ApiWordMeaning { part_of_speech, definitions, synonyms, antonyms } = m;
        let pos = match PartOfSpeech::parse(part_of_speech) {
            Ok(p) => p,
            Err(e) => {
                return Err(e);
            },
        };
        let ghost orig = definitions@;
        let mut rest = definitions;
        let mut converted: Vec<WordDefinition> = Vec::new();
        while rest.len() > 0
            invariant
                converted@.len() + rest@.len() == orig.len(),
                rest@ == orig.subrange(converted@.len() as int, orig.len() as int),
                forall|i: int|
                    0 <= i < converted@.len() ==> converted@[i] == def_from_api_spec(
                        #[trigger] orig[i],
                    ),
            decreases rest@.len(),
        {
            let d = rest.remove(0);
            proof {
                assert(d == orig[converted@.len() as int]);
            }
            converted.push(WordDefinition::from_api(d));
            proof {
                assert(rest@ =~= orig.subrange(converted@.len() as int, orig.len() as int));
            }
        }
        Ok(WordMeaning { part_of_speech: pos, definitions: converted, synonyms, antonyms })
    }
}

impl Word {
    /// Converts a raw entry; fails when any meaning carries an
    /// unrecognised part-of-speech label, reporting the last such label.
    pub fn from_api(w: ApiWord) -> (r: Result<Word, UnknownPartOfSpeech>)
        ensures
            r is Ok <==> all_meanings_parse(w.meanings@, w.meanings@.len() as int),
            r matches Ok(x) ==> word_matches_api(x, w),
            r matches Err(e) ==> {
                let bad = last_unparsed(w.meanings@, w.meanings@.len() as int);
                &&& 0 <= bad < w.meanings@.len()
                &&& e.kind == w.meanings@[bad].part_of_speech
            },
    {
        let ApiWord { word, phonetic, phonetics, origin, meanings } = w;
        let ghost orig_ph = phonetics@;
        let mut rest_ph = phonetics;
        let mut conv_ph: Vec<Phonetic> = Vec::new();
        while rest_ph.len() > 0
            invariant
                conv_ph@.len() + rest_ph@.len() == orig_ph.len(),
                rest_ph@ == orig_ph.subrange(conv_ph@.len() as int, orig_ph.len() as int),
                forall|i: int|
                    0 <= i < conv_ph@.len() ==> conv_ph@[i] == phonetic_from_api_spec(
                        #[trigger] orig_ph[i],
                    ),
            decreases rest_ph@.len(),
        {
            let p = rest_ph.remove(0);
            proof {
                assert(p == orig_ph[conv_ph@.len() as int]);
            }
            conv_ph.push(Phonetic::from_api(p));
            proof {
                assert(rest_ph@ =~= orig_ph.subrange(conv_ph@.len() as int, orig_ph.len() as int));
            }
        }
        let ghost orig_m = meanings@;
        let mut rest_m = meanings;
        let mut conv_m: Vec<WordMeaning> = Vec::new();
        let mut last_err: Option<UnknownPartOfSpeech> = None;
        let ghost n = orig_m.len() as int;
        while rest_m.len() > 0
            invariant
                conv_m@.len() <= orig_m.len(),
                ({
                    let done = (orig_m.len() - rest_m@.len()) as int;
                    &&& rest_m@ == orig_m.subrange(done, orig_m.len() as int)
                    &&& (last_err is None <==> all_meanings_parse(orig_m, done))
                    &&& (last_err is None ==> conv_m@.len() == done && forall|i: int|
                        0 <= i < done ==> meaning_matches_api(
                            conv_m@[i],
                            #[trigger] orig_m[i],
                        ))
                    &&& (last_err matches Some(e) ==> {
                        let bad = last_unparsed(orig_m, done);
                        &&& 0 <= bad < done
                        &&& e.kind == orig_m[bad].part_of_speech
                    })
                }),
            decreases rest_m@.len(),
        {
            let ghost done_pre = (orig_m.len() - rest_m@.len()) as int;
            let m = rest_m.remove(0);
            proof {
                assert(m == orig_m[done_pre]);
            }
            match WordMeaning::from_api(m) {
                Ok(wm) => {
                    if last_err.is_none() {
                        conv_m.push(wm);
                    }
                    proof {
                        lemma_last_unparsed_step(orig_m, done_pre + 1);
                    }
                },
                Err(e) => {
                    last_err = Some(e);
                    proof {
                        lemma_last_unparsed_step(orig_m, done_pre + 1);
                    }
                },
            }
            proof {
                let done = (orig_m.len() - rest_m@.len()) as int;
                assert(rest_m@ =~= orig_m.subrange(done, orig_m.len() as int));
            }
        }
        match last_err {
            Some(e) => Err(e),
            None => Ok(
                Word { word, phonetic, phonetics: conv_ph, origin, meanings: conv_m },
            ),
        }
    }
}

proof fn lemma_last_unparsed_step(s: Seq<ApiWordMeaning>, n: int)
    requires
        0 < n <= s.len(),
    ensures
        parse_pos_spec(s[n - 1].part_of_speech@) is None ==> last_unparsed(s, n) == n - 1,
        parse_pos_spec(s[n - 1].part_of_speech@) is Some ==> last_unparsed(s, n) == last_unparsed(
            s,
            n - 1,
        ),
{
}

} // verus!
